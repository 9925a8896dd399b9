//! The depth bound of a walk: which files a budget of levels reaches.

use crate::walker::{files_among, files_at, files_under, DirEntryView, EntryKind, Listings};
use vstd::prelude::*;

verus! {

/// `path` is a regular file exactly `depth` levels below the directory `dir`:
/// an entry of `dir` itself for depth one, an entry of a directory among the
/// entries of `dir` for depth two, and so on.
pub open spec fn file_at_depth(
    listings: Listings,
    dir: Seq<char>,
    path: Seq<char>,
    depth: nat,
) -> bool
    decreases depth,
{
    if depth == 0 {
        false
    } else {
        match listings(dir) {
            None => false,
            Some(entries) => exists|i: int|
                0 <= i < entries.len() && #[trigger] on_the_way(entries[i], path, depth) && (depth
                    == 1 || file_at_depth(listings, entries[i].path, path, (depth - 1) as nat)),
        }
    }
}

/// What an entry must be to lead to a file `depth` levels below the
/// directory that lists it: the file itself at depth one, a directory at
/// any greater depth.
pub open spec fn on_the_way(entry: DirEntryView, path: Seq<char>, depth: nat) -> bool {
    if depth == 1 {
        entry.kind == EntryKind::File && entry.path == path
    } else {
        entry.kind == EntryKind::Directory
    }
}

/// `path` is a regular file at least one and at most `budget` levels below
/// `dir`.
pub open spec fn file_within(
    listings: Listings,
    dir: Seq<char>,
    path: Seq<char>,
    budget: int,
) -> bool {
    exists|depth: nat| 1 <= depth <= budget && #[trigger] file_at_depth(listings, dir, path, depth)
}

/// `entry` is the file `path`, or a directory with the file `path` at least
/// one and at most `deeper` levels below it.
spec fn entry_has(listings: Listings, entry: DirEntryView, path: Seq<char>, deeper: nat) -> bool {
    match entry.kind {
        EntryKind::File => entry.path == path,
        EntryKind::Directory => file_within(listings, entry.path, path, deeper as int),
        EntryKind::Other => false,
    }
}

spec fn among_has(
    listings: Listings,
    entries: Seq<DirEntryView>,
    path: Seq<char>,
    deeper: nat,
) -> bool {
    exists|i: int| 0 <= i < entries.len() && #[trigger] entry_has(listings, entries[i], path, deeper)
}

proof fn lemma_within_is_among(listings: Listings, dir: Seq<char>, path: Seq<char>, budget: int)
    requires
        budget >= 1,
        listings(dir) is Some,
    ensures
        file_within(listings, dir, path, budget) <==> among_has(
            listings,
            listings(dir)->Some_0,
            path,
            (budget - 1) as nat,
        ),
{
    let entries = listings(dir)->Some_0;
    if file_within(listings, dir, path, budget) {
        let depth = choose|depth: nat|
            1 <= depth <= budget && #[trigger] file_at_depth(listings, dir, path, depth);
        let i = choose|i: int|
            0 <= i < entries.len() && #[trigger] on_the_way(entries[i], path, depth) && (depth == 1
                || file_at_depth(listings, entries[i].path, path, (depth - 1) as nat));
        if depth > 1 {
            assert(file_within(listings, entries[i].path, path, budget - 1));
        }
        assert(entry_has(listings, entries[i], path, (budget - 1) as nat));
    }
    if among_has(listings, entries, path, (budget - 1) as nat) {
        let i = choose|i: int|
            0 <= i < entries.len() && #[trigger] entry_has(
                listings,
                entries[i],
                path,
                (budget - 1) as nat,
            );
        if entries[i].kind == EntryKind::File {
            assert(on_the_way(entries[i], path, 1));
            assert(file_at_depth(listings, dir, path, 1));
        } else {
            let below = choose|below: nat|
                1 <= below <= budget - 1 && #[trigger] file_at_depth(
                    listings,
                    entries[i].path,
                    path,
                    below,
                );
            assert(on_the_way(entries[i], path, below + 1));
            assert(file_at_depth(listings, dir, path, below + 1));
        }
    }
}

proof fn lemma_files_under(listings: Listings, dir: Seq<char>, path: Seq<char>, budget: int)
    requires
        files_under(listings, dir, budget) is Ok,
    ensures
        files_under(listings, dir, budget)->Ok_0.contains(path) <==> file_within(
            listings,
            dir,
            path,
            budget,
        ),
    decreases budget, 0int,
{
    if budget > 0 {
        let entries = listings(dir)->Some_0;
        lemma_files_among(listings, entries, path, (budget - 1) as nat);
        lemma_within_is_among(listings, dir, path, budget);
    }
}

proof fn lemma_files_at(listings: Listings, entry: DirEntryView, path: Seq<char>, deeper: nat)
    requires
        files_at(listings, entry, deeper) is Ok,
    ensures
        files_at(listings, entry, deeper)->Ok_0.contains(path) <==> entry_has(
            listings,
            entry,
            path,
            deeper,
        ),
    decreases deeper, 1int,
{
    let files = files_at(listings, entry, deeper)->Ok_0;
    match entry.kind {
        EntryKind::File => {
            assert(files[0] == entry.path);
        },
        EntryKind::Directory => {
            lemma_files_under(listings, entry.path, path, deeper as int);
        },
        EntryKind::Other => {},
    }
}

proof fn lemma_files_among(
    listings: Listings,
    entries: Seq<DirEntryView>,
    path: Seq<char>,
    deeper: nat,
)
    requires
        files_among(listings, entries, deeper) is Ok,
    ensures
        files_among(listings, entries, deeper)->Ok_0.contains(path) <==> among_has(
            listings,
            entries,
            path,
            deeper,
        ),
    decreases deeper, 1 + entries.len(),
{
    if entries.len() > 0 {
        let first = files_at(listings, entries[0], deeper)->Ok_0;
        let rest = entries.drop_first();
        let others = files_among(listings, rest, deeper)->Ok_0;
        let all = files_among(listings, entries, deeper)->Ok_0;
        assert(all == first + others);
        lemma_files_at(listings, entries[0], path, deeper);
        lemma_files_among(listings, rest, path, deeper);
        if all.contains(path) {
            let at = choose|at: int| 0 <= at < all.len() && all[at] == path;
            if at < first.len() {
                assert(first[at] == path);
            } else {
                assert(others[at - first.len()] == path);
                let i = choose|i: int|
                    0 <= i < rest.len() && #[trigger] entry_has(listings, rest[i], path, deeper);
                assert(entry_has(listings, entries[i + 1], path, deeper));
            }
        }
        if among_has(listings, entries, path, deeper) {
            let i = choose|i: int|
                0 <= i < entries.len() && #[trigger] entry_has(listings, entries[i], path, deeper);
            if i == 0 {
                let at = choose|at: int| 0 <= at < first.len() && first[at] == path;
                assert(all[at] == path);
            } else {
                assert(entry_has(listings, rest[i - 1], path, deeper));
                let at = choose|at: int| 0 <= at < others.len() && others[at] == path;
                assert(all[at + first.len()] == path);
            }
        }
    }
}

/// A walk that succeeds finds exactly the regular files that lie at least
/// one and at most `max_depth` levels below the root.
pub proof fn lemma_depth_bound(
    listings: Listings,
    root: Seq<char>,
    max_depth: int,
    path: Seq<char>,
)
    requires
        files_under(listings, root, max_depth) is Ok,
    ensures
        files_under(listings, root, max_depth)->Ok_0.contains(path) <==> file_within(
            listings,
            root,
            path,
            max_depth,
        ),
{
    lemma_files_under(listings, root, path, max_depth);
}

/// A file exactly `max_depth` levels below the root is found by a walk that
/// succeeds.
pub proof fn lemma_file_at_max_depth_found(
    listings: Listings,
    root: Seq<char>,
    max_depth: int,
    path: Seq<char>,
)
    requires
        max_depth >= 1,
        file_at_depth(listings, root, path, max_depth as nat),
        files_under(listings, root, max_depth) is Ok,
    ensures
        files_under(listings, root, max_depth)->Ok_0.contains(path),
{
    lemma_files_under(listings, root, path, max_depth);
}

/// A file that lies only deeper than `max_depth` levels below the root is
/// not found.
pub proof fn lemma_file_below_max_depth_not_found(
    listings: Listings,
    root: Seq<char>,
    max_depth: int,
    path: Seq<char>,
)
    requires
        forall|depth: nat| 1 <= depth <= max_depth ==> !file_at_depth(listings, root, path, depth),
        files_under(listings, root, max_depth) is Ok,
    ensures
        !files_under(listings, root, max_depth)->Ok_0.contains(path),
{
    lemma_files_under(listings, root, path, max_depth);
}

} // verus!
