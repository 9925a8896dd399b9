//! What holds of every comparison, stated over the contents of the files.

use crate::checksum::{digest_of, FileDigestView};
use crate::generator::ChecksumGenerator;
use crate::index::{index_of, lemma_index_of};
use crate::order::{lemma_ascending_unique, lemma_text_less_irreflexive, text_less};
use crate::reconcile::{by_digest, by_path, is_missing_list, new_index_of, old_index_of};
use vstd::prelude::*;

verus! {

/// The files of a tree as the comparison sees them: the path at each
/// position with the digest of the content at that position.
pub open spec fn digest_records(
    generator: ChecksumGenerator,
    paths: Seq<Seq<char>>,
    contents: Seq<Seq<u8>>,
) -> Seq<FileDigestView> {
    Seq::new(
        paths.len(),
        |i: int| FileDigestView { path: paths[i], digest: digest_of(generator, contents[i]) },
    )
}

/// Equal contents get equal digests under the same algorithm, in whichever
/// pass and at whatever position they are digested.
pub proof fn lemma_equal_contents_equal_digests(
    generator: ChecksumGenerator,
    first_paths: Seq<Seq<char>>,
    first_contents: Seq<Seq<u8>>,
    second_paths: Seq<Seq<char>>,
    second_contents: Seq<Seq<u8>>,
    i: int,
    j: int,
)
    requires
        0 <= i < first_paths.len(),
        0 <= j < second_paths.len(),
        first_contents[i] == second_contents[j],
    ensures
        digest_records(generator, first_paths, first_contents)[i].digest == digest_records(
            generator,
            second_paths,
            second_contents,
        )[j].digest,
{
}

/// No two files of the sequence have the same path.
pub open spec fn distinct_paths(files: Seq<FileDigestView>) -> bool {
    forall|i: int, j: int|
        0 <= i < j < files.len() ==> (#[trigger] files[i]).path != (#[trigger] files[j]).path
}

/// A file of the old tree whose content some file of the new tree has,
/// under whatever path, is not listed as missing.
///
/// The old file is the one that the old index holds for its path: no later
/// file of the old tree has the same path, as is the case where every path
/// is listed once.
pub proof fn lemma_unmodified_file_not_missing(
    generator: ChecksumGenerator,
    old_paths: Seq<Seq<char>>,
    old_contents: Seq<Seq<u8>>,
    new_paths: Seq<Seq<char>>,
    new_contents: Seq<Seq<u8>>,
    missing: Seq<Seq<char>>,
    i: int,
    j: int,
)
    requires
        old_paths.len() == old_contents.len(),
        new_paths.len() == new_contents.len(),
        0 <= i < old_paths.len(),
        0 <= j < new_paths.len(),
        forall|k: int| i < k < old_paths.len() ==> old_paths[k] != old_paths[i],
        old_contents[i] == new_contents[j],
        is_missing_list(
            missing,
            old_index_of(digest_records(generator, old_paths, old_contents)),
            new_index_of(digest_records(generator, new_paths, new_contents)),
        ),
    ensures
        !missing.contains(old_paths[i]),
{
    let old_pairs = by_path(digest_records(generator, old_paths, old_contents));
    let new_pairs = by_digest(digest_records(generator, new_paths, new_contents));
    lemma_index_of(old_pairs);
    lemma_index_of(new_pairs);
    assert(old_pairs[i].0 == old_paths[i]);
    assert(new_pairs[j].0 == digest_of(generator, new_contents[j]));
    assert(index_of_at(old_pairs, i) == digest_of(generator, old_contents[i])) by {
        assert forall|k: int| i < k < old_pairs.len() implies (#[trigger] old_pairs[k]).0
            != old_pairs[i].0 by {
            assert(old_paths[k] != old_paths[i]);
        }
    }
}

/// The value that the index built from `pairs` holds for the key at
/// position `i`.
spec fn index_of_at(pairs: Seq<(Seq<char>, Seq<char>)>, i: int) -> Seq<char> {
    index_of(pairs)[pairs[i].0]
}

/// A file of the old tree whose digest no file of the new tree has is listed
/// as missing, and listed once.
///
/// The old file is the one that the old index holds for its path. That no
/// new file has its digest says more than that no new file has its content:
/// two different contents may have the same digest, and then the old file is
/// taken to be present.
pub proof fn lemma_unmatched_file_listed_once(
    generator: ChecksumGenerator,
    old_paths: Seq<Seq<char>>,
    old_contents: Seq<Seq<u8>>,
    new_paths: Seq<Seq<char>>,
    new_contents: Seq<Seq<u8>>,
    missing: Seq<Seq<char>>,
    i: int,
)
    requires
        old_paths.len() == old_contents.len(),
        new_paths.len() == new_contents.len(),
        0 <= i < old_paths.len(),
        forall|k: int| i < k < old_paths.len() ==> old_paths[k] != old_paths[i],
        forall|j: int|
            0 <= j < new_contents.len() ==> digest_of(generator, #[trigger] new_contents[j])
                != digest_of(generator, old_contents[i]),
        is_missing_list(
            missing,
            old_index_of(digest_records(generator, old_paths, old_contents)),
            new_index_of(digest_records(generator, new_paths, new_contents)),
        ),
    ensures
        exists|at: int|
            0 <= at < missing.len() && #[trigger] missing[at] == old_paths[i] && forall|other: int|
                0 <= other < missing.len() && #[trigger] missing[other] == old_paths[i] ==> other
                    == at,
{
    let old_pairs = by_path(digest_records(generator, old_paths, old_contents));
    let new_pairs = by_digest(digest_records(generator, new_paths, new_contents));
    let path = old_paths[i];
    let digest = digest_of(generator, old_contents[i]);
    lemma_index_of(old_pairs);
    lemma_index_of(new_pairs);
    assert(old_pairs[i].0 == path);
    assert(index_of_at(old_pairs, i) == digest) by {
        assert forall|k: int| i < k < old_pairs.len() implies (#[trigger] old_pairs[k]).0
            != old_pairs[i].0 by {
            assert(old_paths[k] != old_paths[i]);
        }
    }
    assert(!index_of(new_pairs).dom().contains(digest)) by {
        if index_of(new_pairs).dom().contains(digest) {
            let j = choose|j: int| 0 <= j < new_pairs.len() && (#[trigger] new_pairs[j]).0 == digest;
            assert(digest_of(generator, new_contents[j]) == digest);
        }
    }
    assert(missing.contains(path));
    let at = choose|at: int| 0 <= at < missing.len() && missing[at] == path;
    lemma_text_less_irreflexive(path);
    assert forall|other: int|
        0 <= other < missing.len() && #[trigger] missing[other] == path implies other == at by {
        if other < at {
            assert(text_less(missing[other], missing[at]));
        }
        if at < other {
            assert(text_less(missing[at], missing[other]));
        }
    }
}

/// Only paths of the old tree are listed as missing: a path that no file of
/// the old tree has, such as that of a file that only the new tree holds, is
/// never in the list.
pub proof fn lemma_only_old_paths_listed(
    old_files: Seq<FileDigestView>,
    new_files: Seq<FileDigestView>,
    missing: Seq<Seq<char>>,
    path: Seq<char>,
)
    requires
        is_missing_list(missing, old_index_of(old_files), new_index_of(new_files)),
        forall|i: int| 0 <= i < old_files.len() ==> (#[trigger] old_files[i]).path != path,
    ensures
        !missing.contains(path),
{
    let old_pairs = by_path(old_files);
    lemma_index_of(old_pairs);
    if missing.contains(path) {
        let i = choose|i: int| 0 <= i < old_pairs.len() && (#[trigger] old_pairs[i]).0 == path;
        assert(old_files[i].path == path);
    }
}

/// The two indexes fix the list of missing files, order included: whatever
/// is a list of missing files for them is the same list.
pub proof fn lemma_missing_list_unique(
    first: Seq<Seq<char>>,
    second: Seq<Seq<char>>,
    old_index: Map<Seq<char>, Seq<char>>,
    new_index: Map<Seq<char>, Seq<char>>,
)
    requires
        is_missing_list(first, old_index, new_index),
        is_missing_list(second, old_index, new_index),
    ensures
        first == second,
{
    lemma_ascending_unique(first, second);
}

/// Comparing the same trees again gives the same list, order included, in
/// whatever order the files of either tree were found.
///
/// Each run lists every path of the old tree once; the two runs hold the same
/// files of the old tree and the same files of the new tree.
pub proof fn lemma_comparison_repeatable(
    old_first: Seq<FileDigestView>,
    new_first: Seq<FileDigestView>,
    missing_first: Seq<Seq<char>>,
    old_second: Seq<FileDigestView>,
    new_second: Seq<FileDigestView>,
    missing_second: Seq<Seq<char>>,
)
    requires
        distinct_paths(old_first),
        distinct_paths(old_second),
        forall|file: FileDigestView| old_first.contains(file) <==> old_second.contains(file),
        forall|file: FileDigestView| new_first.contains(file) <==> new_second.contains(file),
        is_missing_list(missing_first, old_index_of(old_first), new_index_of(new_first)),
        is_missing_list(missing_second, old_index_of(old_second), new_index_of(new_second)),
    ensures
        missing_first == missing_second,
{
    lemma_old_index_ignores_order(old_first, old_second);
    lemma_new_keys_ignore_order(new_first, new_second);
    lemma_new_keys_ignore_order(new_second, new_first);
    let old_index = old_index_of(old_first);
    assert forall|path: Seq<char>| #[trigger]
        missing_first.contains(path) <==> missing_second.contains(path) by {
        if old_index.dom().contains(path) {
            let digest = old_index[path];
            assert(new_index_of(new_first).dom().contains(digest) <==> new_index_of(
                new_second,
            ).dom().contains(digest));
        }
    }
    lemma_ascending_unique(missing_first, missing_second);
}

/// Where no path occurs twice, the index of the old tree does not depend on
/// the order of the files.
proof fn lemma_old_index_ignores_order(first: Seq<FileDigestView>, second: Seq<FileDigestView>)
    requires
        distinct_paths(first),
        distinct_paths(second),
        forall|file: FileDigestView| first.contains(file) <==> second.contains(file),
    ensures
        old_index_of(first) == old_index_of(second),
{
    let a = by_path(first);
    let b = by_path(second);
    lemma_index_of(a);
    lemma_index_of(b);
    assert forall|i: int| 0 <= i < a.len() implies index_of(a)[(#[trigger] a[i]).0]
        == a[i].1 by {
        assert forall|j: int| i < j < a.len() implies (#[trigger] a[j]).0 != a[i].0 by {
            assert(first[i].path != first[j].path);
        }
    }
    assert forall|i: int| 0 <= i < b.len() implies index_of(b)[(#[trigger] b[i]).0]
        == b[i].1 by {
        assert forall|j: int| i < j < b.len() implies (#[trigger] b[j]).0 != b[i].0 by {
            assert(second[i].path != second[j].path);
        }
    }
    assert forall|k: Seq<char>| #[trigger]
        index_of(a).dom().contains(k) implies index_of(
        b,
    ).dom().contains(k) && index_of(a)[k] == index_of(b)[k] by {
        let i = choose|i: int| 0 <= i < a.len() && (#[trigger] a[i]).0 == k;
        assert(first.contains(first[i]));
        let j = choose|j: int| 0 <= j < second.len() && second[j] == first[i];
        assert(b[j].0 == k);
        assert(b[j].1 == a[i].1);
    }
    assert forall|k: Seq<char>| #[trigger]
        index_of(b).dom().contains(k) implies index_of(
        a,
    ).dom().contains(k) by {
        let j = choose|j: int| 0 <= j < b.len() && (#[trigger] b[j]).0 == k;
        assert(second.contains(second[j]));
        let i = choose|i: int| 0 <= i < first.len() && first[i] == second[j];
        assert(a[i].0 == k);
    }
    assert(index_of(a) =~= index_of(b));
}

/// Every digest that the index of the new tree holds for one sequence of
/// files it holds for any other sequence with the same files.
proof fn lemma_new_keys_ignore_order(first: Seq<FileDigestView>, second: Seq<FileDigestView>)
    requires
        forall|file: FileDigestView| first.contains(file) <==> second.contains(file),
    ensures
        forall|digest: Seq<char>| #[trigger]
            new_index_of(first).dom().contains(digest) ==> new_index_of(second).dom().contains(
                digest,
            ),
{
    let a = by_digest(first);
    let b = by_digest(second);
    lemma_index_of(a);
    lemma_index_of(b);
    assert forall|digest: Seq<char>| #[trigger]
        new_index_of(first).dom().contains(digest) implies new_index_of(second).dom().contains(
        digest,
    ) by {
        let i = choose|i: int| 0 <= i < a.len() && (#[trigger] a[i]).0 == digest;
        assert(first.contains(first[i]));
        let j = choose|j: int| 0 <= j < second.len() && second[j] == first[i];
        assert(b[j].0 == digest);
    }
}

} // verus!
