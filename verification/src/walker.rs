//! The walk over a directory tree that finds its regular files.
//!
//! The library never touches the file system. A `Walker` decides which
//! directory is to be listed next; the caller lists it and hands the entries
//! back, or reports that it could not. The depth budget and the treatment of
//! each kind of entry are decided here.

use crate::error::CompareError;
use crate::order::texts;
use vstd::prelude::*;

verus! {

/// What a directory entry is.
#[derive(Clone, Copy, Debug, PartialEq, Eq, Structural)]
pub enum EntryKind {
    /// A regular file.
    File,
    /// A directory.
    Directory,
    /// Anything else, such as a symbolic link, a device or a socket. Such
    /// entries are passed over: they are neither collected nor followed.
    Other,
}

/// One entry of a directory listing.
#[derive(Clone, Debug, PartialEq, Eq)]
pub struct DirEntry {
    pub path: String,
    pub kind: EntryKind,
}

/// What a `DirEntry` stands for in contracts.
pub struct DirEntryView {
    pub path: Seq<char>,
    pub kind: EntryKind,
}

impl View for DirEntry {
    type V = DirEntryView;

    open spec fn view(&self) -> DirEntryView {
        DirEntryView { path: self.path@, kind: self.kind }
    }
}

/// The views of the entries of a listing, position by position.
pub open spec fn entry_views(entries: Seq<DirEntry>) -> Seq<DirEntryView> {
    Seq::new(entries.len(), |i: int| entries[i]@)
}

/// How a walk ends: with the files it found, or at the directory that could
/// not be listed.
pub type WalkOutcome = Result<Seq<Seq<char>>, Seq<char>>;

/// A tree as the walk sees it: for each directory path its listing, or
/// `None` where the directory cannot be listed.
pub type Listings = spec_fn(Seq<char>) -> Option<Seq<DirEntryView>>;

/// One part of a walk followed by another. The first failure ends the walk,
/// and nothing that was found is kept.
pub open spec fn join(first: WalkOutcome, second: WalkOutcome) -> WalkOutcome {
    match first {
        Err(dir) => Err(dir),
        Ok(files) => match second {
            Err(dir) => Err(dir),
            Ok(more) => Ok(files + more),
        },
    }
}

/// The outcome of walking the directory `dir` with `budget` levels left.
///
/// With no budget left the directory is not even listed. Otherwise its
/// entries are visited in the order of the listing, with one level less for
/// the directories among them.
pub open spec fn files_under(listings: Listings, dir: Seq<char>, budget: int) -> WalkOutcome
    decreases budget, 0int,
{
    if budget <= 0 {
        Ok(Seq::empty())
    } else {
        match listings(dir) {
            None => Err(dir),
            Some(entries) => files_among(listings, entries, (budget - 1) as nat),
        }
    }
}

/// The outcome of visiting `entries` in order, with `deeper` levels left for
/// the directories among them: a file is collected, a directory is walked,
/// anything else is passed over.
pub open spec fn files_among(
    listings: Listings,
    entries: Seq<DirEntryView>,
    deeper: nat,
) -> WalkOutcome
    decreases deeper, 1 + entries.len(),
{
    if entries.len() == 0 {
        Ok(Seq::empty())
    } else {
        join(
            files_at(listings, entries[0], deeper),
            files_among(listings, entries.drop_first(), deeper),
        )
    }
}

/// The outcome of visiting a single entry.
pub open spec fn files_at(listings: Listings, entry: DirEntryView, deeper: nat) -> WalkOutcome
    decreases deeper, 1int,
{
    match entry.kind {
        EntryKind::File => Ok(seq![entry.path]),
        EntryKind::Directory => files_under(listings, entry.path, deeper as int),
        EntryKind::Other => Ok(Seq::empty()),
    }
}

/// Joining is associative.
pub proof fn lemma_join_associative(a: WalkOutcome, b: WalkOutcome, c: WalkOutcome)
    ensures
        join(join(a, b), c) == join(a, join(b, c)),
{
    if a is Ok && b is Ok && c is Ok {
        assert((a->Ok_0 + b->Ok_0) + c->Ok_0 =~= a->Ok_0 + (b->Ok_0 + c->Ok_0));
    }
}

/// A part that found nothing changes nothing.
pub proof fn lemma_join_nothing(a: WalkOutcome)
    ensures
        join(Ok(Seq::empty()), a) == a,
        join(a, Ok(Seq::empty())) == a,
{
    if a is Ok {
        assert(Seq::<Seq<char>>::empty() + a->Ok_0 =~= a->Ok_0);
        assert(a->Ok_0 + Seq::<Seq<char>>::empty() =~= a->Ok_0);
    }
}

/// A directory that is being visited: its listing, how far the visit has
/// come, and the levels left for its subdirectories.
struct Frame {
    entries: Vec<DirEntry>,
    next: usize,
    deeper: i16,
}

impl Frame {
    spec fn wf(&self) -> bool {
        self.next <= self.entries.len() && self.deeper >= 0
    }

    /// What the rest of the visit will yield.
    spec fn rest(&self, listings: Listings) -> WalkOutcome {
        files_among(listings, entry_views(self.entries@).skip(self.next as int), self.deeper as nat)
    }

    /// The steps that the rest of the visit takes.
    spec fn work(&self) -> int {
        self.entries.len() - self.next + 1
    }
}

/// What the directories under visit will yield, innermost first.
spec fn rest_of_stack(stack: Seq<Frame>, listings: Listings) -> WalkOutcome
    decreases stack.len(),
{
    if stack.len() == 0 {
        Ok(Seq::empty())
    } else {
        join(stack.last().rest(listings), rest_of_stack(stack.drop_last(), listings))
    }
}

/// The steps that the directories under visit take.
spec fn work_of_stack(stack: Seq<Frame>) -> int
    decreases stack.len(),
{
    if stack.len() == 0 {
        0
    } else {
        stack.last().work() + work_of_stack(stack.drop_last())
    }
}

proof fn lemma_work_of_stack_bounds(stack: Seq<Frame>)
    requires
        forall|i: int| 0 <= i < stack.len() ==> (#[trigger] stack[i]).wf(),
    ensures
        work_of_stack(stack) >= 0,
    decreases stack.len(),
{
    if stack.len() > 0 {
        assert(stack.last().wf());
        lemma_work_of_stack_bounds(stack.drop_last());
    }
}

/// The state of a walk.
pub struct Walker {
    /// The directory whose listing is awaited, with its budget.
    awaited: Option<(String, i16)>,
    /// The directories under visit, the innermost last.
    stack: Vec<Frame>,
    /// The files found so far.
    found: Vec<String>,
    /// The directory that could not be listed, once there is one.
    failed: Option<String>,
}

impl Walker {
    /// The invariant of the type.
    pub closed spec fn wf(&self) -> bool {
        &&& forall|i: int| 0 <= i < self.stack@.len() ==> (#[trigger] self.stack@[i]).wf()
        &&& self.awaited matches Some(pair) ==> pair.1 > 0
        &&& self.failed is Some ==> self.awaited is None
    }

    /// The files found so far, in the order in which they were found.
    pub closed spec fn found(&self) -> Seq<Seq<char>> {
        texts(self.found@)
    }

    /// The directory whose listing the walk waits for.
    pub closed spec fn awaited(&self) -> Option<Seq<char>> {
        match self.awaited {
            Some(pair) => Some(pair.0@),
            None => None,
        }
    }

    /// The directory that could not be listed, once the walk has failed.
    pub closed spec fn failed(&self) -> Option<Seq<char>> {
        match self.failed {
            Some(dir) => Some(dir@),
            None => None,
        }
    }

    /// Nothing is left to visit.
    pub closed spec fn exhausted(&self) -> bool {
        self.awaited is None && self.stack@.len() == 0
    }

    /// The walk is over: it has failed, or nothing is left to visit.
    pub open spec fn done(&self) -> bool {
        self.failed() is Some || self.exhausted()
    }

    /// How the walk ends if the directories list as `listings` says.
    pub closed spec fn outcome(&self, listings: Listings) -> WalkOutcome {
        match self.failed {
            Some(dir) => Err(dir@),
            None => join(
                Ok(self.found()),
                join(self.awaited_part(listings), rest_of_stack(self.stack@, listings)),
            ),
        }
    }

    spec fn awaited_part(&self, listings: Listings) -> WalkOutcome {
        match self.awaited {
            Some(pair) => files_under(listings, pair.0@, pair.1 as int),
            None => Ok(Seq::empty()),
        }
    }

    /// Once a walk has failed or nothing is left to visit, its outcome no
    /// longer depends on any listing: it is the failure, or the files found.
    pub proof fn lemma_outcome_when_done(&self, listings: Listings)
        requires
            self.done(),
        ensures
            self.outcome(listings) == match self.failed() {
                Some(dir) => Err::<Seq<Seq<char>>, Seq<char>>(dir),
                None => Ok(self.found()),
            },
    {
        if self.failed is None {
            lemma_join_nothing(rest_of_stack(self.stack@, listings));
            lemma_join_nothing(Ok(self.found()));
        }
    }

    /// While a walk waits for a directory, it fails at that directory in
    /// every tree in which the directory cannot be listed.
    pub proof fn lemma_outcome_when_unlistable(&self, listings: Listings)
        requires
            self.wf(),
            self.failed() is None,
            self.awaited() matches Some(dir) && listings(dir) is None,
        ensures
            self.outcome(listings) == Err::<Seq<Seq<char>>, Seq<char>>(self.awaited()->Some_0),
    {
    }

    /// Starts a walk at `root` with a budget of `max_depth` levels.
    ///
    /// The entries of the root are one level down. With a budget of zero or
    /// less nothing is listed and nothing is found.
    pub fn new(root: String, max_depth: i16) -> (walker: Walker)
        ensures
            walker.wf(),
            walker.found() == Seq::<Seq<char>>::empty(),
            walker.failed() is None,
            walker.awaited() == if max_depth > 0 {
                Some(root@)
            } else {
                None::<Seq<char>>
            },
            max_depth <= 0 ==> walker.exhausted(),
            forall|listings: Listings| #[trigger]
                walker.outcome(listings) == files_under(listings, root@, max_depth as int),
    {
        let ghost root_view = root@;
        let awaited = if max_depth > 0 {
            Some((root, max_depth))
        } else {
            None
        };
        let walker = Walker { awaited, stack: Vec::new(), found: Vec::new(), failed: None };
        proof {
            assert(walker.found() =~= Seq::<Seq<char>>::empty());
            assert forall|listings: Listings| #[trigger]
                walker.outcome(listings) == files_under(listings, root_view, max_depth as int) by {
                let under = files_under(listings, root_view, max_depth as int);
                lemma_join_nothing(under);
                lemma_join_nothing(walker.awaited_part(listings));
            }
        }
        walker
    }

    /// Goes on with the walk until a directory has to be listed, and returns
    /// that directory; returns `None` once the walk is over.
    ///
    /// Files met on the way are collected, entries that are neither file nor
    /// directory are passed over, and a directory is asked for only while
    /// budget is left for it. However the directories list, the outcome of
    /// the walk is what it was before the call.
    pub fn next_directory(&mut self) -> (dir: Option<String>)
        requires
            old(self).wf(),
        ensures
            final(self).wf(),
            forall|listings: Listings| #[trigger]
                final(self).outcome(listings) == old(self).outcome(listings),
            final(self).failed() == old(self).failed(),
            match dir {
                Some(path) => final(self).failed() is None && final(self).awaited() == Some(path@),
                None => final(self).awaited() is None && final(self).done(),
            },
            old(self).failed() is Some || old(self).awaited() is Some ==> final(self).found()
                == old(self).found() && final(self).awaited() == old(self).awaited(),
    {
        if self.failed.is_some() {
            return None;
        }
        let ghost start = *self;
        proof {
            lemma_work_of_stack_bounds(self.stack@);
        }
        loop
            invariant
                self.wf(),
                self.failed is None,
                start == *old(self),
                start.failed is None,
                forall|listings: Listings| #[trigger]
                    self.outcome(listings) == start.outcome(listings),
                start.awaited is Some ==> *self == start,
                work_of_stack(self.stack@) >= 0,
            decreases work_of_stack(self.stack@) + (if self.awaited is Some { 0int } else { 1int }),
        {
            match &self.awaited {
                Some(pair) => {
                    return Some(pair.0.clone());
                },
                None => {},
            }
            let ghost before = *self;
            match self.stack.pop() {
                None => {
                    assert(self.stack@ =~= before.stack@);
                    assert forall|listings: Listings| #[trigger]
                        self.outcome(listings) == before.outcome(listings) by {}
                    return None;
                },
                Some(frame) => {
                    let ghost below = self.stack@;
                    assert(below =~= before.stack@.drop_last());
                    assert(frame == before.stack@.last());
                    assert(frame.wf());
                    proof {
                        lemma_work_of_stack_bounds(below);
                    }
                    if frame.next < frame.entries.len() {
                        let kind = frame.entries[frame.next].kind;
                        let path = frame.entries[frame.next].path.clone();
                        let deeper: i16 = frame.deeper;
                        let ghost entry = frame.entries@[frame.next as int]@;
                        let ghost views = entry_views(frame.entries@);
                        let moved = Frame {
                            entries: frame.entries,
                            next: frame.next + 1,
                            deeper,
                        };
                        proof {
                            assert(views.skip(frame.next as int)[0] == entry);
                            assert(views.skip(frame.next as int).drop_first() =~= views.skip(
                                frame.next + 1,
                            ));
                        }
                        self.stack.push(moved);
                        assert(self.stack@.drop_last() =~= below);
                        assert(self.stack@.last() == moved);
                        match kind {
                            EntryKind::File => {
                                self.found.push(path);
                                assert(self.found() =~= before.found().push(entry.path));
                            },
                            EntryKind::Directory => {
                                if deeper > 0 {
                                    self.awaited = Some((path, deeper));
                                }
                            },
                            EntryKind::Other => {},
                        }
                        proof {
                            assert forall|listings: Listings| #[trigger]
                                self.outcome(listings) == before.outcome(listings) by {
                                let visit = files_at(listings, entry, deeper as nat);
                                let after = moved.rest(listings);
                                let under = rest_of_stack(below, listings);
                                assert(frame.rest(listings) == join(visit, after));
                                assert(rest_of_stack(before.stack@, listings) == join(
                                    join(visit, after),
                                    under,
                                ));
                                assert(rest_of_stack(self.stack@, listings) == join(after, under));
                                lemma_join_associative(visit, after, under);
                                lemma_join_nothing(join(visit, join(after, under)));
                                lemma_join_nothing(join(after, under));
                                lemma_join_nothing(visit);
                                if kind == EntryKind::File {
                                    lemma_join_associative(
                                        Ok(before.found()),
                                        visit,
                                        join(after, under),
                                    );
                                    assert(before.found() + seq![entry.path] =~= before.found().push(
                                        entry.path,
                                    ));
                                }
                            }
                        }
                    } else {
                        proof {
                            assert(entry_views(frame.entries@).skip(frame.next as int).len() == 0);
                            assert forall|listings: Listings| #[trigger]
                                self.outcome(listings) == before.outcome(listings) by {
                                lemma_join_nothing(rest_of_stack(below, listings));
                            }
                        }
                    }
                },
            }
        }
    }

    /// Hands over the listing of the directory that the walk waits for.
    ///
    /// The entries are visited by the calls of `next_directory` that follow.
    /// Where the walk waits for no directory, the entries are dropped and
    /// nothing changes.
    pub fn supply(&mut self, entries: Vec<DirEntry>)
        requires
            old(self).wf(),
        ensures
            final(self).wf(),
            final(self).awaited() is None,
            final(self).found() == old(self).found(),
            final(self).failed() == old(self).failed(),
            old(self).awaited() is None ==> forall|listings: Listings| #[trigger]
                final(self).outcome(listings) == old(self).outcome(listings),
            old(self).awaited() is None ==> final(self).exhausted() == old(self).exhausted(),
            old(self).awaited() matches Some(dir) ==> forall|listings: Listings|
                listings(dir) == Some(entry_views(entries@)) ==> #[trigger] final(self).outcome(
                    listings,
                ) == old(self).outcome(listings),
    {
        let ghost before = *self;
        match self.awaited.take() {
            None => {
                assert(*self == before);
            },
            Some(pair) => {
                let ghost views = entry_views(entries@);
                let frame = Frame { entries, next: 0, deeper: pair.1 - 1 };
                self.stack.push(frame);
                proof {
                    assert(self.stack@.drop_last() =~= before.stack@);
                    assert(views.skip(0) =~= views);
                    assert forall|listings: Listings|
                        listings(pair.0@) == Some(views) implies #[trigger] self.outcome(listings)
                        == before.outcome(listings) by {
                        lemma_join_nothing(
                            join(frame.rest(listings), rest_of_stack(before.stack@, listings)),
                        );
                        lemma_join_associative(
                            frame.rest(listings),
                            Ok(Seq::empty()),
                            rest_of_stack(before.stack@, listings),
                        );
                    }
                }
            },
        }
    }

    /// Reports that the directory the walk waits for could not be listed.
    ///
    /// The walk is over: it has failed at that directory. Where the walk
    /// waits for no directory, nothing changes.
    pub fn fail(&mut self)
        requires
            old(self).wf(),
        ensures
            final(self).wf(),
            final(self).awaited() is None,
            old(self).awaited() matches Some(dir) ==> final(self).failed() == Some(dir),
            old(self).awaited() is None ==> final(self).failed() == old(self).failed(),
            old(self).awaited() is None ==> final(self).found() == old(self).found(),
            old(self).awaited() is None ==> final(self).exhausted() == old(self).exhausted(),
            old(self).awaited() is None ==> forall|listings: Listings| #[trigger]
                final(self).outcome(listings) == old(self).outcome(listings),
            old(self).awaited() matches Some(dir) ==> forall|listings: Listings|
                listings(dir) is None ==> #[trigger] final(self).outcome(listings) == old(
                    self,
                ).outcome(listings),
    {
        let ghost before = *self;
        match self.awaited.take() {
            None => {
                assert(*self == before);
            },
            Some(pair) => {
                self.failed = Some(pair.0);
            },
        }
    }

    /// Ends the walk: the files found, or the failure.
    pub fn finish(self) -> (result: Result<Vec<String>, CompareError>)
        ensures
            match result {
                Ok(files) => self.failed() is None && texts(files@) == self.found(),
                Err(error) => error is Traversal && self.failed() == Some(error.spec_path()),
            },
    {
        match self.failed {
            Some(path) => Err(CompareError::Traversal { path }),
            None => Ok(self.found),
        }
    }
}

} // verus!
