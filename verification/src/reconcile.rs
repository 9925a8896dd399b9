//! Reconciliation of two trees by content: which files of the old tree have
//! a digest that no file of the new tree has.

use crate::checksum::{views, FileDigest, FileDigestView};
use crate::index::{index_of, pair_views, Index};
use crate::order::{strictly_ascending, text_less, texts};
use vstd::prelude::*;

verus! {

/// The files as pairs of path and digest.
pub open spec fn by_path(files: Seq<FileDigestView>) -> Seq<(Seq<char>, Seq<char>)> {
    Seq::new(files.len(), |i: int| (files[i].path, files[i].digest))
}

/// The files as pairs of digest and path.
pub open spec fn by_digest(files: Seq<FileDigestView>) -> Seq<(Seq<char>, Seq<char>)> {
    Seq::new(files.len(), |i: int| (files[i].digest, files[i].path))
}

/// The index of the old tree: from each path to its digest. Should a path
/// occur more than once, its last digest stays.
pub open spec fn old_index_of(files: Seq<FileDigestView>) -> Map<Seq<char>, Seq<char>> {
    index_of(by_path(files))
}

/// The index of the new tree: from each digest to a path that has it. Where
/// several files share a digest, the last of them stays.
pub open spec fn new_index_of(files: Seq<FileDigestView>) -> Map<Seq<char>, Seq<char>> {
    index_of(by_digest(files))
}

/// `list` is the list of missing files for the two indexes: it holds exactly
/// the paths of the old index whose digest is no key of the new index, each
/// once, in ascending order.
pub open spec fn is_missing_list(
    list: Seq<Seq<char>>,
    old_index: Map<Seq<char>, Seq<char>>,
    new_index: Map<Seq<char>, Seq<char>>,
) -> bool {
    &&& strictly_ascending(list)
    &&& forall|path: Seq<char>| #[trigger]
        list.contains(path) <==> old_index.dom().contains(path) && !new_index.dom().contains(
            old_index[path],
        )
}

/// Builds the index of the old tree, from path to digest.
pub fn build_old_index(files: &Vec<FileDigest>) -> (index: Index)
    ensures
        index.wf(),
        index@ == old_index_of(views(files@)),
{
    let mut pairs: Vec<(String, String)> = Vec::new();
    let mut i: usize = 0;
    while i < files.len()
        invariant
            i <= files.len(),
            pair_views(pairs@) =~= by_path(views(files@)).take(i as int),
        decreases files.len() - i,
    {
        let ghost before = pair_views(pairs@);
        pairs.push((files[i].path.clone(), files[i].digest.clone()));
        proof {
            let pair = (files@[i as int].path@, files@[i as int].digest@);
            assert(pair_views(pairs@) =~= before.push(pair));
            assert(by_path(views(files@)).take(i + 1) =~= by_path(views(files@)).take(
                i as int,
            ).push(pair));
        }
        i = i + 1;
    }
    assert(by_path(views(files@)).take(files.len() as int) =~= by_path(views(files@)));
    Index::from_pairs(pairs)
}

/// Builds the index of the new tree, from digest to path.
pub fn build_new_index(files: &Vec<FileDigest>) -> (index: Index)
    ensures
        index.wf(),
        index@ == new_index_of(views(files@)),
{
    let mut pairs: Vec<(String, String)> = Vec::new();
    let mut i: usize = 0;
    while i < files.len()
        invariant
            i <= files.len(),
            pair_views(pairs@) =~= by_digest(views(files@)).take(i as int),
        decreases files.len() - i,
    {
        let ghost before = pair_views(pairs@);
        pairs.push((files[i].digest.clone(), files[i].path.clone()));
        proof {
            let pair = (files@[i as int].digest@, files@[i as int].path@);
            assert(pair_views(pairs@) =~= before.push(pair));
            assert(by_digest(views(files@)).take(i + 1) =~= by_digest(views(files@)).take(
                i as int,
            ).push(pair));
        }
        i = i + 1;
    }
    assert(by_digest(views(files@)).take(files.len() as int) =~= by_digest(views(files@)));
    Index::from_pairs(pairs)
}

/// Walks the old index in ascending order of path and collects every path
/// whose digest the new index does not hold.
pub fn reconcile(old_index: &Index, new_index: &Index) -> (missing: Vec<String>)
    requires
        old_index.wf(),
        new_index.wf(),
    ensures
        is_missing_list(texts(missing@), old_index@, new_index@),
{
    let mut missing: Vec<String> = Vec::new();
    let mut i: usize = 0;
    let ghost pairs = old_index.pairs();
    while i < old_index.len()
        invariant
            i <= pairs.len(),
            pairs == old_index.pairs(),
            old_index.wf(),
            new_index.wf(),
            strictly_ascending(texts(missing@)),
            forall|path: Seq<char>| #[trigger]
                texts(missing@).contains(path) <==> exists|k: int|
                    0 <= k < i && (#[trigger] pairs[k]).0 == path && !new_index@.dom().contains(
                        pairs[k].1,
                    ),
        decreases pairs.len() - i,
    {
        let ghost before = texts(missing@);
        if !new_index.contains_key(old_index.value_at(i).as_str()) {
            missing.push(old_index.key_at(i).clone());
            proof {
                let after = texts(missing@);
                let path = pairs[i as int].0;
                assert(after =~= before.push(path));
                assert forall|a: int, b: int| 0 <= a < b < after.len() implies
                    text_less(#[trigger] after[a], #[trigger] after[b]) by {
                    if b == before.len() {
                        assert(before.contains(before[a]));
                        let k = choose|k: int|
                            0 <= k < i && (#[trigger] pairs[k]).0 == before[a]
                                && !new_index@.dom().contains(pairs[k].1);
                        assert(text_less(
                            old_index.keys()[k],
                            old_index.keys()[i as int],
                        ));
                    } else {
                        assert(text_less(before[a], before[b]));
                    }
                }
                assert forall|p: Seq<char>| #[trigger]
                    after.contains(p) <==> exists|k: int|
                        0 <= k < i + 1 && (#[trigger] pairs[k]).0 == p
                            && !new_index@.dom().contains(pairs[k].1) by {
                    if after.contains(p) {
                        let a = choose|a: int| 0 <= a < after.len() && after[a] == p;
                        if a < before.len() {
                            assert(before[a] == p);
                            assert(before.contains(p));
                        } else {
                            assert(pairs[i as int].0 == p);
                        }
                    }
                    if exists|k: int|
                        0 <= k < i + 1 && (#[trigger] pairs[k]).0 == p
                            && !new_index@.dom().contains(pairs[k].1) {
                        let k = choose|k: int|
                            0 <= k < i + 1 && (#[trigger] pairs[k]).0 == p
                                && !new_index@.dom().contains(pairs[k].1);
                        if k < i {
                            assert(before.contains(p));
                            let a = choose|a: int| 0 <= a < before.len() && before[a] == p;
                            assert(after[a] == p);
                        } else {
                            assert(after[before.len() as int] == p);
                        }
                    }
                }
            }
        } else {
            proof {
                assert forall|p: Seq<char>| #[trigger]
                    before.contains(p) <==> exists|k: int|
                        0 <= k < i + 1 && (#[trigger] pairs[k]).0 == p
                            && !new_index@.dom().contains(pairs[k].1) by {
                    if exists|k: int|
                        0 <= k < i + 1 && (#[trigger] pairs[k]).0 == p
                            && !new_index@.dom().contains(pairs[k].1) {
                        let k = choose|k: int|
                            0 <= k < i + 1 && (#[trigger] pairs[k]).0 == p
                                && !new_index@.dom().contains(pairs[k].1);
                        assert(k < i);
                    }
                }
            }
        }
        i = i + 1;
    }
    proof {
        old_index.lemma_pairs_are_entries();
        let list = texts(missing@);
        assert forall|path: Seq<char>| #[trigger]
            list.contains(path) <==> old_index@.dom().contains(path)
                && !new_index@.dom().contains(old_index@[path]) by {
            if list.contains(path) {
                let k = choose|k: int|
                    0 <= k < i && (#[trigger] pairs[k]).0 == path && !new_index@.dom().contains(
                        pairs[k].1,
                    );
                assert(old_index@.dom().contains(pairs[k].0));
            }
            if old_index@.dom().contains(path) && !new_index@.dom().contains(old_index@[path]) {
                let k = choose|k: int| 0 <= k < pairs.len() && (#[trigger] pairs[k]).0 == path;
                assert(old_index@[pairs[k].0] == pairs[k].1);
            }
        }
    }
    missing
}

/// Lists the files of the old tree whose content the new tree lacks.
///
/// A file of the old tree is listed exactly if no file of the new tree has
/// its digest, whatever the new file is called and wherever it lies. The
/// paths come in ascending order, each once.
pub fn find_missing_files(old_files: &Vec<FileDigest>, new_files: &Vec<FileDigest>) -> (missing:
    Vec<String>)
    ensures
        is_missing_list(
            texts(missing@),
            old_index_of(views(old_files@)),
            new_index_of(views(new_files@)),
        ),
{
    let old_index = build_old_index(old_files);
    let new_index = build_new_index(new_files);
    reconcile(&old_index, &new_index)
}

} // verus!
