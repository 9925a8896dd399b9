//! A map from strings to strings that keeps its keys in ascending order.
//!
//! The same type serves as the index of the old tree (from path to digest)
//! and as the index of the new tree (from digest to path).

use crate::order::{
    lemma_text_less_irreflexive, lemma_text_less_total, lemma_text_less_transitive,
    strictly_ascending, string_less, text_less,
};
use vstd::prelude::*;

verus! {

/// What a sequence of pairs of strings stands for in contracts.
pub open spec fn pair_views(entries: Seq<(String, String)>) -> Seq<(Seq<char>, Seq<char>)> {
    Seq::new(entries.len(), |i: int| (entries[i].0@, entries[i].1@))
}

/// The keys of a sequence of key-value pairs, in the same order.
pub open spec fn keys_of(pairs: Seq<(Seq<char>, Seq<char>)>) -> Seq<Seq<char>> {
    Seq::new(pairs.len(), |i: int| pairs[i].0)
}

/// A position at which `key` occurs as a key in `pairs`, if there is one.
pub open spec fn position_of(pairs: Seq<(Seq<char>, Seq<char>)>, key: Seq<char>) -> int {
    choose|i: int| 0 <= i < pairs.len() && (#[trigger] pairs[i]).0 == key
}

/// The map that holds each key of `pairs` with a value it is paired with.
/// Where no key occurs twice, that value is the one it stands beside.
pub open spec fn pairs_map(pairs: Seq<(Seq<char>, Seq<char>)>) -> Map<Seq<char>, Seq<char>> {
    Map::new(
        |k: Seq<char>| exists|i: int| 0 <= i < pairs.len() && (#[trigger] pairs[i]).0 == k,
        |k: Seq<char>| pairs[position_of(pairs, k)].1,
    )
}

/// The map that results from inserting `pairs` one after another into an
/// empty map: where a key occurs more than once, its last value stays.
pub open spec fn index_of(pairs: Seq<(Seq<char>, Seq<char>)>) -> Map<Seq<char>, Seq<char>>
    decreases pairs.len(),
{
    if pairs.len() == 0 {
        Map::empty()
    } else {
        index_of(pairs.drop_last()).insert(pairs.last().0, pairs.last().1)
    }
}

/// The keys of `index_of(pairs)` are the keys that occur in `pairs`, and each
/// is mapped to the value of its last occurrence.
pub proof fn lemma_index_of(pairs: Seq<(Seq<char>, Seq<char>)>)
    ensures
        forall|k: Seq<char>|
            index_of(pairs).dom().contains(k) <==> exists|i: int|
                0 <= i < pairs.len() && (#[trigger] pairs[i]).0 == k,
        forall|i: int|
            0 <= i < pairs.len() && (forall|j: int|
                i < j < pairs.len() ==> (#[trigger] pairs[j]).0 != pairs[i].0) ==> index_of(
                pairs,
            )[(#[trigger] pairs[i]).0] == pairs[i].1,
    decreases pairs.len(),
{
    if pairs.len() > 0 {
        let front = pairs.drop_last();
        let last = pairs.last();
        lemma_index_of(front);
        assert forall|k: Seq<char>|
            index_of(pairs).dom().contains(k) <==> exists|i: int|
                0 <= i < pairs.len() && (#[trigger] pairs[i]).0 == k by {
            assert(index_of(pairs) == index_of(front).insert(last.0, last.1));
            if index_of(pairs).dom().contains(k) {
                if k == last.0 {
                    assert(pairs[pairs.len() - 1].0 == k);
                } else {
                    assert(index_of(front).dom().contains(k));
                    let i = choose|i: int| 0 <= i < front.len() && (#[trigger] front[i]).0 == k;
                    assert(pairs[i].0 == k);
                }
            }
            if exists|i: int| 0 <= i < pairs.len() && (#[trigger] pairs[i]).0 == k {
                let i = choose|i: int| 0 <= i < pairs.len() && (#[trigger] pairs[i]).0 == k;
                if i < pairs.len() - 1 {
                    assert(front[i].0 == k);
                    assert(index_of(front).dom().contains(k));
                }
            }
        }
        assert forall|i: int|
            0 <= i < pairs.len() && (forall|j: int|
                i < j < pairs.len() ==> (#[trigger] pairs[j]).0 != pairs[i].0) implies index_of(
            pairs,
        )[(#[trigger] pairs[i]).0] == pairs[i].1 by {
            assert(index_of(pairs) == index_of(front).insert(last.0, last.1));
            if i < pairs.len() - 1 {
                assert(pairs[pairs.len() - 1].0 != pairs[i].0);
                assert(front[i] == pairs[i]);
                assert forall|j: int| i < j < front.len() implies (#[trigger] front[j]).0
                    != front[i].0 by {
                    assert(pairs[j].0 != pairs[i].0);
                }
            }
        }
    }
}

/// Entering one sequence of pairs after another gives the entries of the
/// first, overridden by those of the second.
pub proof fn lemma_index_of_concat(
    first: Seq<(Seq<char>, Seq<char>)>,
    second: Seq<(Seq<char>, Seq<char>)>,
)
    ensures
        index_of(first + second) == index_of(first).union_prefer_right(index_of(second)),
    decreases second.len(),
{
    if second.len() == 0 {
        assert(first + second =~= first);
        assert(index_of(first).union_prefer_right(index_of(second)) =~= index_of(first));
    } else {
        let all = first + second;
        assert(all.drop_last() =~= first + second.drop_last());
        assert(all.last() == second.last());
        lemma_index_of_concat(first, second.drop_last());
        assert(index_of(all) =~= index_of(first).union_prefer_right(index_of(second)));
    }
}

/// Every key comes strictly after all later ones.
spec fn strictly_descending(pairs: Seq<(Seq<char>, Seq<char>)>) -> bool {
    forall|i: int, j: int|
        0 <= i < j < pairs.len() ==> text_less((#[trigger] pairs[j]).0, (#[trigger] pairs[i]).0)
}

/// `entry` is an entry of the map.
spec fn is_entry(map: Map<Seq<char>, Seq<char>>, entry: (Seq<char>, Seq<char>)) -> bool {
    map.dom().contains(entry.0) && map[entry.0] == entry.1
}

/// `key` is the key of one of `pairs`.
spec fn has_key(pairs: Seq<(Seq<char>, Seq<char>)>, key: Seq<char>) -> bool {
    exists|i: int| 0 <= i < pairs.len() && (#[trigger] pairs[i]).0 == key
}

/// A map from strings to strings, held as pairs in ascending order of key.
#[derive(Clone, Debug)]
pub struct Index {
    entries: Vec<(String, String)>,
}

impl View for Index {
    type V = Map<Seq<char>, Seq<char>>;

    /// The map that the index stands for.
    open spec fn view(&self) -> Map<Seq<char>, Seq<char>> {
        pairs_map(self.pairs())
    }
}

impl Index {
    /// The pairs of the index in the order in which they are held.
    pub closed spec fn pairs(&self) -> Seq<(Seq<char>, Seq<char>)> {
        pair_views(self.entries@)
    }

    /// The keys of the index in the order in which they are held.
    pub open spec fn keys(&self) -> Seq<Seq<char>> {
        keys_of(self.pairs())
    }

    /// The invariant of the type: the keys are strictly ascending, so no key
    /// is held twice.
    pub open spec fn wf(&self) -> bool {
        strictly_ascending(self.keys())
    }

    /// In a well-formed index every pair is an entry of the map, and the map
    /// has no other entries.
    pub proof fn lemma_pairs_are_entries(&self)
        requires
            self.wf(),
        ensures
            forall|i: int|
                0 <= i < self.pairs().len() ==> self@.dom().contains(
                    (#[trigger] self.pairs()[i]).0,
                ) && self@[self.pairs()[i].0] == self.pairs()[i].1,
            forall|k: Seq<char>|
                self@.dom().contains(k) ==> exists|i: int|
                    0 <= i < self.pairs().len() && (#[trigger] self.pairs()[i]).0 == k,
    {
        lemma_distinct_pairs_map(self.pairs());
    }

    /// An index without entries.
    pub fn new() -> (index: Index)
        ensures
            index.wf(),
            index@ == Map::<Seq<char>, Seq<char>>::empty(),
            index.pairs().len() == 0,
    {
        let index = Index { entries: Vec::new() };
        assert(index@ =~= Map::<Seq<char>, Seq<char>>::empty());
        index
    }

    /// The index that results from entering `pairs` one after another: where
    /// a key occurs more than once, its last value stays.
    pub fn from_pairs(pairs: Vec<(String, String)>) -> (index: Index)
        ensures
            index.wf(),
            index@ == index_of(pair_views(pairs@)),
        decreases pairs.len(),
    {
        let ghost all = pair_views(pairs@);
        if pairs.len() <= 1 {
            let index = Index { entries: pairs };
            proof {
                lemma_index_of(all);
                lemma_distinct_pairs_map(all);
                assert(index@ =~= index_of(all));
            }
            index
        } else {
            let mut front = pairs;
            let mid: usize = front.len() / 2;
            let back = front.split_off(mid);
            proof {
                assert(all =~= pair_views(front@) + pair_views(back@));
                lemma_index_of_concat(pair_views(front@), pair_views(back@));
            }
            let earlier = Index::from_pairs(front);
            let later = Index::from_pairs(back);
            Index::merge(earlier, later)
        }
    }

    /// Brings two indexes together. Where both hold a key, the value of
    /// `later` stays.
    pub fn merge(earlier: Index, later: Index) -> (merged: Index)
        requires
            earlier.wf(),
            later.wf(),
        ensures
            merged.wf(),
            merged@ == earlier@.union_prefer_right(later@),
    {
        let ghost left = earlier.pairs();
        let ghost right = later.pairs();
        let ghost union = earlier@.union_prefer_right(later@);
        let mut a = earlier.entries;
        let mut b = later.entries;
        // The merged entries, the greatest key first.
        let mut back: Vec<(String, String)> = Vec::new();
        proof {
            lemma_distinct_pairs_map(left);
            lemma_distinct_pairs_map(right);
            assert(pair_views(a@) =~= left.take(a.len() as int));
            assert(pair_views(b@) =~= right.take(b.len() as int));
        }
        while a.len() > 0 || b.len() > 0
            invariant
                a.len() <= left.len(),
                b.len() <= right.len(),
                pair_views(a@) == left.take(a.len() as int),
                pair_views(b@) == right.take(b.len() as int),
                strictly_ascending(keys_of(left)),
                strictly_ascending(keys_of(right)),
                union == pairs_map(left).union_prefer_right(pairs_map(right)),
                strictly_descending(pair_views(back@)),
                forall|i: int, j: int|
                    0 <= i < back.len() && 0 <= j < a.len() ==> text_less(
                        (#[trigger] left[j]).0,
                        (#[trigger] pair_views(back@)[i]).0,
                    ),
                forall|i: int, j: int|
                    0 <= i < back.len() && 0 <= j < b.len() ==> text_less(
                        (#[trigger] right[j]).0,
                        (#[trigger] pair_views(back@)[i]).0,
                    ),
                forall|i: int|
                    0 <= i < back.len() ==> is_entry(union, #[trigger] pair_views(back@)[i]),
                forall|j: int|
                    a.len() <= j < left.len() ==> has_key(
                        pair_views(back@),
                        (#[trigger] left[j]).0,
                    ),
                forall|j: int|
                    b.len() <= j < right.len() ==> has_key(
                        pair_views(back@),
                        (#[trigger] right[j]).0,
                    ),
            decreases a.len() + b.len(),
        {
            let ghost done = pair_views(back@);
            let ghost na = a.len() as int;
            let ghost nb = b.len() as int;
            let take_a = a.len() > 0 && (b.len() == 0 || string_less(
                b[b.len() - 1].0.as_str(),
                a[a.len() - 1].0.as_str(),
            ));
            let take_b = b.len() > 0 && (a.len() == 0 || string_less(
                a[a.len() - 1].0.as_str(),
                b[b.len() - 1].0.as_str(),
            ));
            proof {
                lemma_distinct_pairs_map(left);
                lemma_distinct_pairs_map(right);
                if na > 0 {
                    assert(pair_views(a@)[na - 1] == left[na - 1]);
                    lemma_text_less_irreflexive(left[na - 1].0);
                }
                if nb > 0 {
                    assert(pair_views(b@)[nb - 1] == right[nb - 1]);
                    lemma_text_less_irreflexive(right[nb - 1].0);
                }
                if na > 0 && nb > 0 {
                    lemma_text_less_total(left[na - 1].0, right[nb - 1].0);
                    if take_a && take_b {
                        lemma_text_less_transitive(
                            left[na - 1].0,
                            right[nb - 1].0,
                            left[na - 1].0,
                        );
                    }
                }
            }
            if take_a {
                let ghost entry = left[na - 1];
                match a.pop() {
                    Some(pair) => {
                        back.push(pair);
                    },
                    None => {},
                }
                proof {
                    let now = pair_views(back@);
                    assert(now =~= done.push(entry));
                    assert(pair_views(a@) =~= left.take(na - 1));
                    // The key is no key of the later index.
                    assert(!pairs_map(right).dom().contains(entry.0)) by {
                        if pairs_map(right).dom().contains(entry.0) {
                            let j = choose|j: int|
                                0 <= j < right.len() && (#[trigger] right[j]).0 == entry.0;
                            lemma_text_less_irreflexive(entry.0);
                            if j < nb {
                                assert(text_less(keys_of(right)[j], keys_of(right)[nb - 1]) || j
                                    == nb - 1);
                                if j < nb - 1 {
                                    lemma_text_less_transitive(
                                        right[j].0,
                                        right[nb - 1].0,
                                        entry.0,
                                    );
                                }
                            } else {
                                assert(has_key(done, right[j].0));
                                let i = choose|i: int|
                                    0 <= i < done.len() && (#[trigger] done[i]).0 == right[j].0;
                                assert(text_less(left[na - 1].0, done[i].0));
                            }
                        }
                    }
                    assert(is_entry(union, entry));
                    lemma_keys_below(left, na, entry.0);
                    lemma_keys_below(right, nb, entry.0);
                    lemma_merge_step(left, right, done, entry, na - 1, nb);
                }
            } else if take_b {
                let ghost entry = right[nb - 1];
                match b.pop() {
                    Some(pair) => {
                        back.push(pair);
                    },
                    None => {},
                }
                proof {
                    let now = pair_views(back@);
                    assert(now =~= done.push(entry));
                    assert(pair_views(b@) =~= right.take(nb - 1));
                    assert(is_entry(union, entry));
                    lemma_keys_below(left, na, entry.0);
                    lemma_keys_below(right, nb, entry.0);
                    lemma_merge_step(left, right, done, entry, na, nb - 1);
                }
            } else {
                // Both hold the key: the earlier value is dropped.
                let ghost entry = right[nb - 1];
                let dropped = a.pop();
                match b.pop() {
                    Some(pair) => {
                        back.push(pair);
                    },
                    None => {},
                }
                proof {
                    let now = pair_views(back@);
                    assert(left[na - 1].0 == entry.0);
                    assert(now =~= done.push(entry));
                    assert(pair_views(a@) =~= left.take(na - 1));
                    assert(pair_views(b@) =~= right.take(nb - 1));
                    assert(is_entry(union, entry));
                    lemma_keys_below(left, na, entry.0);
                    lemma_keys_below(right, nb, entry.0);
                    lemma_merge_step(left, right, done, entry, na - 1, nb - 1);
                    assert(now[now.len() - 1] == entry);
                    assert(has_key(now, left[na - 1].0));
                }
            }
        }
        let ghost whole = pair_views(back@);
        let mut entries: Vec<(String, String)> = Vec::new();
        while back.len() > 0
            invariant
                back.len() <= whole.len(),
                pair_views(back@) == whole.take(back.len() as int),
                entries.len() + back.len() == whole.len(),
                forall|i: int|
                    0 <= i < entries.len() ==> #[trigger] pair_views(entries@)[i] == whole[whole.len()
                        - 1 - i],
            decreases back.len(),
        {
            let ghost before = pair_views(entries@);
            let ghost n = back.len() as int;
            assert(pair_views(back@)[n - 1] == whole[n - 1]);
            match back.pop() {
                Some(pair) => {
                    entries.push(pair);
                },
                None => {},
            }
            assert(pair_views(entries@) =~= before.push(whole[n - 1]));
            assert(pair_views(back@) =~= whole.take(n - 1));
        }
        let merged = Index { entries };
        proof {
            let result = merged.pairs();
            let n = whole.len() as int;
            assert forall|i: int, j: int| 0 <= i < j < result.len() implies text_less(
                #[trigger] keys_of(result)[i],
                #[trigger] keys_of(result)[j],
            ) by {
                assert(result[i] == whole[n - 1 - i]);
                assert(result[j] == whole[n - 1 - j]);
            }
            lemma_distinct_pairs_map(result);
            assert forall|k: Seq<char>| #[trigger]
                pairs_map(result).dom().contains(k) <==> union.dom().contains(k) by {
                if pairs_map(result).dom().contains(k) {
                    let i = choose|i: int| 0 <= i < result.len() && (#[trigger] result[i]).0 == k;
                    assert(result[i] == whole[n - 1 - i]);
                    assert(is_entry(union, whole[n - 1 - i]));
                }
                if union.dom().contains(k) {
                    if pairs_map(right).dom().contains(k) {
                        let j = choose|j: int| 0 <= j < right.len() && (#[trigger] right[j]).0 == k;
                        assert(has_key(whole, right[j].0));
                    } else {
                        let j = choose|j: int| 0 <= j < left.len() && (#[trigger] left[j]).0 == k;
                        assert(has_key(whole, left[j].0));
                    }
                    let i = choose|i: int| 0 <= i < whole.len() && (#[trigger] whole[i]).0 == k;
                    assert(result[n - 1 - i] == whole[n - 1 - (n - 1 - i)]);
                    assert(result[n - 1 - i].0 == k);
                }
            }
            assert forall|k: Seq<char>| #[trigger]
                pairs_map(result).dom().contains(k) implies pairs_map(result)[k] == union[k] by {
                let i = choose|i: int| 0 <= i < result.len() && (#[trigger] result[i]).0 == k;
                assert(result[i] == whole[n - 1 - i]);
                assert(is_entry(union, whole[n - 1 - i]));
            }
            assert(pairs_map(result) =~= union);
        }
        merged
    }

    /// The number of entries.
    pub fn len(&self) -> (n: usize)
        ensures
            n == self.pairs().len(),
    {
        self.entries.len()
    }

    /// The key at a position in ascending order.
    pub fn key_at(&self, i: usize) -> (key: &String)
        requires
            i < self.pairs().len(),
        ensures
            key@ == self.pairs()[i as int].0,
    {
        &self.entries[i].0
    }

    /// The value at a position in ascending order of key.
    pub fn value_at(&self, i: usize) -> (value: &String)
        requires
            i < self.pairs().len(),
        ensures
            value@ == self.pairs()[i as int].1,
    {
        &self.entries[i].1
    }

    /// The first position whose key does not come before `key`.
    fn lower_bound(&self, key: &str) -> (pos: usize)
        requires
            self.wf(),
        ensures
            pos <= self.pairs().len(),
            forall|i: int| 0 <= i < pos ==> text_less((#[trigger] self.pairs()[i]).0, key@),
            forall|i: int|
                pos <= i < self.pairs().len() ==> !text_less((#[trigger] self.pairs()[i]).0, key@),
    {
        let mut lo: usize = 0;
        let mut hi: usize = self.entries.len();
        while lo < hi
            invariant
                lo <= hi <= self.entries.len(),
                self.entries.len() == self.pairs().len(),
                self.wf(),
                forall|i: int| 0 <= i < lo ==> text_less((#[trigger] self.pairs()[i]).0, key@),
                forall|i: int|
                    hi <= i < self.pairs().len() ==> !text_less(
                        (#[trigger] self.pairs()[i]).0,
                        key@,
                    ),
            decreases hi - lo,
        {
            let mid: usize = lo + (hi - lo) / 2;
            let ghost mid_key = self.pairs()[mid as int].0;
            if string_less(self.entries[mid].0.as_str(), key) {
                assert forall|i: int| 0 <= i < mid + 1 implies text_less(
                    (#[trigger] self.pairs()[i]).0,
                    key@,
                ) by {
                    if i < mid {
                        assert(text_less(self.keys()[i], self.keys()[mid as int]));
                        lemma_text_less_transitive(self.pairs()[i].0, mid_key, key@);
                    }
                }
                lo = mid + 1;
            } else {
                assert forall|i: int| mid <= i < self.pairs().len() implies !text_less(
                    (#[trigger] self.pairs()[i]).0,
                    key@,
                ) by {
                    if i > mid && text_less(self.pairs()[i].0, key@) {
                        assert(text_less(self.keys()[mid as int], self.keys()[i]));
                        lemma_text_less_transitive(mid_key, self.pairs()[i].0, key@);
                    }
                }
                hi = mid;
            }
        }
        lo
    }

    /// Tells whether the index has an entry for `key`.
    pub fn contains_key(&self, key: &str) -> (found: bool)
        requires
            self.wf(),
        ensures
            found == self@.dom().contains(key@),
    {
        let pos: usize = self.lower_bound(key);
        let found = pos < self.entries.len() && !string_less(key, self.entries[pos].0.as_str());
        proof {
            self.lemma_pairs_are_entries();
            lemma_text_less_irreflexive(key@);
            if found {
                lemma_text_less_total(key@, self.pairs()[pos as int].0);
            }
            if self@.dom().contains(key@) {
                let i = choose|i: int|
                    0 <= i < self.pairs().len() && (#[trigger] self.pairs()[i]).0 == key@;
                assert(!(pos < i) || text_less(self.keys()[pos as int], self.keys()[i]));
            }
        }
        found
    }

    /// Enters `value` under `key`. A value that was held under the same key
    /// is replaced; every other entry stays as it was.
    pub fn insert(&mut self, key: String, value: String)
        requires
            old(self).wf(),
        ensures
            final(self).wf(),
            final(self)@ == old(self)@.insert(key@, value@),
    {
        let pos: usize = self.lower_bound(key.as_str());
        let ghost before = self.pairs();
        let ghost entry = (key@, value@);
        let replace = pos < self.entries.len() && !string_less(
            key.as_str(),
            self.entries[pos].0.as_str(),
        );
        proof {
            lemma_text_less_irreflexive(key@);
            if pos < before.len() {
                lemma_text_less_total(key@, before[pos as int].0);
            }
        }
        if replace {
            self.entries.set(pos, (key, value));
            assert(self.pairs() =~= before.update(pos as int, entry));
            assert(keys_of(self.pairs()) =~= keys_of(before));
        } else {
            self.entries.insert(pos, (key, value));
            assert(self.pairs() =~= before.insert(pos as int, entry));
            assert forall|i: int, j: int| 0 <= i < j < self.keys().len() implies text_less(
                #[trigger] self.keys()[i],
                #[trigger] self.keys()[j],
            ) by {
                let a = if i < pos { i } else { i - 1 };
                let b = if j < pos { j } else { j - 1 };
                if i != pos && j != pos {
                    assert(text_less(keys_of(before)[a], keys_of(before)[b]));
                } else if i == pos {
                    assert(!text_less(before[b].0, key@));
                    lemma_text_less_total(key@, before[b].0);
                    if before[b].0 == key@ {
                        if b > pos {
                            assert(text_less(keys_of(before)[pos as int], keys_of(before)[b]));
                        }
                    }
                } else {
                    assert(text_less(before[a].0, key@));
                }
            }
        }
        proof {
            let after = self.pairs();
            lemma_distinct_pairs_map(before);
            lemma_distinct_pairs_map(after);
            assert(after[pos as int] == entry);
            assert forall|k: Seq<char>| #[trigger]
                pairs_map(after).dom().contains(k) <==> pairs_map(before).insert(
                    key@,
                    value@,
                ).dom().contains(k) by {
                if pairs_map(after).dom().contains(k) && k != key@ {
                    let i = choose|i: int| 0 <= i < after.len() && (#[trigger] after[i]).0 == k;
                    if replace {
                        assert(before[i].0 == k);
                    } else {
                        let a = if i < pos { i } else { i - 1 };
                        assert(before[a].0 == k);
                    }
                }
                if pairs_map(before).dom().contains(k) && k != key@ {
                    let i = choose|i: int| 0 <= i < before.len() && (#[trigger] before[i]).0 == k;
                    if replace {
                        assert(after[i].0 == k);
                    } else {
                        let a = if i < pos { i } else { i + 1 };
                        assert(after[a].0 == k);
                    }
                }
            }
            assert forall|k: Seq<char>| #[trigger]
                pairs_map(after).dom().contains(k) implies pairs_map(after)[k] == pairs_map(
                before,
            ).insert(key@, value@)[k] by {
                let i = choose|i: int| 0 <= i < after.len() && (#[trigger] after[i]).0 == k;
                if k != key@ {
                    if replace {
                        assert(before[i] == after[i]);
                    } else {
                        let a = if i < pos { i } else { i - 1 };
                        assert(before[a] == after[i]);
                    }
                }
            }
            assert(pairs_map(after) =~= pairs_map(before).insert(key@, value@));
        }
    }
}

/// Where the keys of `pairs` are strictly ascending, `pairs_map(pairs)`
/// maps the key of every pair to the value of that pair.
proof fn lemma_distinct_pairs_map(pairs: Seq<(Seq<char>, Seq<char>)>)
    requires
        strictly_ascending(keys_of(pairs)),
    ensures
        forall|i: int|
            0 <= i < pairs.len() ==> pairs_map(pairs).dom().contains((#[trigger] pairs[i]).0)
                && pairs_map(pairs)[pairs[i].0] == pairs[i].1,
        forall|k: Seq<char>|
            pairs_map(pairs).dom().contains(k) ==> exists|i: int|
                0 <= i < pairs.len() && (#[trigger] pairs[i]).0 == k,
{
    assert forall|i: int| 0 <= i < pairs.len() implies pairs_map(pairs).dom().contains(
        (#[trigger] pairs[i]).0,
    ) && pairs_map(pairs)[pairs[i].0] == pairs[i].1 by {
        let k = pairs[i].0;
        assert(pairs_map(pairs).dom().contains(k));
        let c = position_of(pairs, k);
        lemma_text_less_irreflexive(k);
        if c < i {
            assert(text_less(keys_of(pairs)[c], keys_of(pairs)[i]));
        }
        if i < c {
            assert(text_less(keys_of(pairs)[i], keys_of(pairs)[c]));
        }
        assert(c == i);
    }
}

/// Where the key at position `n - 1` is `key` or comes before it, every key
/// before that position comes before `key`.
proof fn lemma_keys_below(pairs: Seq<(Seq<char>, Seq<char>)>, n: int, key: Seq<char>)
    requires
        strictly_ascending(keys_of(pairs)),
        0 <= n <= pairs.len(),
        n > 0 ==> pairs[n - 1].0 == key || text_less(pairs[n - 1].0, key),
    ensures
        forall|j: int| 0 <= j < n - 1 ==> text_less((#[trigger] pairs[j]).0, key),
{
    assert forall|j: int| 0 <= j < n - 1 implies text_less((#[trigger] pairs[j]).0, key) by {
        assert(text_less(keys_of(pairs)[j], keys_of(pairs)[n - 1]));
        if pairs[n - 1].0 != key {
            lemma_text_less_transitive(pairs[j].0, pairs[n - 1].0, key);
        }
    }
}

/// One step of a merge from the back keeps what the merge goes by: once
/// `entry`, whose key is the greatest that is left, has been put behind
/// `done`, the keys of `done` still descend and still come after every key
/// that is left, and every key that was taken is still a key of `done`.
proof fn lemma_merge_step(
    left: Seq<(Seq<char>, Seq<char>)>,
    right: Seq<(Seq<char>, Seq<char>)>,
    done: Seq<(Seq<char>, Seq<char>)>,
    entry: (Seq<char>, Seq<char>),
    na: int,
    nb: int,
)
    requires
        0 <= na <= left.len(),
        0 <= nb <= right.len(),
        strictly_ascending(keys_of(left)),
        strictly_ascending(keys_of(right)),
        strictly_descending(done),
        forall|i: int| 0 <= i < done.len() ==> text_less(entry.0, (#[trigger] done[i]).0),
        forall|j: int| 0 <= j < na ==> text_less((#[trigger] left[j]).0, entry.0),
        forall|j: int| 0 <= j < nb ==> text_less((#[trigger] right[j]).0, entry.0),
        forall|j: int|
            na <= j < left.len() ==> (#[trigger] left[j]).0 == entry.0 || has_key(done, left[j].0),
        forall|j: int|
            nb <= j < right.len() ==> (#[trigger] right[j]).0 == entry.0 || has_key(
                done,
                right[j].0,
            ),
    ensures
        strictly_descending(done.push(entry)),
        forall|i: int, j: int|
            0 <= i < done.len() + 1 && 0 <= j < na ==> text_less(
                (#[trigger] left[j]).0,
                (#[trigger] done.push(entry)[i]).0,
            ),
        forall|i: int, j: int|
            0 <= i < done.len() + 1 && 0 <= j < nb ==> text_less(
                (#[trigger] right[j]).0,
                (#[trigger] done.push(entry)[i]).0,
            ),
        forall|j: int| na <= j < left.len() ==> has_key(done.push(entry), (#[trigger] left[j]).0),
        forall|j: int|
            nb <= j < right.len() ==> has_key(done.push(entry), (#[trigger] right[j]).0),
{
    let now = done.push(entry);
    assert forall|i: int, j: int| 0 <= i < now.len() && 0 <= j < na implies text_less(
        (#[trigger] left[j]).0,
        (#[trigger] now[i]).0,
    ) by {
        if i < done.len() {
            assert(text_less(entry.0, done[i].0));
            lemma_text_less_transitive(left[j].0, entry.0, done[i].0);
        }
    }
    assert forall|i: int, j: int| 0 <= i < now.len() && 0 <= j < nb implies text_less(
        (#[trigger] right[j]).0,
        (#[trigger] now[i]).0,
    ) by {
        if i < done.len() {
            assert(text_less(entry.0, done[i].0));
            lemma_text_less_transitive(right[j].0, entry.0, done[i].0);
        }
    }
    assert forall|j: int| na <= j < left.len() implies has_key(now, (#[trigger] left[j]).0) by {
        if left[j].0 == entry.0 {
            assert(now[now.len() - 1].0 == left[j].0);
        } else {
            let i = choose|i: int| 0 <= i < done.len() && (#[trigger] done[i]).0 == left[j].0;
            assert(now[i].0 == left[j].0);
        }
    }
    assert forall|j: int| nb <= j < right.len() implies has_key(now, (#[trigger] right[j]).0) by {
        if right[j].0 == entry.0 {
            assert(now[now.len() - 1].0 == right[j].0);
        } else {
            let i = choose|i: int| 0 <= i < done.len() && (#[trigger] done[i]).0 == right[j].0;
            assert(now[i].0 == right[j].0);
        }
    }
    assert forall|i: int, j: int| 0 <= i < j < now.len() implies text_less(
        (#[trigger] now[j]).0,
        (#[trigger] now[i]).0,
    ) by {
        if j == done.len() {
            assert(text_less(entry.0, done[i].0));
        }
    }
}

} // verus!
