//! A map keyed by [`Label`], stored as a vector of pairs kept strictly
//! ascending in the label order.
//!
//! The representation makes iteration order a function of the contents
//! alone: walking the entries visits the keys in the natural label order,
//! so every traversal of the graph's maps is deterministic.

use vstd::prelude::*;

use crate::label::Label;
use core::cmp::Ordering;

verus! {

/// The mathematical contents of a sequence of key/value pairs; a later pair
/// with the same key wins, as with repeated insertion.
pub open spec fn pairs_to_map<V>(s: Seq<(Label, V)>) -> Map<Label, V>
    decreases s.len(),
{
    if s.len() == 0 {
        Map::empty()
    } else {
        pairs_to_map(s.drop_last()).insert(s.last().0, s.last().1)
    }
}

/// No key occurs twice in the pair sequence.
pub open spec fn distinct_keys<V>(s: Seq<(Label, V)>) -> bool {
    forall|i: int, j: int|
        0 <= i < j < s.len() ==> (#[trigger] s[i]).0 != (#[trigger] s[j]).0
}

/// A key of the map occurs in the pair sequence and vice versa.
pub proof fn lemma_pairs_to_map_contains<V>(s: Seq<(Label, V)>, k: Label)
    ensures
        pairs_to_map(s).dom().contains(k) <==> exists|i: int|
            0 <= i < s.len() && (#[trigger] s[i]).0 == k,
    decreases s.len(),
{
    if s.len() > 0 {
        lemma_pairs_to_map_contains(s.drop_last(), k);
        if s.last().0 == k {
            assert(s[s.len() - 1].0 == k);
        } else if pairs_to_map(s).dom().contains(k) {
            let i = choose|i: int| 0 <= i < s.drop_last().len() && (#[trigger] s.drop_last()[i]).0 == k;
            assert(s[i].0 == k);
        } else {
            assert forall|i: int| 0 <= i < s.len() implies (#[trigger] s[i]).0 != k by {
                if i < s.len() - 1 {
                    assert(s.drop_last()[i].0 != k);
                }
            }
        }
    }
}

/// With distinct keys, the map sends each listed key to its listed value.
pub proof fn lemma_pairs_to_map_index<V>(s: Seq<(Label, V)>, i: int)
    requires
        distinct_keys(s),
        0 <= i < s.len(),
    ensures
        pairs_to_map(s).dom().contains(s[i].0),
        pairs_to_map(s)[s[i].0] == s[i].1,
    decreases s.len(),
{
    if i == s.len() - 1 {
    } else {
        assert(distinct_keys(s.drop_last())) by {
            assert forall|x: int, y: int|
                0 <= x < y < s.drop_last().len() implies (#[trigger] s.drop_last()[x]).0
                != (#[trigger] s.drop_last()[y]).0 by {
                assert(s[x].0 != s[y].0);
            }
        }
        assert(s.drop_last()[i] == s[i]);
        lemma_pairs_to_map_index(s.drop_last(), i);
        assert(s[i].0 != s.last().0);
    }
}

/// Appending a pair is insertion.
pub proof fn lemma_pairs_to_map_push<V>(s: Seq<(Label, V)>, k: Label, v: V)
    ensures
        pairs_to_map(s.push((k, v))) == pairs_to_map(s).insert(k, v),
{
    assert(s.push((k, v)).drop_last() =~= s);
    assert(s.push((k, v)).last() == (k, v));
}

/// Overwriting the pair that holds a key is insertion for that key.
pub proof fn lemma_pairs_to_map_update<V>(s: Seq<(Label, V)>, i: int, v: V)
    requires
        distinct_keys(s),
        0 <= i < s.len(),
    ensures
        pairs_to_map(s.update(i, (s[i].0, v))) =~= pairs_to_map(s).insert(s[i].0, v),
    decreases s.len(),
{
    let k = s[i].0;
    let t = s.update(i, (k, v));
    if i == s.len() - 1 {
        assert(t.drop_last() =~= s.drop_last());
        assert(t.last() == (k, v));
    } else {
        assert(distinct_keys(s.drop_last())) by {
            assert forall|x: int, y: int|
                0 <= x < y < s.drop_last().len() implies (#[trigger] s.drop_last()[x]).0
                != (#[trigger] s.drop_last()[y]).0 by {
                assert(s[x].0 != s[y].0);
            }
        }
        assert(s.drop_last()[i] == s[i]);
        lemma_pairs_to_map_update(s.drop_last(), i, v);
        assert(t.drop_last() =~= s.drop_last().update(i, (k, v)));
        assert(t.last() == s.last());
        // the outer pair's key differs from k, so the two insertions commute
        assert(s.last().0 != k);
    }
}

/// Placing a pair with a fresh key at position `i` is insertion.
pub proof fn lemma_pairs_to_map_insert_at<V>(s: Seq<(Label, V)>, i: int, k: Label, v: V)
    requires
        0 <= i <= s.len(),
        forall|j: int| 0 <= j < s.len() ==> (#[trigger] s[j]).0 != k,
    ensures
        pairs_to_map(s.insert(i, (k, v))) =~= pairs_to_map(s).insert(k, v),
    decreases s.len(),
{
    let t = s.insert(i, (k, v));
    if i == s.len() {
        assert(t =~= s.push((k, v)));
        lemma_pairs_to_map_push(s, k, v);
    } else {
        assert(t.drop_last() =~= s.drop_last().insert(i, (k, v)));
        assert(t.last() == s.last());
        assert forall|j: int| 0 <= j < s.drop_last().len() implies (#[trigger] s.drop_last()[j]).0
            != k by {
            assert(s[j].0 != k);
        }
        lemma_pairs_to_map_insert_at(s.drop_last(), i, k, v);
        assert(s.last().0 != k);
    }
}

/// Removing the pair that holds a key is removal for that key.
pub proof fn lemma_pairs_to_map_remove_at<V>(s: Seq<(Label, V)>, i: int)
    requires
        distinct_keys(s),
        0 <= i < s.len(),
    ensures
        pairs_to_map(s.remove(i)) =~= pairs_to_map(s).remove(s[i].0),
    decreases s.len(),
{
    let k = s[i].0;
    let t = s.remove(i);
    if i == s.len() - 1 {
        assert(t =~= s.drop_last());
        lemma_pairs_to_map_contains(s.drop_last(), k);
        assert forall|j: int| 0 <= j < s.drop_last().len() implies (#[trigger] s.drop_last()[j]).0
            != k by {
            assert(s[j].0 != k);
        }
        assert(!pairs_to_map(s.drop_last()).dom().contains(k));
    } else {
        assert(distinct_keys(s.drop_last())) by {
            assert forall|x: int, y: int|
                0 <= x < y < s.drop_last().len() implies (#[trigger] s.drop_last()[x]).0
                != (#[trigger] s.drop_last()[y]).0 by {
                assert(s[x].0 != s[y].0);
            }
        }
        assert(s.drop_last()[i] == s[i]);
        lemma_pairs_to_map_remove_at(s.drop_last(), i);
        assert(t.drop_last() =~= s.drop_last().remove(i));
        assert(t.last() == s.last());
        assert(s.last().0 != k);
    }
}

/// A finite map from [`Label`] to `V`, its entries sorted strictly
/// ascending by [`Label::before`].
#[derive(Debug, Clone, PartialEq, Eq)]
pub struct LabelMap<V> {
    pub entries: Vec<(Label, V)>,
}

impl<V> View for LabelMap<V> {
    type V = Map<Label, V>;

    open spec fn view(&self) -> Map<Label, V> {
        pairs_to_map(self.entries@)
    }
}

impl<V> LabelMap<V> {
    /// The stored pair sequence; iteration visits it front to back.
    pub open spec fn entries_seq(self) -> Seq<(Label, V)> {
        self.entries@
    }

    /// The keys in iteration order.
    pub open spec fn key_seq(self) -> Seq<Label> {
        Seq::new(self.entries@.len(), |i: int| self.entries@[i].0)
    }

    /// The entries are strictly ascending in the label order.
    pub open spec fn wf(self) -> bool {
        forall|i: int, j: int|
            0 <= i < j < self.entries@.len() ==> (#[trigger] self.entries@[i]).0.before(
                (#[trigger] self.entries@[j]).0,
            )
    }

    /// Strictly ascending keys are distinct keys.
    pub proof fn lemma_wf_distinct(self)
        requires
            self.wf(),
        ensures
            distinct_keys(self.entries@),
    {
        assert forall|i: int, j: int|
            0 <= i < j < self.entries@.len() implies (#[trigger] self.entries@[i]).0
            != (#[trigger] self.entries@[j]).0 by {
            assert(self.entries@[i].0.before(self.entries@[j].0));
        }
    }

    /// A key is in the map exactly when some entry holds it.
    pub proof fn lemma_contains(self, k: Label)
        ensures
            self@.dom().contains(k) <==> exists|i: int|
                0 <= i < self.entries@.len() && (#[trigger] self.entries@[i]).0 == k,
    {
        lemma_pairs_to_map_contains(self.entries@, k);
    }

    /// Each entry gives the map's value at its key.
    pub proof fn lemma_index(self, i: int)
        requires
            self.wf(),
            0 <= i < self.entries@.len(),
        ensures
            self@.dom().contains(self.entries@[i].0),
            self@[self.entries@[i].0] == self.entries@[i].1,
    {
        self.lemma_wf_distinct();
        lemma_pairs_to_map_index(self.entries@, i);
    }

    /// Creates an empty map.
    pub fn new() -> (r: Self)
        ensures
            r@ == Map::<Label, V>::empty(),
            r.wf(),
            r.entries_seq() == Seq::<(Label, V)>::empty(),
    {
        LabelMap { entries: Vec::new() }
    }

    /// The number of entries.
    pub fn len(&self) -> (n: usize)
        ensures
            n == self.entries_seq().len(),
    {
        self.entries.len()
    }

    /// The entry at a position of the iteration order.
    pub fn entry_at(&self, i: usize) -> (r: &(Label, V))
        requires
            i < self.entries_seq().len(),
        ensures
            *r == self.entries_seq()[i as int],
    {
        &self.entries[i]
    }

    /// Looks a key up.
    pub fn get(&self, k: &Label) -> (r: Option<&V>)
        requires
            self.wf(),
        ensures
            match r {
                Some(v) => self@.dom().contains(*k) && *v == self@[*k],
                None => !self@.dom().contains(*k),
            },
    {
        proof {
            self.lemma_contains(*k);
        }
        let n = self.entries.len();
        for idx in 0..n
            invariant
                n == self.entries@.len(),
                self.wf(),
                forall|j: int| 0 <= j < idx ==> (#[trigger] self.entries@[j]).0 != *k,
        {
            if self.entries[idx].0 == *k {
                proof {
                    self.lemma_index(idx as int);
                }
                return Some(&self.entries[idx].1);
            }
        }
        None
    }

    /// Whether a key is present.
    pub fn contains_key(&self, k: &Label) -> (r: bool)
        requires
            self.wf(),
        ensures
            r == self@.dom().contains(*k),
    {
        self.get(k).is_some()
    }

    /// Inserts a pair, replacing any entry with the same key and keeping the
    /// entries sorted.
    pub fn insert(&mut self, k: Label, v: V)
        requires
            old(self).wf(),
        ensures
            final(self).wf(),
            final(self)@ == old(self)@.insert(k, v),
    {
        let ghost s = self.entries@;
        proof {
            self.lemma_wf_distinct();
        }
        let n = self.entries.len();
        let mut idx: usize = 0;
        loop
            invariant
                self.wf(),
                self.entries@ == s,
                old(self).entries@ == s,
                distinct_keys(s),
                n == s.len(),
                idx <= n,
                forall|j: int| 0 <= j < idx ==> (#[trigger] s[j]).0.before(k),
            ensures
                self.entries@ == s,
                idx <= n,
                forall|j: int| 0 <= j < idx ==> (#[trigger] s[j]).0.before(k),
                idx < n ==> !s[idx as int].0.before(k) && s[idx as int].0 != k,
            decreases n - idx,
        {
            if idx == n {
                break;
            }
            match self.entries[idx].0.cmp_inner(&k) {
                Ordering::Less => {
                    idx = idx + 1;
                },
                Ordering::Equal => {
                    self.entries.set(idx, (k, v));
                    proof {
                        assert(s[idx as int].0 == k);
                        lemma_pairs_to_map_update(s, idx as int, v);
                        assert(self.entries@ =~= s.update(idx as int, (k, v)));
                        assert forall|x: int, y: int|
                            0 <= x < y < self.entries@.len() implies (#[trigger] self.entries@[x]).0.before(
                            (#[trigger] self.entries@[y]).0,
                        ) by {
                            assert(s[x].0.before(s[y].0));
                        }
                    }
                    return ;
                },
                Ordering::Greater => {
                    break;
                },
            }
        }
        // every key below idx is before k; the key at idx, if any, is after k
        self.entries.insert(idx, (k, v));
        proof {
            assert forall|j: int| 0 <= j < s.len() implies (#[trigger] s[j]).0 != k by {
                if j < idx {
                    assert(s[j].0.before(k));
                } else if j == idx {
                } else if idx < s.len() {
                    assert(s[idx as int].0.before(s[j].0));
                }
            }
            lemma_pairs_to_map_insert_at(s, idx as int, k, v);
            assert(self.entries@ =~= s.insert(idx as int, (k, v)));
            let t = self.entries@;
            assert forall|x: int, y: int|
                0 <= x < y < t.len() implies (#[trigger] t[x]).0.before((#[trigger] t[y]).0) by {
                if x < idx && y < idx {
                    assert(s[x].0.before(s[y].0));
                } else if x < idx && y == idx {
                    assert(s[x].0.before(k));
                } else if x < idx && y > idx {
                    assert(s[x].0.before(s[y - 1].0));
                } else if x == idx && y > idx {
                    assert(!s[idx as int].0.before(k) && s[idx as int].0 != k);
                    assert(k.before(s[idx as int].0));
                    if y - 1 > idx {
                        assert(s[idx as int].0.before(s[y - 1].0));
                    }
                } else {
                    assert(s[x - 1].0.before(s[y - 1].0));
                }
            }
        }
    }

    /// Removes a key, if present, keeping the entries sorted.
    pub fn remove(&mut self, k: &Label)
        requires
            old(self).wf(),
        ensures
            final(self).wf(),
            final(self)@ == old(self)@.remove(*k),
    {
        let ghost s = self.entries@;
        proof {
            self.lemma_wf_distinct();
            self.lemma_contains(*k);
        }
        let n = self.entries.len();
        for idx in 0..n
            invariant
                self.entries@ == s,
                old(self).entries@ == s,
                self.wf(),
                distinct_keys(s),
                n == s.len(),
                forall|j: int| 0 <= j < idx ==> (#[trigger] s[j]).0 != *k,
        {
            if self.entries[idx].0 == *k {
                self.entries.remove(idx);
                proof {
                    lemma_pairs_to_map_remove_at(s, idx as int);
                    assert(self.entries@ =~= s.remove(idx as int));
                    let t = self.entries@;
                    assert forall|x: int, y: int|
                        0 <= x < y < t.len() implies (#[trigger] t[x]).0.before(
                        (#[trigger] t[y]).0,
                    ) by {
                        let sx = if x < idx { x } else { x + 1 };
                        let sy = if y < idx { y } else { y + 1 };
                        assert(s[sx].0.before(s[sy].0));
                    }
                }
                return ;
            }
        }
        proof {
            lemma_pairs_to_map_contains(s, *k);
            assert(!self@.dom().contains(*k));
            assert(self@ =~= self@.remove(*k));
        }
    }
}

} // verus!
