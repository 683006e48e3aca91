//! An insertion-ordered association map from terms to occurrence counts.
//!
//! Backed by a vector of entries with pairwise-distinct keys; viewed in
//! specifications as a `Map` from character sequences to counts.

use vstd::prelude::*;

use crate::chars::str_eq;

verus! {

/// Whether the keys of an entry sequence are pairwise distinct.
pub open spec fn distinct_keys(s: Seq<(Seq<char>, usize)>) -> bool {
    forall|i: int, j: int| 0 <= i < j < s.len() ==> (#[trigger] s[i]).0 != (#[trigger] s[j]).0
}

/// The map described by an entry sequence (later entries win, but with
/// distinct keys every entry is authoritative).
pub open spec fn assoc_map(s: Seq<(Seq<char>, usize)>) -> Map<Seq<char>, usize>
    decreases s.len(),
{
    if s.len() == 0 {
        Map::empty()
    } else {
        assoc_map(s.drop_last()).insert(s.last().0, s.last().1)
    }
}

pub proof fn lemma_assoc_contains(s: Seq<(Seq<char>, usize)>, k: Seq<char>)
    ensures
        assoc_map(s).contains_key(k) <==> exists|i: int| 0 <= i < s.len() && (#[trigger] s[i]).0
            == k,
    decreases s.len(),
{
    if s.len() > 0 {
        lemma_assoc_contains(s.drop_last(), k);
        if assoc_map(s).contains_key(k) {
            if s.last().0 == k {
                assert(s[s.len() - 1].0 == k);
            } else {
                let i = choose|i: int|
                    0 <= i < s.drop_last().len() && (#[trigger] s.drop_last()[i]).0 == k;
                assert(s[i].0 == k);
            }
        }
        if exists|i: int| 0 <= i < s.len() && (#[trigger] s[i]).0 == k {
            let i = choose|i: int| 0 <= i < s.len() && (#[trigger] s[i]).0 == k;
            if i < s.len() - 1 {
                assert(s.drop_last()[i].0 == k);
            }
        }
    }
}

pub proof fn lemma_assoc_index(s: Seq<(Seq<char>, usize)>, i: int)
    requires
        distinct_keys(s),
        0 <= i < s.len(),
    ensures
        assoc_map(s).contains_key(s[i].0),
        assoc_map(s)[s[i].0] == s[i].1,
    decreases s.len(),
{
    if i == s.len() - 1 {
    } else {
        assert(distinct_keys(s.drop_last()));
        assert(s.drop_last()[i] == s[i]);
        lemma_assoc_index(s.drop_last(), i);
        assert(s[i].0 != s.last().0);
    }
}

pub proof fn lemma_assoc_push(s: Seq<(Seq<char>, usize)>, e: (Seq<char>, usize))
    ensures
        assoc_map(s.push(e)) == assoc_map(s).insert(e.0, e.1),
{
    assert(s.push(e).drop_last() =~= s);
    assert(s.push(e).last() == e);
}

pub proof fn lemma_assoc_update(s: Seq<(Seq<char>, usize)>, i: int, v: usize)
    requires
        distinct_keys(s),
        0 <= i < s.len(),
    ensures
        assoc_map(s.update(i, (s[i].0, v))) == assoc_map(s).insert(s[i].0, v),
    decreases s.len(),
{
    let s2 = s.update(i, (s[i].0, v));
    if i == s.len() - 1 {
        assert(s2.drop_last() =~= s.drop_last());
        assert(s2.last() == (s[i].0, v));
        assert(assoc_map(s).insert(s[i].0, v) =~= assoc_map(s.drop_last()).insert(s[i].0, v));
    } else {
        assert(distinct_keys(s.drop_last()));
        assert(s.drop_last()[i] == s[i]);
        lemma_assoc_update(s.drop_last(), i, v);
        assert(s2.drop_last() =~= s.drop_last().update(i, (s[i].0, v)));
        assert(s2.last() == s.last());
        assert(s[i].0 != s.last().0);
        assert(assoc_map(s.drop_last()).insert(s[i].0, v).insert(s.last().0, s.last().1)
            =~= assoc_map(s.drop_last()).insert(s.last().0, s.last().1).insert(s[i].0, v));
    }
}

/// Sum of the counts of an entry sequence.
pub open spec fn sum_counts(s: Seq<(Seq<char>, usize)>) -> int
    decreases s.len(),
{
    if s.len() == 0 {
        0
    } else {
        sum_counts(s.drop_last()) + s.last().1
    }
}

pub proof fn lemma_sum_push(s: Seq<(Seq<char>, usize)>, e: (Seq<char>, usize))
    ensures
        sum_counts(s.push(e)) == sum_counts(s) + e.1,
{
    assert(s.push(e).drop_last() =~= s);
}

pub proof fn lemma_sum_update(s: Seq<(Seq<char>, usize)>, i: int, v: usize)
    requires
        0 <= i < s.len(),
    ensures
        sum_counts(s.update(i, (s[i].0, v))) == sum_counts(s) - s[i].1 + v,
    decreases s.len(),
{
    let s2 = s.update(i, (s[i].0, v));
    if i == s.len() - 1 {
        assert(s2.drop_last() =~= s.drop_last());
    } else {
        lemma_sum_update(s.drop_last(), i, v);
        assert(s.drop_last()[i] == s[i]);
        assert(s2.drop_last() =~= s.drop_last().update(i, (s[i].0, v)));
        assert(s2.last() == s.last());
    }
}

pub proof fn lemma_sum_nonnegative(s: Seq<(Seq<char>, usize)>)
    ensures
        sum_counts(s) >= 0,
    decreases s.len(),
{
    if s.len() > 0 {
        lemma_sum_nonnegative(s.drop_last());
    }
}

/// With distinct keys, each entry's count is at most the total.
pub proof fn lemma_count_le_sum(s: Seq<(Seq<char>, usize)>, i: int)
    requires
        0 <= i < s.len(),
    ensures
        s[i].1 <= sum_counts(s),
    decreases s.len(),
{
    if i == s.len() - 1 {
        lemma_sum_nonnegative(s.drop_last());
    } else {
        assert(s.drop_last()[i] == s[i]);
        lemma_count_le_sum(s.drop_last(), i);
    }
}


/// The counts of a prefix sum to no more than the whole.
pub proof fn lemma_sum_take_le(s: Seq<(Seq<char>, usize)>, j: int)
    requires
        0 <= j <= s.len(),
    ensures
        sum_counts(s.take(j)) <= sum_counts(s),
    decreases s.len(),
{
    if j == s.len() {
        assert(s.take(j) =~= s);
    } else {
        assert(s.drop_last().take(j) =~= s.take(j));
        lemma_sum_take_le(s.drop_last(), j);
    }
}

/// An insertion-ordered map from terms to counts, with distinct keys.
pub struct CountMap {
    entries: Vec<(String, usize)>,
}

impl View for CountMap {
    type V = Map<Seq<char>, usize>;

    open spec fn view(&self) -> Map<Seq<char>, usize> {
        assoc_map(self.entry_seq())
    }
}

impl CountMap {
    /// The entries, in insertion order, as (key view, count) pairs.
    pub closed spec fn entry_seq(self) -> Seq<(Seq<char>, usize)> {
        self.entries@.map_values(|e: (String, usize)| (e.0@, e.1))
    }

    pub open spec fn wf(self) -> bool {
        distinct_keys(self.entry_seq())
    }

    /// Sum of all counts held by the map.
    pub open spec fn total(self) -> int {
        sum_counts(self.entry_seq())
    }

    pub fn new() -> (m: CountMap)
        ensures
            m.wf(),
            m@ == Map::<Seq<char>, usize>::empty(),
            m.entry_seq() == Seq::<(Seq<char>, usize)>::empty(),
            m.total() == 0,
    {
        let m = CountMap { entries: Vec::new() };
        proof {
            assert(m.entry_seq() =~= Seq::<(Seq<char>, usize)>::empty());
            assert(m@ =~= Map::<Seq<char>, usize>::empty());
        }
        m
    }

    pub fn len(&self) -> (n: usize)
        ensures
            n == self.entry_seq().len(),
    {
        self.entries.len()
    }

    pub fn key_at(&self, i: usize) -> (k: &String)
        requires
            i < self.entry_seq().len(),
        ensures
            k@ == self.entry_seq()[i as int].0,
    {
        &self.entries[i].0
    }

    pub fn count_at(&self, i: usize) -> (v: usize)
        requires
            i < self.entry_seq().len(),
        ensures
            v == self.entry_seq()[i as int].1,
    {
        self.entries[i].1
    }

    fn index_of(&self, k: &str) -> (r: Option<usize>)
        ensures
            match r {
                Some(i) => i < self.entry_seq().len() && self.entry_seq()[i as int].0 == k@,
                None => forall|j: int|
                    0 <= j < self.entry_seq().len() ==> (#[trigger] self.entry_seq()[j]).0 != k@,
            },
    {
        let n = self.entries.len();
        let mut i: usize = 0;
        while i < n
            invariant
                n == self.entry_seq().len(),
                i <= n,
                forall|j: int| 0 <= j < i ==> (#[trigger] self.entry_seq()[j]).0 != k@,
            decreases n - i,
        {
            if str_eq(self.entries[i].0.as_str(), k) {
                return Some(i);
            }
            i = i + 1;
        }
        None
    }

    /// Look up the count recorded for `k`.
    pub fn get(&self, k: &str) -> (r: Option<usize>)
        requires
            self.wf(),
        ensures
            match r {
                Some(v) => self@.contains_key(k@) && v == self@[k@],
                None => !self@.contains_key(k@),
            },
    {
        proof {
            lemma_assoc_contains(self.entry_seq(), k@);
        }
        match self.index_of(k) {
            Some(i) => {
                proof {
                    lemma_assoc_index(self.entry_seq(), i as int);
                }
                Some(self.entries[i].1)
            },
            None => None,
        }
    }

    /// Record count `v` for `k`, replacing any earlier count. A new key is
    /// appended at the end of the insertion order; an existing key keeps its
    /// position.
    pub fn set(&mut self, k: &str, v: usize)
        requires
            old(self).wf(),
        ensures
            final(self).wf(),
            final(self)@ == old(self)@.insert(k@, v),
            final(self).total() == old(self).total() - (if old(self)@.contains_key(k@) {
                old(self)@[k@] as int
            } else {
                0int
            }) + v,
            old(self)@.contains_key(k@) ==> {
                &&& exists|i: int|
                    {
                        &&& 0 <= i < old(self).entry_seq().len()
                        &&& (#[trigger] old(self).entry_seq()[i]).0 == k@
                        &&& final(self).entry_seq() == old(self).entry_seq().update(i, (k@, v))
                    }
            },
            !old(self)@.contains_key(k@) ==> final(self).entry_seq() == old(self).entry_seq().push(
                (k@, v),
            ),
    {
        proof {
            lemma_assoc_contains(self.entry_seq(), k@);
        }
        let ghost s0 = self.entry_seq();
        match self.index_of(k) {
            Some(i) => {
                let (k0, _) = self.entries.remove(i);
                self.entries.insert(i, (k0, v));
                proof {
                    assert(self.entry_seq() =~= s0.update(i as int, (k@, v)));
                    lemma_assoc_update(s0, i as int, v);
                    lemma_sum_update(s0, i as int, v);
                    assert(distinct_keys(self.entry_seq()));
                    lemma_assoc_index(s0, i as int);
                }
            },
            None => {
                let ks = String::from_str(k);
                self.entries.push((ks, v));
                proof {
                    assert(self.entry_seq() =~= s0.push((k@, v)));
                    lemma_assoc_push(s0, (k@, v));
                    lemma_sum_push(s0, (k@, v));
                    assert forall|i: int, j: int|
                        0 <= i < j < self.entry_seq().len() implies (
                    #[trigger] self.entry_seq()[i]).0 != (#[trigger] self.entry_seq()[j]).0 by {
                        if j == self.entry_seq().len() - 1 {
                            assert(s0[i].0 != k@);
                        }
                    }
                }
            },
        }
    }


    /// The entries as owned rows, in insertion order.
    pub fn to_rows(&self) -> (rows: Vec<(String, usize)>)
        ensures
            rows@.map_values(|e: (String, usize)| (e.0@, e.1)) == self.entry_seq(),
    {
        let mut rows: Vec<(String, usize)> = Vec::new();
        let n = self.entries.len();
        let mut i: usize = 0;
        while i < n
            invariant
                n == self.entry_seq().len(),
                i <= n,
                rows@.len() == i,
                forall|k: int|
                    0 <= k < i ==> ((#[trigger] rows@[k]).0@, rows@[k].1) == self.entry_seq()[k],
            decreases n - i,
        {
            let key = self.entries[i].0.clone();
            let v = self.entries[i].1;
            rows.push((key, v));
            i = i + 1;
        }
        proof {
            assert(rows@.map_values(|e: (String, usize)| (e.0@, e.1)) =~= self.entry_seq());
        }
        rows
    }

    /// Every key of the map view is the key of exactly one entry.
    pub proof fn lemma_contains(self, k: Seq<char>)
        ensures
            self@.contains_key(k) <==> exists|i: int|
                0 <= i < self.entry_seq().len() && (#[trigger] self.entry_seq()[i]).0 == k,
    {
        lemma_assoc_contains(self.entry_seq(), k);
    }

    /// The view agrees with each entry.
    pub proof fn lemma_index(self, i: int)
        requires
            self.wf(),
            0 <= i < self.entry_seq().len(),
        ensures
            self@.contains_key(self.entry_seq()[i].0),
            self@[self.entry_seq()[i].0] == self.entry_seq()[i].1,
    {
        lemma_assoc_index(self.entry_seq(), i);
    }
}

} // verus!
