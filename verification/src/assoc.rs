//! A small map that keeps its entries in the order in which their keys came.
//!
//! Whatever walks such a map meets the entries in the same order on every
//! run: nothing that is built from it depends on a hasher.

use vstd::prelude::*;
use crate::atoms::{same, PointIndex, Region};

verus! {

/// A key of an `AssocMap`: a value that can be told from every other one.
pub trait Key: Sized {
    /// Whether the two keys are the same.
    fn same_key(&self, other: &Self) -> (r: bool)
        ensures
            r == (*self == *other),
    ;
}

impl Key for Region {
    fn same_key(&self, other: &Self) -> (r: bool) {
        same(*self, *other)
    }
}

impl Key for PointIndex {
    fn same_key(&self, other: &Self) -> (r: bool) {
        same(*self, *other)
    }
}

impl Key for (Region, Region) {
    fn same_key(&self, other: &Self) -> (r: bool) {
        same(self.0, other.0) && same(self.1, other.1)
    }
}

/// Whether `entries` holds an entry for `k`.
pub open spec fn has_key<K, V>(entries: Seq<(K, V)>, k: K) -> bool {
    exists|i: int| 0 <= i < entries.len() && (#[trigger] entries[i]).0 == k
}

/// A place at which `entries` holds an entry for `k`.
pub open spec fn place_of<K, V>(entries: Seq<(K, V)>, k: K) -> int {
    choose|i: int| 0 <= i < entries.len() && (#[trigger] entries[i]).0 == k
}

/// The keys of `entries`, in their order.
pub open spec fn keys_of<K, V>(entries: Seq<(K, V)>) -> Seq<K> {
    Seq::new(entries.len(), |i: int| entries[i].0)
}

/// The elements of `s`, each once, in the order in which they come first.
pub open spec fn distinct<T>(s: Seq<T>) -> Seq<T>
    decreases s.len(),
{
    if s.len() == 0 {
        Seq::empty()
    } else {
        let before = distinct(s.drop_last());
        if before.contains(s.last()) {
            before
        } else {
            before.push(s.last())
        }
    }
}

/// What one more element does to `distinct`.
pub proof fn lemma_distinct_push<T>(s: Seq<T>, x: T)
    ensures
        distinct(s.push(x)) == (if distinct(s).contains(x) {
            distinct(s)
        } else {
            distinct(s).push(x)
        }),
{
    assert(s.push(x).drop_last() =~= s);
}

/// `distinct` holds what the sequence holds, and nothing twice.
pub proof fn lemma_distinct_holds<T>(s: Seq<T>)
    ensures
        distinct(s).no_duplicates(),
        forall|x: T| distinct(s).contains(x) <==> s.contains(x),
    decreases s.len(),
{
    if s.len() == 0 {
    } else {
        let rest = s.drop_last();
        let d = distinct(rest);
        lemma_distinct_holds(rest);
        assert forall|x: T| distinct(s).contains(x) <==> s.contains(x) by {
            if s.contains(x) {
                let i = choose|i: int| 0 <= i < s.len() && s[i] == x;
                if i < s.len() - 1 {
                    assert(rest[i] == x);
                }
            }
            if rest.contains(x) {
                let i = choose|i: int| 0 <= i < rest.len() && rest[i] == x;
            }
            if d.contains(x) {
                let i = choose|i: int| 0 <= i < d.len() && d[i] == x;
                if !d.contains(s.last()) {
                    assert(d.push(s.last())[i] == x);
                }
            }
            if !d.contains(s.last()) {
                let dd = d.push(s.last());
                assert(dd[d.len() as int] == s.last());
                if dd.contains(x) {
                    let i = choose|i: int| 0 <= i < dd.len() && dd[i] == x;
                    if i < d.len() {
                    }
                }
            }
        }
    }
}

/// A map from keys to values that remembers in which order the keys came.
pub struct AssocMap<K, V> {
    /// The entries, each key once, in the order in which the keys came.
    pub entries: Vec<(K, V)>,
}

impl<K, V> View for AssocMap<K, V> {
    type V = Map<K, V>;

    open spec fn view(&self) -> Map<K, V> {
        Map::new(
            |k: K| has_key(self.entries@, k),
            |k: K| self.entries@[place_of(self.entries@, k)].1,
        )
    }
}

impl<K: Key, V> AssocMap<K, V> {
    /// The invariant of the map: no key has two entries.
    pub open spec fn wf(&self) -> bool {
        forall|i: int, j: int|
            0 <= i < j < self.entries@.len() ==> (#[trigger] self.entries@[i]).0
                != (#[trigger] self.entries@[j]).0
    }

    /// The keys of the map, in the order in which they came.
    pub open spec fn keys(&self) -> Seq<K> {
        keys_of(self.entries@)
    }

    /// The entry at place `i` is the entry of its key.
    pub proof fn lemma_entry(&self, i: int)
        requires
            self.wf(),
            0 <= i < self.entries@.len(),
        ensures
            self@.contains_key(self.entries@[i].0),
            self@[self.entries@[i].0] == self.entries@[i].1,
            place_of(self.entries@, self.entries@[i].0) == i,
    {
        let k = self.entries@[i].0;
        let p = place_of(self.entries@, k);
    }

    /// The map holds a key where its keys hold it.
    pub proof fn lemma_keys(&self)
        ensures
            forall|k: K| self@.contains_key(k) <==> self.keys().contains(k),
            self.keys().len() == self.entries@.len(),
            self.wf() ==> self.keys().no_duplicates(),
    {
        let keys = self.keys();
        assert forall|k: K| self@.contains_key(k) <==> keys.contains(k) by {
            if self@.contains_key(k) {
                let i = place_of(self.entries@, k);
                assert(keys[i] == k);
            }
        }
    }

    /// A map without entries.
    pub fn new() -> (m: Self)
        ensures
            m.wf(),
            m@ == Map::<K, V>::empty(),
            m.entries@.len() == 0,
    {
        let m = AssocMap { entries: Vec::new() };
        m
    }

    /// The number of entries.
    pub fn len(&self) -> (n: usize)
        ensures
            n == self.entries@.len(),
    {
        self.entries.len()
    }

    /// The place of the entry for `k`, if there is one.
    pub fn find(&self, k: &K) -> (place: Option<usize>)
        ensures
            place matches Some(i) ==> i < self.entries@.len() && self.entries@[i as int].0 == *k,
            place is None ==> !has_key(self.entries@, *k),
            place is Some <==> self@.contains_key(*k),
    {
        let mut i: usize = 0;
        while i < self.entries.len()
            invariant
                i <= self.entries.len(),
                forall|j: int| 0 <= j < i ==> (#[trigger] self.entries@[j]).0 != *k,
            decreases self.entries.len() - i,
        {
            if self.entries[i].0.same_key(k) {
                return Some(i);
            }
            i += 1;
        }
        None
    }

    /// Whether the map holds an entry for `k`.
    pub fn contains_key(&self, k: &K) -> (found: bool)
        ensures
            found == self@.contains_key(*k),
    {
        self.find(k).is_some()
    }

    /// The value of `k`, if the map holds one.
    pub fn get(&self, k: &K) -> (value: Option<&V>)
        requires
            self.wf(),
        ensures
            value matches Some(v) ==> self@.contains_key(*k) && *v == self@[*k],
            value is None ==> !self@.contains_key(*k),
    {
        match self.find(k) {
            Some(i) => {
                Some(&self.entries[i].1)
            },
            None => None,
        }
    }

    /// Gives `k` the value `v`. A key that the map knows keeps its place; a
    /// new key goes to the end.
    pub fn insert(&mut self, k: K, v: V)
        requires
            old(self).wf(),
        ensures
            final(self).wf(),
            final(self)@ == old(self)@.insert(k, v),
            old(self)@.contains_key(k) ==> final(self).keys() == old(self).keys(),
            !old(self)@.contains_key(k) ==> final(self).keys() == old(self).keys().push(k),
    {
        let ghost before = self.entries@;
        match self.find(&k) {
            Some(i) => {
                self.entries.set(i, (k, v));
                proof {
                    let after = self.entries@;
                    assert forall|a: int, b: int| 0 <= a < b < after.len() implies (
                    #[trigger] after[a]).0 != (#[trigger] after[b]).0 by {
                    }
                    assert forall|x: K| has_key(after, x) <==> (has_key(before, x) || x == k) by {
                        if has_key(before, x) {
                            let p = place_of(before, x);
                            assert(after[p].0 == x);
                        }
                    }
                }
            },
            None => {
                self.entries.push((k, v));
                proof {
                    let after = self.entries@;
                    assert forall|a: int, b: int| 0 <= a < b < after.len() implies (
                    #[trigger] after[a]).0 != (#[trigger] after[b]).0 by {
                        if b < before.len() {
                            assert(before[a].0 != before[b].0);
                        } else {
                            assert(before[a].0 != k);
                        }
                    }
                    assert forall|x: K| has_key(after, x) <==> (has_key(before, x) || x == k) by {
                        if has_key(after, x) {
                            let p = place_of(after, x);
                            if p < before.len() {
                                assert(before[p].0 == x);
                            }
                        }
                        if has_key(before, x) {
                            let p = place_of(before, x);
                            assert(after[p].0 == x);
                        }
                        if x == k {
                            assert(after[before.len() as int].0 == x);
                        }
                    }
                    assert forall|x: K| has_key(after, x) implies #[trigger] self@[x] == old(
                        self,
                    )@.insert(k, v)[x] by {
                        let p = place_of(after, x);
                        self.lemma_entry(p);
                        if x != k {
                            old(self).lemma_entry(p);
                        }
                    }
                    assert(self@ =~= old(self)@.insert(k, v));
                }
            },
        }
    }
}

} // verus!
