//! A map that keeps its entries in the order of their keys.
use vstd::prelude::*;

use crate::order::{equivalent, precedes, total_order};

verus! {

/// A map from keys to values, held as a list of entries in increasing order of their keys.
#[derive(Debug)]
pub struct SortedMap<K, V> {
    entries: Vec<(K, V)>,
}

impl<K, V> View for SortedMap<K, V> {
    type V = Seq<(K, V)>;

    /// The entries, in their order.
    closed spec fn view(&self) -> Seq<(K, V)> {
        self.entries@
    }
}

/// Each key of `entries` stands before the keys after it.
pub open spec fn increasing<K: PartialOrd, V>(entries: Seq<(K, V)>) -> bool {
    forall|i: int, j: int| 0 <= i < j < entries.len() ==> #[trigger] precedes(entries[i].0, entries[j].0)
}

/// One of the keys of `entries` is equivalent to `key`.
pub open spec fn holds_key<K: PartialOrd, V>(entries: Seq<(K, V)>, key: K) -> bool {
    exists|i: int| 0 <= i < entries.len() && equivalent(#[trigger] entries[i].0, key)
}

impl<K, V> SortedMap<K, V> {
    /// A map without entries.
    pub fn new() -> (map: Self)
        ensures
            map@ == Seq::<(K, V)>::empty(),
    {
        SortedMap { entries: Vec::new() }
    }

    /// The number of entries.
    pub fn len(&self) -> (len: usize)
        ensures
            len == self@.len(),
    {
        self.entries.len()
    }

    /// The key at position `i`.
    pub fn key(&self, i: usize) -> (key: &K)
        requires
            i < self@.len(),
        ensures
            *key == self@[i as int].0,
    {
        &self.entries[i].0
    }

    /// The value at position `i`.
    pub fn value(&self, i: usize) -> (value: &V)
        requires
            i < self@.len(),
        ensures
            *value == self@[i as int].1,
    {
        &self.entries[i].1
    }

    /// The value at position `i`, to be changed.
    pub(crate) fn value_mut(&mut self, i: usize) -> (value: &mut V)
        requires
            i < old(self)@.len(),
        ensures
            *value == old(self)@[i as int].1,
            final(self)@ == old(self)@.update(i as int, (old(self)@[i as int].0, *final(value))),
    {
        &mut self.entries[i].1
    }

    /// Adds an entry behind all others.
    pub(crate) fn push(&mut self, key: K, value: V)
        ensures
            final(self)@ == old(self)@.push((key, value)),
    {
        self.entries.push((key, value));
    }

    /// The entries, in their order.
    pub fn into_entries(self) -> (entries: Vec<(K, V)>)
        ensures
            entries@ == self@,
    {
        self.entries
    }
}

impl<K: PartialOrd, V> SortedMap<K, V> {
    /// The keys are in increasing order.
    pub open spec fn well_formed(self) -> bool {
        increasing(self@)
    }

    /// Where `key` is, or where it would have to be: the number of keys that stand before it, and
    /// whether the key there is equivalent to it.
    pub fn position(&self, key: &K) -> (r: (usize, bool))
        requires
            total_order::<K>(),
            self.well_formed(),
        ensures
            r.0 <= self@.len(),
            forall|i: int| 0 <= i < r.0 ==> #[trigger] precedes(self@[i].0, *key),
            r.1 ==> r.0 < self@.len() && equivalent(self@[r.0 as int].0, *key),
            !r.1 ==> forall|i: int| r.0 <= i < self@.len() ==> #[trigger] precedes(*key, self@[i].0),
    {
        let mut low: usize = 0;
        let mut high: usize = self.entries.len();
        while low < high
            invariant
                total_order::<K>(),
                self.well_formed(),
                low <= high <= self@.len(),
                forall|i: int| 0 <= i < low ==> #[trigger] precedes(self@[i].0, *key),
                forall|i: int| high <= i < self@.len() ==> #[trigger] precedes(*key, self@[i].0),
            decreases high - low,
        {
            let middle: usize = low + (high - low) / 2;
            let found: &K = &self.entries[middle].0;
            assert(*found == self@[middle as int].0);
            if found < key {
                assert forall|i: int| 0 <= i < middle + 1 implies #[trigger] precedes(self@[i].0, *key) by {
                    if i < middle {
                        assert(precedes(self@[i].0, self@[middle as int].0));
                    }
                }
                low = middle + 1;
            } else if key < found {
                assert forall|i: int| middle <= i < self@.len() implies #[trigger] precedes(*key, self@[i].0) by {
                    if middle < i {
                        assert(precedes(self@[middle as int].0, self@[i].0));
                    }
                }
                high = middle;
            } else {
                assert(!precedes(self@[middle as int].0, *key));
                assert(!precedes(*key, self@[middle as int].0));
                assert forall|i: int| 0 <= i < middle implies #[trigger] precedes(self@[i].0, *key) by {
                    assert(precedes(self@[i].0, self@[middle as int].0));
                }
                return (middle, true);
            }
        }
        (low, false)
    }

    /// The value of `key`, if the map has it.
    pub fn get(&self, key: &K) -> (value: Option<&V>)
        requires
            total_order::<K>(),
            self.well_formed(),
        ensures
            match value {
                Some(v) => exists|i: int|
                    0 <= i < self@.len() && equivalent(#[trigger] self@[i].0, *key) && *v == self@[i].1,
                None => forall|i: int| 0 <= i < self@.len() ==> !equivalent(#[trigger] self@[i].0, *key),
            },
            value is Some <==> holds_key(self@, *key),
    {
        let (i, found) = self.position(key);
        if found {
            Some(&self.entries[i].1)
        } else {
            proof {
                assert forall|j: int| 0 <= j < self@.len() implies !equivalent(#[trigger] self@[j].0, *key) by {
                    if j < i {
                        assert(precedes(self@[j].0, *key));
                    } else {
                        assert(precedes(*key, self@[j].0));
                        if equivalent(self@[j].0, *key) {
                            assert(equivalent(*key, self@[j].0));
                        }
                    }
                }
            }
            None
        }
    }

    /// Adds an entry at position `i`, where its key belongs.
    pub(crate) fn insert_at(&mut self, i: usize, key: K, value: V)
        requires
            old(self).well_formed(),
            i <= old(self)@.len(),
            forall|j: int| 0 <= j < i ==> #[trigger] precedes(old(self)@[j].0, key),
            forall|j: int| i <= j < old(self)@.len() ==> #[trigger] precedes(key, old(self)@[j].0),
        ensures
            final(self).well_formed(),
            final(self)@ == old(self)@.insert(i as int, (key, value)),
    {
        self.entries.insert(i, (key, value));
        proof {
            let before = old(self)@;
            let after = self@;
            assert forall|j: int, k: int| 0 <= j < k < after.len() implies #[trigger] precedes(after[j].0, after[k].0) by {
                let j0 = if j < i { j } else { j - 1 };
                let k0 = if k < i { k } else { k - 1 };
                if j != i && k != i {
                    assert(after[j] == before[j0]);
                    assert(after[k] == before[k0]);
                    assert(precedes(before[j0].0, before[k0].0));
                } else if j == i {
                    assert(after[k] == before[k0]);
                    assert(precedes(key, before[k0].0));
                } else {
                    assert(after[j] == before[j0]);
                    assert(precedes(before[j0].0, key));
                }
            }
        }
    }
}

} // verus!
