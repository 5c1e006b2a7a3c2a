//! A small map from `u64` identifiers to values, kept as an
//! association vector sorted by key.  It stands in for a hash map
//! where the logic needs deterministic iteration, and its contracts
//! speak in terms of a mathematical `Map`.

use vstd::prelude::*;

verus! {

/// A map from `u64` keys to values of type `V`, stored sorted by key
/// with no duplicate keys.
pub struct IdMap<V> {
    entries: Vec<(u64, V)>,
}

/// The map described by a sequence of key-value pairs, a later pair
/// overriding an earlier one with the same key.
pub open spec fn map_of_pairs<V>(l: Seq<(u64, V)>) -> Map<u64, V>
    decreases l.len(),
{
    if l.len() == 0 {
        Map::empty()
    } else {
        map_of_pairs(l.drop_last()).insert(l.last().0, l.last().1)
    }
}

impl<V> IdMap<V> {
    /// The keys are strictly ascending, hence unique.
    pub closed spec fn wf(&self) -> bool {
        forall|i: int, j: int| 0 <= i < j < self.entries@.len()
            ==> (#[trigger] self.entries@[i]).0 < (#[trigger] self.entries@[j]).0
    }

    /// The entries in ascending key order.
    pub closed spec fn entries_view(&self) -> Seq<(u64, V)> {
        self.entries@
    }

    /// The mathematical map these entries describe.
    pub closed spec fn as_map(&self) -> Map<u64, V> {
        Self::map_of(self.entries@)
    }

    /// Each stored entry is reflected in the map.
    pub proof fn lemma_entries_in_map(&self)
        requires
            self.wf(),
        ensures
            forall|i: int, j: int| 0 <= i < j < self.entries_view().len()
                ==> (#[trigger] self.entries_view()[i]).0 < (#[trigger] self.entries_view()[j]).0,
            forall|i: int| 0 <= i < self.entries_view().len()
                ==> self.as_map().contains_key((#[trigger] self.entries_view()[i]).0)
                    && self.as_map()[self.entries_view()[i].0] == self.entries_view()[i].1,
            forall|k: u64| self.as_map().contains_key(k)
                ==> exists|i: int| 0 <= i < self.entries_view().len()
                    && (#[trigger] self.entries_view()[i]).0 == k
                    && self.entries_view()[i].1 == self.as_map()[k],
    {
        assert forall|i: int| 0 <= i < self.entries@.len()
            implies self.as_map().contains_key((#[trigger] self.entries@[i]).0)
                && self.as_map()[self.entries@[i].0] == self.entries@[i].1 by {
            let k = self.entries@[i].0;
            assert(self.as_map().contains_key(k));
            let j = choose|j: int|
                0 <= j < self.entries@.len() && (#[trigger] self.entries@[j]).0 == k;
            if j < i {
                assert(self.entries@[j].0 < self.entries@[i].0);
            } else if j > i {
                assert(self.entries@[i].0 < self.entries@[j].0);
            }
        }
        assert forall|k: u64| self.as_map().contains_key(k)
            implies exists|i: int| 0 <= i < self.entries_view().len()
                && (#[trigger] self.entries_view()[i]).0 == k
                && self.entries_view()[i].1 == self.as_map()[k] by {
            let j = choose|j: int|
                0 <= j < self.entries@.len() && (#[trigger] self.entries@[j]).0 == k;
            assert(self.entries_view()[j].0 == k);
            assert(self.entries_view()[j].1 == self.as_map()[k]);
        }
    }

    /// Creates an empty map.
    pub fn new() -> (r: Self)
        ensures
            r.wf(),
            r.as_map() == Map::<u64, V>::empty(),
            r.entries_view() == Seq::<(u64, V)>::empty(),
    {
        let r = IdMap { entries: Vec::new() };
        proof {
            assert(r.as_map() =~= Map::<u64, V>::empty());
        }
        r
    }

    /// How many keys the map holds.
    pub fn len(&self) -> (r: usize)
        ensures
            r == self.entries_view().len(),
    {
        self.entries.len()
    }

    /// The entries, sorted by key.
    pub fn entries(&self) -> (r: &Vec<(u64, V)>)
        ensures
            r@ == self.entries_view(),
    {
        &self.entries
    }

    /// In a list whose adjacent keys ascend, all keys ascend.
    proof fn lemma_adjacent_sorted(l: Seq<(u64, V)>, a: int, b: int)
        requires
            forall|j: int| 0 <= j < l.len() - 1
                ==> (#[trigger] l[j]).0 < l[j + 1].0,
            0 <= a < b < l.len(),
        ensures
            l[a].0 < l[b].0,
        decreases b - a,
    {
        if b > a + 1 {
            Self::lemma_adjacent_sorted(l, a, b - 1);
        }
    }

    /// Checks at run time that the stored keys strictly ascend.
    pub fn is_well_formed(&self) -> (r: bool)
        ensures
            r == self.wf(),
    {
        let n = self.entries.len();
        if n == 0 {
            return true;
        }
        let mut i: usize = 0;
        while i + 1 < n
            invariant
                n == self.entries@.len(),
                i < n,
                forall|j: int| 0 <= j < i
                    ==> (#[trigger] self.entries@[j]).0 < self.entries@[j + 1].0,
            decreases n - i,
        {
            if self.entries[i].0 >= self.entries[i + 1].0 {
                return false;
            }
            i = i + 1;
        }
        proof {
            assert forall|a: int, b: int| 0 <= a < b < self.entries@.len()
                implies (#[trigger] self.entries@[a]).0 < (#[trigger] self.entries@[b]).0 by {
                Self::lemma_adjacent_sorted(self.entries@, a, b);
            }
        }
        true
    }

    /// Looks a key up by binary search over the sorted entries.
    pub fn get(&self, key: u64) -> (r: Option<&V>)
        requires
            self.wf(),
        ensures
            match r {
                Some(v) => self.as_map().contains_key(key) && *v == self.as_map()[key],
                None => !self.as_map().contains_key(key),
            },
    {
        let n = self.entries.len();
        let mut lo: usize = 0;
        let mut hi: usize = n;
        while lo < hi
            invariant
                n == self.entries@.len(),
                lo <= hi <= n,
                self.wf(),
                forall|j: int| 0 <= j < lo ==> (#[trigger] self.entries@[j]).0 < key,
                forall|j: int| hi <= j < n ==> (#[trigger] self.entries@[j]).0 > key,
            decreases hi - lo,
        {
            let mid = lo + (hi - lo) / 2;
            if self.entries[mid].0 == key {
                proof {
                    self.lemma_entries_in_map();
                }
                return Some(&self.entries[mid].1);
            } else if self.entries[mid].0 < key {
                proof {
                    assert forall|j: int| 0 <= j < mid + 1
                        implies (#[trigger] self.entries@[j]).0 < key by {
                        if j < mid {
                            assert(self.entries@[j].0 < self.entries@[mid as int].0);
                        }
                    }
                }
                lo = mid + 1;
            } else {
                proof {
                    assert forall|j: int| mid <= j < n
                        implies (#[trigger] self.entries@[j]).0 > key by {
                        if j > mid {
                            assert(self.entries@[mid as int].0 < self.entries@[j].0);
                        }
                    }
                }
                hi = mid;
            }
        }
        proof {
            if self.as_map().contains_key(key) {
                let j = choose|j: int|
                    0 <= j < self.entries@.len() && (#[trigger] self.entries@[j]).0 == key;
                assert(false);
            }
        }
        None
    }

    /// Inserts a value, replacing any value stored under the key.
    pub fn insert(&mut self, key: u64, value: V)
        requires
            old(self).wf(),
        ensures
            final(self).wf(),
            final(self).as_map() == old(self).as_map().insert(key, value),
            final(self).entries_view().len() <= old(self).entries_view().len() + 1,
    {
        let n = self.entries.len();
        let mut i: usize = 0;
        while i < n && self.entries[i].0 < key
            invariant
                n == self.entries@.len(),
                i <= n,
                self.wf(),
                forall|j: int| 0 <= j < i ==> (#[trigger] self.entries@[j]).0 < key,
            decreases n - i,
        {
            i = i + 1;
        }
        let ghost olds = self.entries@;
        if i < n && self.entries[i].0 == key {
            self.entries[i] = (key, value);
            proof {
                assert forall|a: int, b: int| 0 <= a < b < self.entries@.len()
                    implies (#[trigger] self.entries@[a]).0 < (#[trigger] self.entries@[b]).0 by {
                    assert(olds[a].0 < olds[b].0);
                }
                self.lemma_map_insert(olds, i as int, key, value);
            }
        } else {
            self.entries.insert(i, (key, value));
            proof {
                assert forall|a: int, b: int| 0 <= a < b < self.entries@.len()
                    implies (#[trigger] self.entries@[a]).0 < (#[trigger] self.entries@[b]).0 by {
                    if b < i {
                        assert(olds[a].0 < olds[b].0);
                    } else if a > i {
                        assert(self.entries@[a] == olds[a - 1]);
                        assert(self.entries@[b] == olds[b - 1]);
                    } else if a < i && b == i {
                        assert(self.entries@[a] == olds[a]);
                    } else if a == i && b > i {
                        assert(self.entries@[b] == olds[b - 1]);
                        assert(!(olds[b - 1].0 < key));
                        assert(olds[b - 1].0 != key);
                    } else {
                        assert(a < i && b > i);
                        assert(self.entries@[a] == olds[a]);
                        assert(self.entries@[b] == olds[b - 1]);
                        assert(!(olds[b - 1].0 < key));
                    }
                }
                self.lemma_map_grow(olds, i as int, key, value);
            }
        }
    }

    /// Replacing the entry at a key's position updates the map at
    /// that key alone.
    proof fn lemma_map_insert(&self, olds: Seq<(u64, V)>, i: int, key: u64, value: V)
        requires
            0 <= i < olds.len(),
            olds[i].0 == key,
            self.entries@ == olds.update(i, (key, value)),
            forall|a: int, b: int| 0 <= a < b < olds.len()
                ==> (#[trigger] olds[a]).0 < (#[trigger] olds[b]).0,
            self.wf(),
        ensures
            self.as_map() == Self::map_of(olds).insert(key, value),
    {
        let m1 = self.as_map();
        let m2 = Self::map_of(olds).insert(key, value);
        assert forall|k: u64| m1.contains_key(k) implies m2.contains_key(k) by {
            let a = choose|a: int|
                0 <= a < self.entries@.len() && (#[trigger] self.entries@[a]).0 == k;
            if a != i {
                assert(olds[a].0 == k);
            }
        }
        assert forall|k: u64| m2.contains_key(k) implies m1.contains_key(k) by {
            if k != key {
                let a = choose|a: int| 0 <= a < olds.len() && (#[trigger] olds[a]).0 == k;
                assert(self.entries@[a].0 == k);
            } else {
                assert(self.entries@[i].0 == k);
            }
        }
        assert forall|k: u64| m1.contains_key(k) implies m1[k] == m2[k] by {
            let a = choose|a: int|
                0 <= a < self.entries@.len() && (#[trigger] self.entries@[a]).0 == k;
            Self::lemma_find_unique(self.entries@, k, a);
            if k == key {
                Self::lemma_find_unique(self.entries@, k, i);
            } else {
                assert(olds[a].0 == k);
                Self::lemma_find_unique(olds, k, a);
            }
        }
        assert(m1 =~= m2);
    }

    /// Inserting a fresh entry at the key's sorted position adds the
    /// key to the map and keeps the rest.
    proof fn lemma_map_grow(&self, olds: Seq<(u64, V)>, i: int, key: u64, value: V)
        requires
            0 <= i <= olds.len(),
            self.entries@ == olds.insert(i, (key, value)),
            forall|a: int| 0 <= a < i ==> (#[trigger] olds[a]).0 < key,
            forall|a: int| i <= a < olds.len() ==> (#[trigger] olds[a]).0 != key,
            forall|a: int, b: int| 0 <= a < b < olds.len()
                ==> (#[trigger] olds[a]).0 < (#[trigger] olds[b]).0,
            self.wf(),
        ensures
            self.as_map() == Self::map_of(olds).insert(key, value),
    {
        let m1 = self.as_map();
        let m2 = Self::map_of(olds).insert(key, value);
        assert forall|a: int| 0 <= a < self.entries@.len()
            implies self.entries@[a] == (if a < i { olds[a] } else if a == i { (key, value) }
                else { olds[a - 1] }) by {}
        assert forall|k: u64| m1.contains_key(k) implies m2.contains_key(k) by {
            let a = choose|a: int|
                0 <= a < self.entries@.len() && (#[trigger] self.entries@[a]).0 == k;
            if a < i {
                assert(olds[a].0 == k);
            } else if a > i {
                assert(olds[a - 1].0 == k);
            }
        }
        assert forall|k: u64| m2.contains_key(k) implies m1.contains_key(k) by {
            if k != key {
                let a = choose|a: int| 0 <= a < olds.len() && (#[trigger] olds[a]).0 == k;
                if a < i {
                    assert(self.entries@[a].0 == k);
                } else {
                    assert(self.entries@[a + 1].0 == k);
                }
            } else {
                assert(self.entries@[i].0 == k);
            }
        }
        assert forall|k: u64| m1.contains_key(k) implies m1[k] == m2[k] by {
            let a = choose|a: int|
                0 <= a < self.entries@.len() && (#[trigger] self.entries@[a]).0 == k;
            Self::lemma_find_unique(self.entries@, k, a);
            if k == key {
                Self::lemma_find_unique(self.entries@, k, i);
            } else if a < i {
                assert(olds[a].0 == k);
                Self::lemma_find_unique(olds, k, a);
            } else {
                assert(a > i);
                assert(olds[a - 1].0 == k);
                Self::lemma_find_unique(olds, k, a - 1);
            }
        }
        assert(m1 =~= m2);
    }

    /// The map described by a raw sorted entry sequence.
    spec fn map_of(l: Seq<(u64, V)>) -> Map<u64, V> {
        Map::new(
            |k: u64| exists|i: int| 0 <= i < l.len() && (#[trigger] l[i]).0 == k,
            |k: u64| {
                let i = choose|i: int| 0 <= i < l.len() && (#[trigger] l[i]).0 == k;
                l[i].1
            },
        )
    }

    /// In a strictly sorted sequence the position of a key is unique,
    /// so the map's value at that key is the entry at that position.
    proof fn lemma_find_unique(l: Seq<(u64, V)>, k: u64, i: int)
        requires
            forall|a: int, b: int| 0 <= a < b < l.len()
                ==> (#[trigger] l[a]).0 < (#[trigger] l[b]).0,
            0 <= i < l.len(),
            l[i].0 == k,
        ensures
            Self::map_of(l)[k] == l[i].1,
            Self::map_of(l).contains_key(k),
    {
        let j = choose|j: int| 0 <= j < l.len() && (#[trigger] l[j]).0 == k;
        if j < i {
            assert(l[j].0 < l[i].0);
        } else if j > i {
            assert(l[i].0 < l[j].0);
        }
    }
}

} // verus!
