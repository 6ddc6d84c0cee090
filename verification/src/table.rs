//! An ordered table keyed by byte strings: one value per key, walked in key order.

use crate::bytes::{
    bytes_before, bytes_before_is_total, bytes_before_is_transitive, precedes, same_bytes,
};
use vstd::prelude::*;

verus! {

/// A map from byte strings to values, kept in the order of its keys.
pub struct Table<V> {
    keys: Vec<Vec<u8>>,
    values: Vec<V>,
}

/// Keys in strictly increasing order, so that none occurs twice.
pub open spec fn increasing(keys: Seq<Seq<u8>>) -> bool {
    forall|i: int, j: int|
        #![trigger keys[i], keys[j]]
        0 <= i < j < keys.len() ==> bytes_before(keys[i], keys[j])
}

/// The map that a run of keys and their values make.
pub open spec fn map_of<V>(keys: Seq<Seq<u8>>, values: Seq<V>) -> Map<Seq<u8>, V> {
    Map::new(|k: Seq<u8>| keys.contains(k), |k: Seq<u8>| values[keys.index_of(k)])
}

/// In increasing keys each occurs once.
pub proof fn increasing_keys_are_unique(keys: Seq<Seq<u8>>, i: int, j: int)
    requires
        increasing(keys),
        0 <= i < keys.len(),
        0 <= j < keys.len(),
        keys[i] == keys[j],
    ensures
        i == j,
{
    bytes_before_is_total(keys[i], keys[j]);
}

/// Each key of the run stands for the value beside it.
pub proof fn map_of_at<V>(keys: Seq<Seq<u8>>, values: Seq<V>, i: int)
    requires
        increasing(keys),
        0 <= i < keys.len(),
    ensures
        map_of(keys, values).dom().contains(keys[i]),
        map_of(keys, values)[keys[i]] == values[i],
{
    assert(keys.contains(keys[i]));
    increasing_keys_are_unique(keys, i, keys.index_of(keys[i]));
}

/// The map has as many entries as the run has keys.
pub proof fn map_of_len<V>(keys: Seq<Seq<u8>>, values: Seq<V>)
    requires
        increasing(keys),
    ensures
        map_of(keys, values).dom().finite(),
        map_of(keys, values).len() == keys.len(),
{
    assert(map_of(keys, values).dom() =~= keys.to_set());
    assert(keys.no_duplicates()) by {
        assert forall|i: int, j: int|
            0 <= i < keys.len() && 0 <= j < keys.len() && i != j implies keys[i] != keys[j] by {
            if keys[i] == keys[j] {
                increasing_keys_are_unique(keys, i, j);
            }
        }
    }
    keys.unique_seq_to_set();
    vstd::seq_lib::seq_to_set_is_finite(keys);
}

/// Putting a value beside a key of the run is an insertion into the map.
pub proof fn map_of_update<V>(keys: Seq<Seq<u8>>, values: Seq<V>, i: int, v: V)
    requires
        increasing(keys),
        keys.len() == values.len(),
        0 <= i < keys.len(),
    ensures
        map_of(keys, values.update(i, v)) == map_of(keys, values).insert(keys[i], v),
{
    let before = map_of(keys, values);
    let after = map_of(keys, values.update(i, v));
    assert(keys.contains(keys[i]));
    assert forall|k: Seq<u8>| after.dom().contains(k) implies after[k] == before.insert(
        keys[i],
        v,
    )[k] by {
        let j = keys.index_of(k);
        increasing_keys_are_unique(keys, i, keys.index_of(keys[i]));
        if k != keys[i] {
            assert(j != i);
        }
    }
    assert(after =~= before.insert(keys[i], v));
}

/// Adding a new key at its place is an insertion into the map.
pub proof fn map_of_insert<V>(keys: Seq<Seq<u8>>, values: Seq<V>, i: int, key: Seq<u8>, v: V)
    requires
        increasing(keys),
        keys.len() == values.len(),
        0 <= i <= keys.len(),
        forall|j: int| 0 <= j < i ==> bytes_before(#[trigger] keys[j], key),
        forall|j: int| i <= j < keys.len() ==> bytes_before(key, #[trigger] keys[j]),
    ensures
        increasing(keys.insert(i, key)),
        map_of(keys.insert(i, key), values.insert(i, v)) == map_of(keys, values).insert(key, v),
{
    let ks = keys.insert(i, key);
    let vs = values.insert(i, v);
    assert(increasing(ks));
    let before = map_of(keys, values).insert(key, v);
    let after = map_of(ks, vs);
    assert forall|k: Seq<u8>| after.dom().contains(k) == before.dom().contains(k) by {
        if before.dom().contains(k) {
            if k == key {
                assert(ks[i] == k);
            } else {
                let j = keys.index_of(k);
                assert(ks[if j < i { j } else { j + 1 }] == k);
            }
        }
        if after.dom().contains(k) && k != key {
            let j = ks.index_of(k);
            assert(keys[if j < i { j } else { j - 1 }] == k);
        }
    }
    assert forall|k: Seq<u8>| after.dom().contains(k) implies after[k] == before[k] by {
        let j = ks.index_of(k);
        if k == key {
            increasing_keys_are_unique(ks, i, j);
        } else {
            let m = keys.index_of(k);
            increasing_keys_are_unique(ks, j, if m < i { m } else { m + 1 });
        }
    }
    assert(after =~= before);
}

/// Taking a key out of the run is a removal from the map.
pub proof fn map_of_remove<V>(keys: Seq<Seq<u8>>, values: Seq<V>, i: int)
    requires
        increasing(keys),
        keys.len() == values.len(),
        0 <= i < keys.len(),
    ensures
        increasing(keys.remove(i)),
        map_of(keys.remove(i), values.remove(i)) == map_of(keys, values).remove(keys[i]),
{
    let ks = keys.remove(i);
    let vs = values.remove(i);
    assert(increasing(ks));
    let before = map_of(keys, values).remove(keys[i]);
    let after = map_of(ks, vs);
    assert forall|k: Seq<u8>| after.dom().contains(k) == before.dom().contains(k) by {
        if before.dom().contains(k) {
            let j = keys.index_of(k);
            assert(ks[if j < i { j } else { j - 1 }] == k);
        }
        if after.dom().contains(k) {
            let j = ks.index_of(k);
            let m = if j < i { j } else { j + 1 };
            assert(keys[m] == k);
            if k == keys[i] {
                increasing_keys_are_unique(keys, i, m);
            }
        }
    }
    assert forall|k: Seq<u8>| after.dom().contains(k) implies after[k] == before[k] by {
        let j = ks.index_of(k);
        let m = if j < i { j } else { j + 1 };
        assert(keys[m] == k);
        increasing_keys_are_unique(keys, m, keys.index_of(k));
    }
    assert(after =~= before);
}

impl<V> Table<V> {
    /// The keys, in order.
    pub closed spec fn keys(&self) -> Seq<Seq<u8>> {
        Seq::new(self.keys@.len(), |i: int| self.keys@[i]@)
    }

    /// The values, in the order of their keys.
    pub closed spec fn values(&self) -> Seq<V> {
        self.values@
    }

    /// Every key has its value, and the keys increase.
    pub open spec fn wf(&self) -> bool {
        &&& self.keys().len() == self.values().len()
        &&& increasing(self.keys())
    }

    /// An empty table.
    pub fn new() -> (r: Self)
        ensures
            r.wf(),
            r.keys().len() == 0,
            r@ == Map::<Seq<u8>, V>::empty(),
    {
        let r = Table { keys: Vec::new(), values: Vec::new() };
        proof {
            assert(r@ =~= Map::<Seq<u8>, V>::empty());
        }
        r
    }

    /// How many entries there are.
    pub fn len(&self) -> (r: usize)
        requires
            self.wf(),
        ensures
            r == self.keys().len(),
            r == self@.len(),
    {
        proof {
            map_of_len(self.keys(), self.values());
        }
        self.keys.len()
    }

    /// The key at a place in the order.
    pub fn key_at(&self, i: usize) -> (r: &Vec<u8>)
        requires
            i < self.keys().len(),
        ensures
            r@ == self.keys()[i as int],
    {
        &self.keys[i]
    }

    /// The value at a place in the order.
    pub fn value_at(&self, i: usize) -> (r: &V)
        requires
            self.wf(),
            i < self.keys().len(),
        ensures
            *r == self.values()[i as int],
    {
        &self.values[i]
    }

    /// Where a key stands, or where it would.
    pub fn find(&self, key: &[u8]) -> (r: Result<usize, usize>)
        requires
            self.wf(),
        ensures
            match r {
                Ok(i) => {
                    &&& i < self.keys().len()
                    &&& self.keys()[i as int] == key@
                    &&& self@.dom().contains(key@)
                    &&& self@[key@] == self.values()[i as int]
                },
                Err(i) => {
                    &&& i <= self.keys().len()
                    &&& !self.keys().contains(key@)
                    &&& !self@.dom().contains(key@)
                    &&& forall|j: int| 0 <= j < i ==> bytes_before(#[trigger] self.keys()[j], key@)
                    &&& forall|j: int|
                        i <= j < self.keys().len() ==> bytes_before(key@, #[trigger] self.keys()[j])
                },
            },
    {
        let mut lo: usize = 0;
        let mut hi: usize = self.keys.len();
        while lo < hi
            invariant
                self.wf(),
                lo <= hi <= self.keys().len(),
                self.keys().len() == self.keys@.len(),
                forall|j: int| 0 <= j < lo ==> bytes_before(#[trigger] self.keys()[j], key@),
                forall|j: int|
                    hi <= j < self.keys().len() ==> bytes_before(key@, #[trigger] self.keys()[j]),
            decreases hi - lo,
        {
            let mid: usize = lo + (hi - lo) / 2;
            let here = self.keys[mid].as_slice();
            let ghost ks = self.keys();
            assert(ks[mid as int] == here@);
            if same_bytes(here, key) {
                proof {
                    map_of_at(self.keys(), self.values(), mid as int);
                }
                return Ok(mid);
            }
            if precedes(here, key) {
                proof {
                    assert forall|j: int| 0 <= j < mid + 1 implies bytes_before(
                        #[trigger] ks[j],
                        key@,
                    ) by {
                        if j < mid {
                            bytes_before_is_transitive(ks[j], ks[mid as int], key@);
                        }
                    }
                }
                lo = mid + 1;
            } else {
                proof {
                    bytes_before_is_total(here@, key@);
                    assert forall|j: int| mid <= j < ks.len() implies bytes_before(
                        key@,
                        #[trigger] ks[j],
                    ) by {
                        if mid < j {
                            bytes_before_is_transitive(key@, ks[mid as int], ks[j]);
                        }
                    }
                }
                hi = mid;
            }
        }
        proof {
            if self.keys().contains(key@) {
                let j = self.keys().index_of(key@);
                bytes_before_is_total(key@, key@);
                assert(self.keys()[j] == key@);
            }
        }
        Err(lo)
    }

    /// The value under a key.
    pub fn get(&self, key: &[u8]) -> (r: Option<&V>)
        requires
            self.wf(),
        ensures
            match r {
                Some(v) => self@.dom().contains(key@) && *v == self@[key@],
                None => !self@.dom().contains(key@),
            },
    {
        match self.find(key) {
            Ok(i) => Some(&self.values[i]),
            Err(_) => None,
        }
    }

    /// Puts a value under a key, in place of any that was there.
    pub fn insert(&mut self, key: &[u8], value: V)
        requires
            old(self).wf(),
        ensures
            final(self).wf(),
            final(self)@ == old(self)@.insert(key@, value),
    {
        match self.find(key) {
            Ok(i) => {
                proof {
                    map_of_update(self.keys(), self.values(), i as int, value);
                }
                self.values.set(i, value);
                proof {
                    assert(self.keys() =~= old(self).keys());
                }
            },
            Err(i) => {
                proof {
                    map_of_insert(self.keys(), self.values(), i as int, key@, value);
                }
                self.keys.insert(i, vstd::slice::slice_to_vec(key));
                self.values.insert(i, value);
                proof {
                    assert(self.keys() =~= old(self).keys().insert(i as int, key@));
                }
            },
        }
    }

    /// Takes a key and its value out.
    pub fn remove(&mut self, key: &[u8]) -> (r: Option<V>)
        requires
            old(self).wf(),
        ensures
            final(self).wf(),
            final(self)@ == old(self)@.remove(key@),
            match r {
                Some(v) => old(self)@.dom().contains(key@) && v == old(self)@[key@],
                None => !old(self)@.dom().contains(key@),
            },
    {
        match self.find(key) {
            Ok(i) => Some(self.remove_at(i)),
            Err(_) => {
                proof {
                    assert(self@ =~= old(self)@.remove(key@));
                }
                None
            },
        }
    }

    /// Takes the entry at a place out.
    pub fn remove_at(&mut self, i: usize) -> (r: V)
        requires
            old(self).wf(),
            i < old(self).keys().len(),
        ensures
            final(self).wf(),
            final(self).keys() == old(self).keys().remove(i as int),
            final(self).values() == old(self).values().remove(i as int),
            final(self)@ == old(self)@.remove(old(self).keys()[i as int]),
            r == old(self).values()[i as int],
    {
        proof {
            map_of_remove(self.keys(), self.values(), i as int);
        }
        self.keys.remove(i);
        let v = self.values.remove(i);
        proof {
            assert(self.keys() =~= old(self).keys().remove(i as int));
        }
        v
    }

    /// The value at a place in the order, to be changed where it stands.
    pub fn value_at_mut(&mut self, i: usize) -> (r: &mut V)
        requires
            old(self).wf(),
            i < old(self).keys().len(),
        ensures
            *r == old(self).values()[i as int],
            final(self).keys() == old(self).keys(),
            final(self).values() == old(self).values().update(i as int, *final(r)),
            final(self).wf(),
            final(self)@ == old(self)@.insert(old(self).keys()[i as int], *final(r)),
    {
        proof {
            assert forall|v: V| #[trigger]
                map_of(self.keys(), self.values().update(i as int, v)) == map_of(
                    self.keys(),
                    self.values(),
                ).insert(self.keys()[i as int], v) by {
                map_of_update(self.keys(), self.values(), i as int, v);
            }
        }
        &mut self.values[i]
    }
}

impl<V> View for Table<V> {
    type V = Map<Seq<u8>, V>;

    open spec fn view(&self) -> Map<Seq<u8>, V> {
        map_of(self.keys(), self.values())
    }
}

} // verus!
