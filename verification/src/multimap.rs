//! The `MultiMap` container and its operations.

use crate::model::{
    grouped_by_key, insert_pair, keeps, key_pairs, key_type_ok, lemma_pairs_in_order_push,
    lists_pairs_of, pairs_in_order, remove_pair, value_type_ok, values_nonempty, values_of_key,
};
use core::hash::Hash;
use std::collections::hash_map::Entry;
use std::collections::HashMap;
use vstd::pervasive::cloned;
use vstd::pervasive::unreached;
use vstd::prelude::*;
use vstd::std_specs::iter::IteratorSpec;

verus! {

broadcast use vstd::std_specs::hash::group_hash_axioms;

/// A map from keys to ordered, non-empty sequences of values, backed by a
/// hash map from `K` to `Vec<V>`.  Duplicate key-value pairs are allowed:
/// inserting a pair twice leaves the value twice in its key's sequence.
#[verifier::reject_recursive_types(K)]
#[verifier::reject_recursive_types(V)]
pub struct MultiMap<K, V> {
    data: HashMap<K, Vec<V>>,
}

impl<K: Hash + Eq + Clone, V: PartialEq + Clone> View for MultiMap<K, V> {
    type V = Map<K, Seq<V>>;

    closed spec fn view(&self) -> Map<K, Seq<V>> {
        self.data@.map_values(|vals: Vec<V>| vals@)
    }
}

impl<K: Hash + Eq + Clone, V: PartialEq + Clone> MultiMap<K, V> {
    /// The map is well formed: its key and value types behave as hash-map
    /// keys and comparable values must, and no key holds an empty sequence.
    pub open spec fn wf(&self) -> bool {
        &&& key_type_ok::<K>()
        &&& value_type_ok::<V>()
        &&& values_nonempty(self@)
    }

    /// Constructs an empty map, pre-sized for `capacity` keys, with the
    /// default hasher.
    fn with_capacity_and_default_hasher(capacity: usize) -> (r: Self)
        requires
            key_type_ok::<K>(),
            value_type_ok::<V>(),
        ensures
            r.wf(),
            r@ == Map::<K, Seq<V>>::empty(),
    {
        let m = MultiMap { data: HashMap::with_capacity(capacity) };
        proof {
            assert(m@ =~= Map::<K, Seq<V>>::empty());
        }
        m
    }

    /// Constructs an empty map.
    pub fn new() -> (r: Self)
        requires
            key_type_ok::<K>(),
            value_type_ok::<V>(),
        ensures
            r.wf(),
            r@ == Map::<K, Seq<V>>::empty(),
    {
        let m = MultiMap { data: HashMap::new() };
        proof {
            assert(m@ =~= Map::<K, Seq<V>>::empty());
        }
        m
    }

    /// Returns true if the map holds a value for the key.
    pub fn contains_key(&self, k: &K) -> (r: bool)
        requires
            self.wf(),
        ensures
            r == self@.contains_key(*k),
    {
        self.data.contains_key(k)
    }

    /// Returns the number of distinct keys, not the number of values.
    pub fn len(&self) -> (n: usize)
        requires
            self.wf(),
        ensures
            n == self@.dom().len(),
    {
        proof {
            assert(self@.dom() =~= self.data@.dom());
        }
        self.data.len()
    }

    /// Returns true if the map holds no key at all.
    pub fn is_empty(&self) -> (r: bool)
        requires
            self.wf(),
        ensures
            r == (self@.dom().len() == 0),
    {
        proof {
            assert(self@.dom() =~= self.data@.dom());
        }
        self.data.is_empty()
    }

    /// Returns the values of the key, in insertion order.  The key must be
    /// present: looking up an absent key is a caller error, ruled out by the
    /// precondition rather than answered with an empty or default sequence.
    pub fn get<'a>(&'a self, k: &K) -> (r: &'a Vec<V>)
        requires
            self.wf(),
            self@.contains_key(*k),
        ensures
            r@ == self@[*k],
            r@.len() > 0,
    {
        match self.data.get(k) {
            Some(vals) => vals,
            None => unreached(),
        }
    }

    /// Returns the values of the key for mutation in place.  As with `get`,
    /// an absent key is a caller error.  A caller that leaves the sequence
    /// empty has broken the map's shape: the map is well formed afterwards
    /// only if at least one value is left.
    pub fn get_mut<'a>(&'a mut self, k: &K) -> (r: &'a mut Vec<V>)
        requires
            old(self).wf(),
            old(self)@.contains_key(*k),
        ensures
            r@ == old(self)@[*k],
            final(self)@ =~~= old(self)@.insert(*k, final(r)@),
            final(r)@.len() > 0 ==> final(self).wf(),
    {
        let kk = k.clone();
        proof {
            assert(cloned::<K>(*k, kk));
        }
        match self.data.entry(kk) {
            Entry::Occupied(e) => e.into_mut(),
            Entry::Vacant(_) => unreached(),
        }
    }

    /// Appends `v` to the sequence of key `k`, creating the key with the
    /// one-value sequence if it was absent.  Never fails, and never removes
    /// or reorders what is already there: an exact duplicate of a present
    /// pair simply makes its key's sequence longer.
    pub fn insert(&mut self, k: K, v: V)
        requires
            old(self).wf(),
        ensures
            final(self).wf(),
            final(self)@ == insert_pair(old(self)@, k, v),
    {
        let ghost m0 = self@;
        match self.data.remove(&k) {
            Some(mut vals) => {
                vals.push(v);
                self.data.insert(k, vals);
            },
            None => {
                let mut vals: Vec<V> = Vec::new();
                vals.push(v);
                self.data.insert(k, vals);
            },
        }
        proof {
            assert(self@ =~= insert_pair(m0, k, v));
        }
    }

    /// Removes the key and all of its values.  Returns true exactly when the
    /// key was present; on an absent key the map is left as it was.
    pub fn remove(&mut self, k: &K) -> (r: bool)
        requires
            old(self).wf(),
        ensures
            r == old(self)@.contains_key(*k),
            final(self)@ == old(self)@.remove(*k),
            final(self).wf(),
    {
        let ghost m0 = self@;
        let present = self.data.remove(k).is_some();
        proof {
            assert(self@ =~= m0.remove(*k));
        }
        present
    }

    /// Returns every key-value pair of the map as a freshly built vector: one
    /// pair per value occurrence, with each key's pairs standing together in
    /// that key's insertion order.  The order of the keys against each other
    /// is whatever order the underlying hash map yields, and is not promised.
    /// Keys and values are cloned into the result.
    #[verifier::loop_isolation(false)]
    pub fn as_vec(&self) -> (r: Vec<(K, V)>)
        requires
            self.wf(),
        ensures
            lists_pairs_of(self@, r@),
            forall|k: K|
                #[trigger] values_of_key(r@, k) == if self@.contains_key(k) {
                    self@[k]
                } else {
                    Seq::<V>::empty()
                },
    {
        let mut entries: Vec<(K, V)> = Vec::new();
        let ghost mut ks: Seq<K> = Seq::empty();
        proof {
            assert(entries@ =~= pairs_in_order(self@, ks));
        }
        for pair in it: self.data.iter()
            invariant
                it.seq() == vstd::std_specs::hash::spec_hash_map_iter(&self.data).remaining(),
                it.seq().no_duplicates(),
                ks.len() == it.index(),
                forall|j: int| 0 <= j < ks.len() ==> ks[j] == *it.seq()[j].0,
                ks.no_duplicates(),
                forall|j: int| 0 <= j < ks.len() ==> self@.contains_key(#[trigger] ks[j]),
                forall|k: K|
                    self@.contains_key(k) && !ks.to_set().contains(k) ==> exists|j: int|
                        it.index() <= j < it.seq().len() && it.seq()[j] == (&k, &self.data@[k]),
                entries@ == pairs_in_order(self@, ks),
        {
            let (kref, vref) = pair;
            let ghost base = entries@;
            let n = vref.len();
            for j in 0..n
                invariant
                    entries@ == base + key_pairs(*kref, vref@.subrange(0, j as int)),
            {
                let ck = kref.clone();
                let x = &vref[j];
                let cv = x.clone();
                proof {
                    assert(cloned::<K>(*kref, ck));
                    assert(cloned::<V>(*x, cv));
                }
                entries.push((ck, cv));
                proof {
                    assert(vref@.subrange(0, j + 1) =~= vref@.subrange(0, j as int).push(
                        vref@[j as int],
                    ));
                    assert(key_pairs(*kref, vref@.subrange(0, j + 1)) =~= key_pairs(
                        *kref,
                        vref@.subrange(0, j as int),
                    ).push((*kref, vref@[j as int])));
                }
            }
            proof {
                let idx = it.index();
                assert(0 <= idx < it.seq().len());
                assert(pair == it.seq()[idx]);
                assert(self.data@[*kref] == *vref);
                assert forall|j: int| 0 <= j < ks.len() implies ks[j] != *kref by {
                    if ks[j] == *kref {
                        assert(*it.seq()[j].1 == self.data@[*it.seq()[j].0]);
                        assert(it.seq()[j] == it.seq()[idx]);
                    }
                }
                assert(vref@.subrange(0, n as int) =~= vref@);
                lemma_pairs_in_order_push(self@, ks, *kref);
                assert(self@[*kref] == vref@);
                let ghost ks0 = ks;
                ks = ks.push(*kref);
                assert(ks[ks0.len() as int] == *kref);
                assert forall|k: K|
                    self@.contains_key(k) && !ks.to_set().contains(k) implies exists|j: int|
                    idx + 1 <= j < it.seq().len() && it.seq()[j] == (&k, &self.data@[k]) by {
                    assert(!ks0.to_set().contains(k)) by {
                        if ks0.contains(k) {
                            let i = choose|i: int| 0 <= i < ks0.len() && ks0[i] == k;
                            assert(ks[i] == k);
                            assert(ks.contains(k));
                        }
                    }
                    assert(exists|j: int|
                        it.index() <= j < it.seq().len() && it.seq()[j] == (&k, &self.data@[k]));
                    let j0 = choose|j: int|
                        it.index() <= j < it.seq().len() && it.seq()[j] == (&k, &self.data@[k]);
                    if j0 == idx {
                        assert(it.seq()[idx] == (&k, &self.data@[k]));
                        assert(k == *kref);
                        assert(ks.contains(k));
                        assert(false);
                    } else {
                        assert(idx + 1 <= j0 < it.seq().len() && it.seq()[j0] == (
                        &k,
                        &self.data@[k],
                        ));
                    }
                }
            }
        }
        proof {
            assert forall|k: K| self@.contains_key(k) implies ks.to_set().contains(k) by {}
            assert(ks.to_set() =~= self@.dom());
            assert(lists_pairs_of(self@, entries@));
            assert forall|k: K|
                #[trigger] values_of_key(entries@, k) == if self@.contains_key(k) {
                    self@[k]
                } else {
                    Seq::<V>::empty()
                } by {
                crate::laws::lemma_listing_per_key(self@, entries@, k);
            }
        }
        entries
    }

    /// Removes every occurrence of value `v` from key `k`'s sequence, not
    /// only the first.  If nothing is left under the key, the key itself
    /// leaves the map.  Returns true exactly when the key was present, whether
    /// or not the value occurred under it.
    pub fn remove_value(&mut self, k: &K, v: &V) -> (r: bool)
        requires
            old(self).wf(),
        ensures
            r == old(self)@.contains_key(*k),
            final(self)@ == remove_pair(old(self)@, *k, *v),
            final(self).wf(),
    {
        let ghost m0 = self@;
        if self.data.contains_key(k) {
            let vals = self.get(k);
            let ghost vs = vals@;
            let mut kept: Vec<V> = Vec::new();
            let n = vals.len();
            for i in 0..n
                invariant
                    value_type_ok::<V>(),
                    vals@ == vs,
                    n == vs.len(),
                    kept@ == vs.subrange(0, i as int).filter(keeps(*v)),
            {
                let x = &vals[i];
                if *x != *v {
                    let c = x.clone();
                    proof {
                        assert(cloned::<V>(*x, c));
                    }
                    kept.push(c);
                }
                proof {
                    assert(vs.subrange(0, i + 1) =~= vs.subrange(0, i as int).push(
                        vs[i as int],
                    ));
                    vs.subrange(0, i as int).lemma_filter_push(vs[i as int], keeps(*v));
                }
            }
            proof {
                assert(vs.subrange(0, n as int) =~= vs);
            }
            if kept.is_empty() {
                self.data.remove(k);
            } else {
                let kk = k.clone();
                proof {
                    assert(cloned::<K>(*k, kk));
                }
                self.data.insert(kk, kept);
            }
            proof {
                assert(self@ =~= remove_pair(m0, *k, *v));
            }
            true
        } else {
            proof {
                assert(self@ =~= remove_pair(m0, *k, *v));
            }
            false
        }
    }

    /// Builds a map from a sequence of pairs, inserting them in sequence
    /// order: a key that occurs several times accumulates its values in the
    /// order they stand in `pairs`, duplicates included.
    #[verifier::loop_isolation(false)]
    pub fn from_sequence(pairs: &Vec<(K, V)>) -> (r: Self)
        requires
            key_type_ok::<K>(),
            value_type_ok::<V>(),
        ensures
            r.wf(),
            r@ == grouped_by_key(pairs@),
    {
        let mut map = Self::with_capacity_and_default_hasher(pairs.len());
        proof {
            assert(pairs@.subrange(0, 0) =~= Seq::<(K, V)>::empty());
        }
        let n = pairs.len();
        for i in 0..n
            invariant
                map.wf(),
                map@ == grouped_by_key(pairs@.subrange(0, i as int)),
        {
            let p = &pairs[i];
            let ck = p.0.clone();
            let cv = p.1.clone();
            proof {
                assert(cloned::<K>(pairs@[i as int].0, ck));
                assert(cloned::<V>(pairs@[i as int].1, cv));
            }
            map.insert(ck, cv);
            proof {
                let pre = pairs@.subrange(0, i as int);
                let cur = pairs@.subrange(0, i + 1);
                assert(cur.drop_last() =~= pre);
                assert(cur.last() == pairs@[i as int]);
            }
        }
        proof {
            assert(pairs@.subrange(0, pairs@.len() as int) =~= pairs@);
        }
        map
    }

    /// Compares the value sequences of one key.
    #[verifier::loop_isolation(false)]
    fn vecs_equal(a: &Vec<V>, b: &Vec<V>) -> (r: bool)
        requires
            value_type_ok::<V>(),
        ensures
            r <==> a@ == b@,
    {
        if a.len() != b.len() {
            return false;
        }
        let n = a.len();
        for i in 0..n
            invariant
                forall|j: int| 0 <= j < i ==> a@[j] == b@[j],
        {
            let x = &a[i];
            let y = &b[i];
            if *x != *y {
                return false;
            }
        }
        proof {
            assert(a@ =~= b@);
        }
        true
    }

    /// Decides equality of two maps: they are equal exactly when they hold
    /// the same keys and each key's value sequence matches element for
    /// element, in order.
    #[verifier::loop_isolation(false)]
    pub fn equals(&self, other: &Self) -> (r: bool)
        requires
            self.wf(),
            other.wf(),
        ensures
            r <==> self@ =~~= other@,
    {
        proof {
            assert(self@.dom() =~= self.data@.dom());
            assert(other@.dom() =~= other.data@.dom());
        }
        if self.data.len() != other.data.len() {
            return false;
        }
        for pair in it: self.data.iter()
            invariant
                it.seq() == vstd::std_specs::hash::spec_hash_map_iter(&self.data).remaining(),
                forall|k: K|
                    self@.contains_key(k) ==> (other@.contains_key(k) && other@[k] == self@[k])
                        || (exists|j: int|
                        it.index() <= j < it.seq().len() && it.seq()[j] == (&k, &self.data@[k])),
        {
            let (kref, vref) = pair;
            let ghost idx = it.index();
            proof {
                assert(pair == it.seq()[idx]);
                assert(self.data@[*kref] == *vref);
            }
            let value_matches = match other.data.get(kref) {
                Some(ovals) => Self::vecs_equal(vref, ovals),
                None => false,
            };
            if !value_matches {
                return false;
            }
            proof {
                assert(other@.contains_key(*kref) && other@[*kref] == self@[*kref]);
                assert forall|k: K|
                    self@.contains_key(k) && !(other@.contains_key(k) && other@[k]
                        == self@[k]) implies exists|j: int|
                    idx + 1 <= j < it.seq().len() && it.seq()[j] == (&k, &self.data@[k]) by {
                    assert(exists|j: int|
                        it.index() <= j < it.seq().len() && it.seq()[j] == (&k, &self.data@[k]));
                    let j0 = choose|j: int|
                        it.index() <= j < it.seq().len() && it.seq()[j] == (&k, &self.data@[k]);
                    if j0 == idx {
                        assert(it.seq()[idx] == (&k, &self.data@[k]));
                        assert(k == *kref);
                        assert(false);
                    } else {
                        assert(idx + 1 <= j0 < it.seq().len() && it.seq()[j0] == (
                        &k,
                        &self.data@[k],
                        ));
                    }
                }
            }
        }
        proof {
            assert forall|k: K| self@.contains_key(k) implies other@.contains_key(k) && other@[k]
                == self@[k] by {}
            vstd::set_lib::lemma_subset_equality(self@.dom(), other@.dom());
            assert(self@ =~~= other@);
        }
        true
    }

    /// Removes every key and every value; the map becomes empty.
    pub fn clear(&mut self)
        requires
            old(self).wf(),
        ensures
            final(self).wf(),
            final(self)@ == Map::<K, Seq<V>>::empty(),
    {
        self.data.clear();
        proof {
            assert(self@ =~= Map::<K, Seq<V>>::empty());
        }
    }
}

} // verus!
