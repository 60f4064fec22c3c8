//! The mathematical model of a multimap: a `Map<K, Seq<V>>` in which every
//! key carries a non-empty sequence, together with the spec-level forms of
//! the operations and of the pair listings that `as_vec` produces.

use vstd::pervasive::cloned;
use vstd::prelude::*;
use vstd::std_specs::cmp::PartialEqSpec;
use vstd::std_specs::hash::obeys_key_model;

verus! {

/// A key type fits the map when its `Eq` and `Hash` impls follow the standard
/// hash-table key model and `clone` returns a value equal to its input.
pub open spec fn key_type_ok<K: core::hash::Hash + Eq + Clone>() -> bool {
    &&& obeys_key_model::<K>()
    &&& forall|a: K, b: K| #[trigger] cloned::<K>(a, b) ==> a == b
}

/// A value type fits the map when `==` decides equality of values and `clone`
/// returns a value equal to its input.
pub open spec fn value_type_ok<V: PartialEq + Clone>() -> bool {
    &&& V::obeys_eq_spec()
    &&& (forall|a: V, b: V| #[trigger] a.eq_spec(&b) <==> a == b)
    &&& (forall|a: V, b: V| #[trigger] cloned::<V>(a, b) ==> a == b)
}

/// Every key present in the model maps to at least one value.
pub open spec fn values_nonempty<K, V>(m: Map<K, Seq<V>>) -> bool {
    forall|k: K| #[trigger] m.contains_key(k) ==> m[k].len() > 0
}

/// The model after inserting the pair `(k, v)`: the value joins the end of
/// `k`'s sequence, which is created if `k` is new.
pub open spec fn insert_pair<K, V>(m: Map<K, Seq<V>>, k: K, v: V) -> Map<K, Seq<V>> {
    if m.contains_key(k) {
        m.insert(k, m[k].push(v))
    } else {
        m.insert(k, seq![v])
    }
}

/// The predicate that keeps a value: it differs from `v`.
pub open spec fn keeps<V>(v: V) -> spec_fn(V) -> bool {
    |x: V| x != v
}

/// The model after removing every occurrence of `v` under `k`: the sequence is
/// filtered, and the key leaves the map when nothing is left of it.
pub open spec fn remove_pair<K, V>(m: Map<K, Seq<V>>, k: K, v: V) -> Map<K, Seq<V>> {
    if m.contains_key(k) {
        let kept = m[k].filter(keeps(v));
        if kept.len() == 0 {
            m.remove(k)
        } else {
            m.insert(k, kept)
        }
    } else {
        m
    }
}

/// One key's block of a pair listing: its values, in order, each paired with
/// the key.
pub open spec fn key_pairs<K, V>(k: K, vals: Seq<V>) -> Seq<(K, V)> {
    vals.map_values(|v: V| (k, v))
}

/// The pair listing of model `m` that visits its keys in the order `ks`.
pub open spec fn pairs_in_order<K, V>(m: Map<K, Seq<V>>, ks: Seq<K>) -> Seq<(K, V)>
    decreases ks.len(),
{
    if ks.len() == 0 {
        Seq::empty()
    } else {
        key_pairs(ks[0], m[ks[0]]) + pairs_in_order(m, ks.drop_first())
    }
}

/// Visiting one more key appends that key's block to the listing.
pub proof fn lemma_pairs_in_order_push<K, V>(m: Map<K, Seq<V>>, ks: Seq<K>, k: K)
    ensures
        pairs_in_order(m, ks.push(k)) == pairs_in_order(m, ks) + key_pairs(k, m[k]),
    decreases ks.len(),
{
    if ks.len() == 0 {
        assert(ks.push(k).drop_first() =~= Seq::<K>::empty());
        assert(ks.push(k)[0] == k);
        assert(pairs_in_order(m, Seq::<K>::empty()) == Seq::<(K, V)>::empty());
        assert(pairs_in_order(m, ks.push(k)) == key_pairs(k, m[k]) + Seq::<(K, V)>::empty());
        assert(key_pairs(k, m[k]) + Seq::<(K, V)>::empty() =~= key_pairs(k, m[k]));
        assert(pairs_in_order(m, ks) + key_pairs(k, m[k]) =~= key_pairs(k, m[k]));
    } else {
        assert(ks.push(k).drop_first() =~= ks.drop_first().push(k));
        lemma_pairs_in_order_push(m, ks.drop_first(), k);
        assert(key_pairs(ks[0], m[ks[0]]) + (pairs_in_order(m, ks.drop_first()) + key_pairs(
            k,
            m[k],
        )) =~= (key_pairs(ks[0], m[ks[0]]) + pairs_in_order(m, ks.drop_first())) + key_pairs(
            k,
            m[k],
        ));
    }
}

/// `ps` lists the pairs of model `m`: each key of `m` appears exactly once,
/// in some order, and contributes its values in their own order.  Which key
/// order was taken is left open.
pub open spec fn lists_pairs_of<K, V>(m: Map<K, Seq<V>>, ps: Seq<(K, V)>) -> bool {
    exists|ks: Seq<K>|
        {
            &&& ks.no_duplicates()
            &&& ks.to_set() == m.dom()
            &&& ps == pairs_in_order(m, ks)
        }
}

/// The predicate that picks the pairs carrying key `k`.
pub open spec fn carries_key<K, V>(k: K) -> spec_fn((K, V)) -> bool {
    |p: (K, V)| p.0 == k
}

/// The projection from a pair to its value.
pub open spec fn pair_value<K, V>() -> spec_fn((K, V)) -> V {
    |p: (K, V)| p.1
}

/// The values that a pair sequence carries for key `k`, in order.
pub open spec fn values_of_key<K, V>(ps: Seq<(K, V)>, k: K) -> Seq<V> {
    ps.filter(carries_key(k)).map_values(pair_value())
}

/// The model built by inserting the pairs of `ps` in order into an empty map.
pub open spec fn grouped_by_key<K, V>(ps: Seq<(K, V)>) -> Map<K, Seq<V>>
    decreases ps.len(),
{
    if ps.len() == 0 {
        Map::empty()
    } else {
        insert_pair(grouped_by_key(ps.drop_last()), ps.last().0, ps.last().1)
    }
}

} // verus!
