//! Laws that relate the container's operations to each other, proved over the
//! model: what a pair listing holds of each key, how building from a sequence
//! groups pairs, that duplicate inserts accumulate, and that grouping ignores
//! the order of distinct keys.

use crate::model::{
    carries_key, grouped_by_key, insert_pair, key_pairs, lists_pairs_of, pair_value,
    pairs_in_order, values_of_key,
};
use vstd::prelude::*;

verus! {

/// Filtering one key's block keeps all of it for that key and none of it for
/// any other key.
proof fn lemma_key_pairs_filter<K, V>(k0: K, vals: Seq<V>, k: K)
    ensures
        key_pairs(k0, vals).filter(carries_key(k)) == if k0 == k {
            key_pairs(k0, vals)
        } else {
            Seq::<(K, V)>::empty()
        },
    decreases vals.len(),
{
    if vals.len() == 0 {
        key_pairs(k0, vals).lemma_filter_len(carries_key(k));
        assert(key_pairs(k0, vals).filter(carries_key(k)) =~= Seq::<(K, V)>::empty());
        assert(key_pairs(k0, vals) =~= Seq::<(K, V)>::empty());
    } else {
        lemma_key_pairs_filter(k0, vals.drop_last(), k);
        assert(key_pairs(k0, vals) =~= key_pairs(k0, vals.drop_last()).push((k0, vals.last())));
        key_pairs(k0, vals.drop_last()).lemma_filter_push((k0, vals.last()), carries_key(k));
        if k0 == k {
            assert(key_pairs(k0, vals.drop_last()).push((k0, vals.last())) =~= key_pairs(
                k0,
                vals,
            ));
        }
    }
}

/// Dropping the first element keeps a sequence free of duplicates.
proof fn lemma_drop_first_no_duplicates<K>(ks: Seq<K>)
    requires
        ks.len() > 0,
        ks.no_duplicates(),
    ensures
        ks.drop_first().no_duplicates(),
{
    let rest = ks.drop_first();
    assert forall|i: int, j: int|
        0 <= i < rest.len() && 0 <= j < rest.len() && i != j implies rest[i] != rest[j] by {
        assert(rest[i] == ks[i + 1]);
        assert(rest[j] == ks[j + 1]);
    }
}

/// In a listing that visits the distinct keys `ks`, the pairs carrying key
/// `k` are exactly `m[k]`'s values in order when `k` is visited, and there
/// are none when it is not.
proof fn lemma_pairs_in_order_values<K, V>(m: Map<K, Seq<V>>, ks: Seq<K>, k: K)
    requires
        ks.no_duplicates(),
    ensures
        values_of_key(pairs_in_order(m, ks), k) == if ks.contains(k) {
            m[k]
        } else {
            Seq::<V>::empty()
        },
    decreases ks.len(),
{
    broadcast use Seq::filter_distributes_over_add;

    if ks.len() == 0 {
        pairs_in_order(m, ks).lemma_filter_len(carries_key(k));
        assert(pairs_in_order(m, ks).filter(carries_key(k)) =~= Seq::<(K, V)>::empty());
        assert(values_of_key(pairs_in_order(m, ks), k) =~= Seq::<V>::empty());
    } else {
        let rest = ks.drop_first();
        lemma_drop_first_no_duplicates(ks);
        lemma_pairs_in_order_values(m, rest, k);
        lemma_key_pairs_filter(ks[0], m[ks[0]], k);
        let head = key_pairs(ks[0], m[ks[0]]);
        let tail = pairs_in_order(m, rest);
        assert(pairs_in_order(m, ks) == head + tail);
        if ks[0] == k {
            assert forall|i: int| 0 <= i < rest.len() implies rest[i] != k by {
                assert(rest[i] == ks[i + 1]);
            }
            assert(!rest.contains(k));
            assert(values_of_key(tail, k).len() == 0);
            assert(tail.filter(carries_key(k)) =~= Seq::<(K, V)>::empty());
            assert((head + tail).filter(carries_key(k)) =~= head);
            assert(head.map_values(pair_value()) =~= m[k]);
            assert(ks.contains(k)) by {
                assert(ks[0] == k);
            }
        } else {
            assert((head + tail).filter(carries_key(k)) =~= tail.filter(carries_key(k)));
            assert(values_of_key(pairs_in_order(m, ks), k) == values_of_key(tail, k));
            assert(ks.contains(k) <==> rest.contains(k)) by {
                if ks.contains(k) {
                    let i = choose|i: int| 0 <= i < ks.len() && ks[i] == k;
                    assert(rest[i - 1] == k);
                }
                if rest.contains(k) {
                    let i = choose|i: int| 0 <= i < rest.len() && rest[i] == k;
                    assert(ks[i + 1] == k);
                }
            }
        }
    }
}

/// In any pair listing of a map, the pairs that carry a key yield, in order,
/// exactly that key's value sequence — and an absent key yields nothing.
/// This holds whichever key order the listing took.
pub proof fn lemma_listing_per_key<K, V>(m: Map<K, Seq<V>>, ps: Seq<(K, V)>, k: K)
    requires
        lists_pairs_of(m, ps),
    ensures
        values_of_key(ps, k) == if m.contains_key(k) {
            m[k]
        } else {
            Seq::<V>::empty()
        },
{
    let ks = choose|ks: Seq<K>|
        {
            &&& ks.no_duplicates()
            &&& ks.to_set() == m.dom()
            &&& ps == pairs_in_order(m, ks)
        };
    lemma_pairs_in_order_values(m, ks, k);
    assert(ks.contains(k) <==> ks.to_set().contains(k));
}

/// A map built from a sequence of pairs holds a key exactly when the sequence
/// carries it, and maps it to that key's values in the order they stand in
/// the sequence.
pub proof fn lemma_grouped_per_key<K, V>(ps: Seq<(K, V)>, k: K)
    ensures
        grouped_by_key(ps).contains_key(k) <==> values_of_key(ps, k).len() != 0,
        grouped_by_key(ps).contains_key(k) ==> grouped_by_key(ps)[k] == values_of_key(ps, k),
    decreases ps.len(),
{
    if ps.len() == 0 {
        ps.lemma_filter_len(carries_key(k));
    } else {
        let pre = ps.drop_last();
        let p = ps.last();
        lemma_grouped_per_key(pre, k);
        assert(ps =~= pre.push(p));
        pre.lemma_filter_push(p, carries_key(k));
        if p.0 == k {
            assert(values_of_key(ps, k) =~= values_of_key(pre, k).push(p.1));
            if grouped_by_key(pre).contains_key(k) {
                assert(grouped_by_key(ps)[k] == grouped_by_key(pre)[k].push(p.1));
            } else {
                assert(values_of_key(pre, k) =~= Seq::<V>::empty());
                assert(grouped_by_key(ps)[k] =~= Seq::<V>::empty().push(p.1));
            }
        } else {
            assert(values_of_key(ps, k) == values_of_key(pre, k));
        }
    }
}

/// Inserting the same pair twice keeps both copies: the key's sequence is the
/// old one with the value appended twice, never deduplicated.
pub proof fn lemma_insert_pair_twice<K, V>(m: Map<K, Seq<V>>, k: K, v: V)
    ensures
        insert_pair(insert_pair(m, k, v), k, v).contains_key(k),
        insert_pair(insert_pair(m, k, v), k, v)[k] == (if m.contains_key(k) {
            m[k]
        } else {
            Seq::<V>::empty()
        }).push(v).push(v),
{
    assert(seq![v] =~= Seq::<V>::empty().push(v));
}

/// The total length of the blocks of the keys `ks` in model `m`.
spec fn total_values<K, V>(m: Map<K, Seq<V>>, ks: Seq<K>) -> int
    decreases ks.len(),
{
    if ks.len() == 0 {
        0
    } else {
        m[ks[0]].len() + total_values(m, ks.drop_first())
    }
}

/// The total length of the per-key filters of `ps` over the keys `ks`.
spec fn total_filtered<K, V>(ps: Seq<(K, V)>, ks: Seq<K>) -> int
    decreases ks.len(),
{
    if ks.len() == 0 {
        0
    } else {
        ps.filter(carries_key(ks[0])).len() + total_filtered(ps, ks.drop_first())
    }
}

/// A listing is as long as its keys' blocks together.
proof fn lemma_pairs_in_order_len<K, V>(m: Map<K, Seq<V>>, ks: Seq<K>)
    ensures
        pairs_in_order(m, ks).len() == total_values(m, ks),
    decreases ks.len(),
{
    if ks.len() > 0 {
        lemma_pairs_in_order_len(m, ks.drop_first());
    }
}

/// Where each listed key's block is its filter of `ps`, the block lengths sum
/// like the filter lengths.
proof fn lemma_total_values_eq_filtered<K, V>(m: Map<K, Seq<V>>, ps: Seq<(K, V)>, ks: Seq<K>)
    requires
        forall|j: int|
            0 <= j < ks.len() ==> m.contains_key(#[trigger] ks[j]) && m[ks[j]] == values_of_key(
                ps,
                ks[j],
            ),
    ensures
        total_values(m, ks) == total_filtered(ps, ks),
    decreases ks.len(),
{
    if ks.len() > 0 {
        let rest = ks.drop_first();
        assert forall|j: int|
            0 <= j < rest.len() implies m.contains_key(#[trigger] rest[j]) && m[rest[j]]
            == values_of_key(ps, rest[j]) by {
            assert(rest[j] == ks[j + 1]);
        }
        lemma_total_values_eq_filtered(m, ps, rest);
    }
}

/// Filters of the empty sequence contribute nothing.
proof fn lemma_total_filtered_empty<K, V>(ks: Seq<K>)
    ensures
        total_filtered(Seq::<(K, V)>::empty(), ks) == 0,
    decreases ks.len(),
{
    if ks.len() > 0 {
        Seq::<(K, V)>::empty().lemma_filter_len(carries_key(ks[0]));
        lemma_total_filtered_empty::<K, V>(ks.drop_first());
    }
}

/// Appending a pair raises the filter total by one when its key is among the
/// distinct keys `ks`, and not at all otherwise.
proof fn lemma_total_filtered_push<K, V>(ps: Seq<(K, V)>, p: (K, V), ks: Seq<K>)
    requires
        ks.no_duplicates(),
    ensures
        total_filtered(ps.push(p), ks) == total_filtered(ps, ks) + if ks.contains(p.0) {
            1int
        } else {
            0
        },
    decreases ks.len(),
{
    if ks.len() > 0 {
        let rest = ks.drop_first();
        lemma_drop_first_no_duplicates(ks);
        lemma_total_filtered_push(ps, p, rest);
        ps.lemma_filter_push(p, carries_key(ks[0]));
        if ks[0] == p.0 {
            assert forall|i: int| 0 <= i < rest.len() implies rest[i] != p.0 by {
                assert(rest[i] == ks[i + 1]);
            }
            assert(!rest.contains(p.0));
            assert(ks.contains(p.0)) by {
                assert(ks[0] == p.0);
            }
        } else {
            assert(ks.contains(p.0) <==> rest.contains(p.0)) by {
                if ks.contains(p.0) {
                    let i = choose|i: int| 0 <= i < ks.len() && ks[i] == p.0;
                    assert(rest[i - 1] == p.0);
                }
                if rest.contains(p.0) {
                    let i = choose|i: int| 0 <= i < rest.len() && rest[i] == p.0;
                    assert(ks[i + 1] == p.0);
                }
            }
        }
    }
}

/// When the distinct keys `ks` cover every pair's key, the per-key filters
/// together count every pair exactly once.
proof fn lemma_total_filtered_all<K, V>(ps: Seq<(K, V)>, ks: Seq<K>)
    requires
        ks.no_duplicates(),
        forall|i: int| 0 <= i < ps.len() ==> ks.contains(#[trigger] ps[i].0),
    ensures
        total_filtered(ps, ks) == ps.len(),
    decreases ps.len(),
{
    if ps.len() == 0 {
        assert(ps =~= Seq::<(K, V)>::empty());
        lemma_total_filtered_empty::<K, V>(ks);
    } else {
        let pre = ps.drop_last();
        assert(ps =~= pre.push(ps.last()));
        lemma_total_filtered_all(pre, ks);
        lemma_total_filtered_push(pre, ps.last(), ks);
        assert(ks.contains(ps[ps.len() - 1].0));
    }
}

/// Whatever key order a listing of a built map takes, it holds exactly one
/// pair per pair of the sequence the map was built from.
pub proof fn lemma_listing_total_count<K, V>(ps0: Seq<(K, V)>, ps1: Seq<(K, V)>)
    requires
        lists_pairs_of(grouped_by_key(ps0), ps1),
    ensures
        ps1.len() == ps0.len(),
{
    let m = grouped_by_key(ps0);
    let ks = choose|ks: Seq<K>|
        {
            &&& ks.no_duplicates()
            &&& ks.to_set() == m.dom()
            &&& ps1 == pairs_in_order(m, ks)
        };
    lemma_pairs_in_order_len(m, ks);
    assert forall|j: int|
        0 <= j < ks.len() implies m.contains_key(#[trigger] ks[j]) && m[ks[j]] == values_of_key(
        ps0,
        ks[j],
    ) by {
        assert(ks.to_set().contains(ks[j]));
        lemma_grouped_per_key(ps0, ks[j]);
    }
    lemma_total_values_eq_filtered(m, ps0, ks);
    assert forall|i: int| 0 <= i < ps0.len() implies ks.contains(#[trigger] ps0[i].0) by {
        let k = ps0[i].0;
        ps0.lemma_filter_contains(carries_key(k), i);
        assert(ps0.filter(carries_key(k)).contains(ps0[i]));
        lemma_grouped_per_key(ps0, k);
        assert(m.contains_key(k));
        assert(ks.to_set().contains(k));
    }
    lemma_total_filtered_all(ps0, ks);
}

/// Two pair sequences that agree on every key's values — whatever order their
/// keys are interleaved in — build the same map.
pub proof fn lemma_grouped_reorder<K, V>(ps1: Seq<(K, V)>, ps2: Seq<(K, V)>)
    requires
        forall|k: K| values_of_key(ps1, k) == values_of_key(ps2, k),
    ensures
        grouped_by_key(ps1) == grouped_by_key(ps2),
{
    assert forall|k: K|
        grouped_by_key(ps1).contains_key(k) <==> grouped_by_key(
            ps2,
        ).contains_key(k) by {
        lemma_grouped_per_key(ps1, k);
        lemma_grouped_per_key(ps2, k);
    }
    assert forall|k: K|
        #[trigger] grouped_by_key(ps1).contains_key(k) implies grouped_by_key(ps1)[k]
        == grouped_by_key(ps2)[k] by {
        lemma_grouped_per_key(ps1, k);
        lemma_grouped_per_key(ps2, k);
    }
    assert(grouped_by_key(ps1) =~~= grouped_by_key(ps2));
}

} // verus!
