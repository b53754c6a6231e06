//! The encoding of a dictionary does not depend on the order of its entries.
use vstd::prelude::*;
use vstd::multiset::Multiset;
use vstd::relations::total_ordering;
use vstd::seq_lib::lemma_sorted_unique;
use crate::encoder::{
    count_less, first_adjacent_duplicate, key_order, keys_of, lemma_count_less_bound, spec_encode,
    spec_encode_entries,
};
use crate::order::{
    bytes_lt, lemma_bytes_lt_asymmetric, lemma_bytes_lt_irreflexive, lemma_bytes_lt_total,
    lemma_bytes_lt_transitive,
};
use crate::value::SpecValue;
use super::sorting::{law_key_order_sorts, lemma_ordered_without_duplicates};

verus! {

broadcast use {vstd::seq_lib::group_to_multiset_ensures, vstd::multiset::group_multiset_axioms};

/// The first `n` entries, arranged in the order in which the encoder writes
/// them.
pub open spec fn arranged(entries: Seq<(Seq<u8>, SpecValue)>, n: int) -> Seq<(Seq<u8>, SpecValue)> {
    let order = key_order(keys_of(entries), n);
    Seq::new(n as nat, |q: int| entries[order[q]])
}

/// Raw-byte order with equality: `a` does not sort after `b`.
pub open spec fn bytes_le(a: Seq<u8>, b: Seq<u8>) -> bool {
    !bytes_lt(b, a)
}

proof fn lemma_bytes_le_total_ordering()
    ensures
        total_ordering(|a: Seq<u8>, b: Seq<u8>| bytes_le(a, b)),
{
    let leq = |a: Seq<u8>, b: Seq<u8>| bytes_le(a, b);
    assert forall|x: Seq<u8>| #[trigger] leq(x, x) by {
        lemma_bytes_lt_irreflexive(x);
    }
    assert forall|x: Seq<u8>, y: Seq<u8>| #[trigger] leq(x, y) && #[trigger] leq(y, x) implies x == y by {
        lemma_bytes_lt_total(x, y);
    }
    assert forall|x: Seq<u8>, y: Seq<u8>, z: Seq<u8>| #[trigger] leq(x, y) && #[trigger] leq(y, z) implies leq(x, z) by {
        if bytes_lt(z, x) {
            lemma_bytes_lt_total(x, y);
            if x != y {
                lemma_bytes_lt_transitive(z, x, y);
            }
        }
    }
    assert forall|x: Seq<u8>, y: Seq<u8>| #[trigger] leq(x, y) || #[trigger] leq(y, x) by {
        lemma_bytes_lt_asymmetric(x, y);
    }
}

/// Inserting an element into a sequence adds it to the sequence's multiset.
proof fn lemma_insert_to_multiset<A>(s: Seq<A>, p: int, x: A)
    requires
        0 <= p <= s.len(),
    ensures
        s.insert(p, x).to_multiset() =~= s.to_multiset().insert(x),
{
    let t = s.insert(p, x);
    assert(t.remove(p) =~= s);
    assert(t.remove(p).to_multiset() == t.to_multiset().remove(t[p]));
    assert(t.contains(x)) by {
        assert(t[p] == x);
    }
}

/// A multiset from which one occurrence of `a` was taken gets it back by
/// inserting `a`.
proof fn lemma_remove_then_insert<A>(m: Multiset<A>, a: A)
    requires
        m.count(a) > 0,
    ensures
        m.remove(a).insert(a) =~= m,
{
}

/// Mapping sequences with the same elements gives sequences with the same
/// elements.
proof fn lemma_map_to_multiset<A, B>(s: Seq<A>, t: Seq<A>, f: spec_fn(A) -> B)
    requires
        s.to_multiset() == t.to_multiset(),
    ensures
        s.map_values(f).to_multiset() == t.map_values(f).to_multiset(),
    decreases s.len(),
{
    if s.len() == 0 {
        assert(s.to_multiset().len() == 0);
        assert(t.to_multiset().len() == t.len());
        assert(t.len() == 0);
        assert(s.map_values(f) =~= t.map_values(f));
    } else {
        let x = s[0];
        assert(s.contains(x));
        assert(t.to_multiset().count(x) > 0);
        assert(t.contains(x));
        let i = choose|i: int| 0 <= i < t.len() && t[i] == x;
        assert(s.remove(0).to_multiset() == s.to_multiset().remove(x));
        assert(t.remove(i).to_multiset() == t.to_multiset().remove(x));
        lemma_map_to_multiset(s.remove(0), t.remove(i), f);
        let sm = s.map_values(f);
        let tm = t.map_values(f);
        assert(sm.remove(0) =~= s.remove(0).map_values(f));
        assert(tm.remove(i) =~= t.remove(i).map_values(f));
        assert(sm.remove(0).to_multiset() == sm.to_multiset().remove(f(x)));
        assert(tm.remove(i).to_multiset() == tm.to_multiset().remove(f(x)));
        assert(sm.contains(f(x))) by {
            assert(sm[0] == f(x));
        }
        assert(tm.contains(f(x))) by {
            assert(tm[i] == f(x));
        }
        lemma_remove_then_insert(sm.to_multiset(), f(x));
        lemma_remove_then_insert(tm.to_multiset(), f(x));
    }
}

/// The arrangement of the first `n` entries holds exactly those entries.
proof fn lemma_arranged_to_multiset(entries: Seq<(Seq<u8>, SpecValue)>, n: int)
    requires
        0 <= n <= entries.len(),
    ensures
        arranged(entries, n).to_multiset() == entries.take(n).to_multiset(),
    decreases n,
{
    if n == 0 {
        assert(arranged(entries, 0) =~= entries.take(0));
    } else {
        lemma_arranged_to_multiset(entries, n - 1);
        let keys = keys_of(entries);
        law_key_order_sorts(keys, n - 1);
        law_key_order_sorts(keys, n);
        let rest = key_order(keys, n - 1);
        let p = count_less(rest, keys, keys[n - 1]) as int;
        assert(p <= rest.len()) by {
            lemma_count_less_bound(rest, keys, keys[n - 1]);
        }
        assert(arranged(entries, n) =~= arranged(entries, n - 1).insert(p, entries[n - 1]));
        lemma_insert_to_multiset(arranged(entries, n - 1), p, entries[n - 1]);
        assert(entries.take(n) =~= entries.take(n - 1).push(entries[n - 1]));
    }
}

/// The key of an entry.
pub open spec fn entry_key(e: (Seq<u8>, SpecValue)) -> Seq<u8> {
    e.0
}

/// Dictionaries with the same entries, in whatever order, arrange their
/// entries alike when their keys differ, and arrange their keys alike in
/// any case.
proof fn lemma_arrangements_agree(e1: Seq<(Seq<u8>, SpecValue)>, e2: Seq<(Seq<u8>, SpecValue)>)
    requires
        e1.to_multiset() == e2.to_multiset(),
    ensures
        e1.len() == e2.len(),
        arranged(e1, e1.len() as int).map_values(|e: (Seq<u8>, SpecValue)| entry_key(e))
            == arranged(e2, e2.len() as int).map_values(|e: (Seq<u8>, SpecValue)| entry_key(e)),
        first_adjacent_duplicate(key_order(keys_of(e1), e1.len() as int), keys_of(e1), 0) is None
            ==> arranged(e1, e1.len() as int) == arranged(e2, e2.len() as int),
{
    let n = e1.len() as int;
    assert(e1.to_multiset().len() == e1.len());
    assert(e2.to_multiset().len() == e2.len());
    let a1 = arranged(e1, n);
    let a2 = arranged(e2, n);
    lemma_arranged_to_multiset(e1, n);
    lemma_arranged_to_multiset(e2, n);
    assert(e1.take(n) =~= e1);
    assert(e2.take(n) =~= e2);
    let f = |e: (Seq<u8>, SpecValue)| entry_key(e);
    let k1 = a1.map_values(f);
    let k2 = a2.map_values(f);
    lemma_map_to_multiset(a1, a2, f);
    let o1 = key_order(keys_of(e1), n);
    let o2 = key_order(keys_of(e2), n);
    law_key_order_sorts(keys_of(e1), n);
    law_key_order_sorts(keys_of(e2), n);
    let leq = |a: Seq<u8>, b: Seq<u8>| bytes_le(a, b);
    lemma_bytes_le_total_ordering();
    assert forall|i: int, j: int| 0 <= i < j < k1.len() implies #[trigger] leq(k1[i], k1[j]) by {
        assert(k1[i] == keys_of(e1)[o1[i]] && k1[j] == keys_of(e1)[o1[j]]);
    }
    assert forall|i: int, j: int| 0 <= i < j < k2.len() implies #[trigger] leq(k2[i], k2[j]) by {
        assert(k2[i] == keys_of(e2)[o2[i]] && k2[j] == keys_of(e2)[o2[j]]);
    }
    lemma_sorted_unique(k1, k2, leq);
    if first_adjacent_duplicate(o1, keys_of(e1), 0) is None {
        lemma_ordered_without_duplicates(o1, keys_of(e1));
        assert forall|q: int, r: int| 0 <= q < r < n implies #[trigger] k1[q] != #[trigger] k1[r] by {
            assert(k1[q] == keys_of(e1)[o1[q]] && k1[r] == keys_of(e1)[o1[r]]);
            lemma_bytes_lt_irreflexive(k1[q]);
        }
        assert forall|q: int| 0 <= q < n implies a1[q] == a2[q] by {
            assert(a2.contains(a2[q]));
            assert(a1.to_multiset().count(a2[q]) > 0);
            assert(a1.contains(a2[q]));
            let r = choose|r: int| 0 <= r < a1.len() && a1[r] == a2[q];
            assert(k1[r] == f(a1[r]));
            assert(k2[q] == f(a2[q]));
            assert(k1[q] == k2[q]);
            if r < q {
                assert(k1[r] != k1[q]);
            } else if q < r {
                assert(k1[q] != k1[r]);
            }
        }
        assert(a1 =~= a2);
    }
}

/// The encodings of entries taken in two orders agree when the entries
/// taken agree position by position.
proof fn lemma_entries_encode_alike(
    e1: Seq<(Seq<u8>, SpecValue)>,
    o1: Seq<int>,
    e2: Seq<(Seq<u8>, SpecValue)>,
    o2: Seq<int>,
    k: int,
    depth: int,
    max: int,
)
    requires
        0 <= k <= o1.len(),
        o1.len() == o2.len(),
        forall|q: int| 0 <= q < o1.len() ==> 0 <= #[trigger] o1[q] < e1.len(),
        forall|q: int| 0 <= q < o2.len() ==> 0 <= #[trigger] o2[q] < e2.len(),
        forall|q: int| 0 <= q < o1.len() ==> e1[#[trigger] o1[q]] == e2[o2[q]],
    ensures
        spec_encode_entries(e1, o1, k, depth, max) == spec_encode_entries(e2, o2, k, depth, max),
    decreases k,
{
    if k > 0 {
        lemma_entries_encode_alike(e1, o1, e2, o2, k - 1, depth, max);
        assert(e1[o1[k - 1]] == e2[o2[k - 1]]);
    }
}

/// The order of a dictionary's entries does not change its encoding, nor
/// the error that encoding reports: two dictionaries with the same entries,
/// in whatever order, encode alike.
pub proof fn law_encode_ignores_entry_order(
    e1: Seq<(Seq<u8>, SpecValue)>,
    e2: Seq<(Seq<u8>, SpecValue)>,
    depth: int,
    max: int,
)
    requires
        e1.to_multiset() == e2.to_multiset(),
    ensures
        spec_encode(SpecValue::Dictionary(e1), depth, max) == spec_encode(SpecValue::Dictionary(e2), depth, max),
{
    lemma_arrangements_agree(e1, e2);
    let n = e1.len() as int;
    let keys1 = keys_of(e1);
    let keys2 = keys_of(e2);
    let o1 = key_order(keys1, n);
    let o2 = key_order(keys2, n);
    law_key_order_sorts(keys1, n);
    law_key_order_sorts(keys2, n);
    let f = |e: (Seq<u8>, SpecValue)| entry_key(e);
    let k1 = arranged(e1, n).map_values(f);
    let k2 = arranged(e2, n).map_values(f);
    assert forall|q: int| 0 <= q < n implies #[trigger] keys1[o1[q]] == keys2[o2[q]] by {
        assert(k1[q] == keys1[o1[q]]);
        assert(k2[q] == keys2[o2[q]]);
    }
    lemma_same_duplicates(o1, keys1, o2, keys2, 0);
    if let Some(q) = first_adjacent_duplicate(o1, keys1, 0) {
        lemma_duplicate_in_range(o1, keys1, 0);
        assert(keys1[o1[q]] == keys2[o2[q]]);
    } else {
        assert forall|q: int| 0 <= q < o1.len() implies e1[#[trigger] o1[q]] == e2[o2[q]] by {
            assert(arranged(e1, n)[q] == e1[o1[q]]);
            assert(arranged(e2, n)[q] == e2[o2[q]]);
        }
        lemma_entries_encode_alike(e1, o1, e2, o2, n, depth + 1, max);
    }
}

proof fn lemma_duplicate_in_range(order: Seq<int>, keys: Seq<Seq<u8>>, from: int)
    requires
        first_adjacent_duplicate(order, keys, from) is Some,
    ensures
        0 <= first_adjacent_duplicate(order, keys, from)->Some_0 < order.len(),
    decreases order.len() - from,
{
    if keys[order[from]] != keys[order[from + 1]] {
        lemma_duplicate_in_range(order, keys, from + 1);
    }
}

proof fn lemma_same_duplicates(o1: Seq<int>, keys1: Seq<Seq<u8>>, o2: Seq<int>, keys2: Seq<Seq<u8>>, from: int)
    requires
        o1.len() == o2.len(),
        0 <= from,
        forall|q: int| 0 <= q < o1.len() ==> #[trigger] keys1[o1[q]] == keys2[o2[q]],
    ensures
        first_adjacent_duplicate(o1, keys1, from) == first_adjacent_duplicate(o2, keys2, from),
    decreases o1.len() - from,
{
    if from + 1 < o1.len() {
        assert(keys1[o1[from]] == keys2[o2[from]]);
        assert(keys1[o1[from + 1]] == keys2[o2[from + 1]]);
        lemma_same_duplicates(o1, keys1, o2, keys2, from + 1);
    }
}

} // verus!
