//! The order in which the encoder writes dictionary entries sorts their keys.
use vstd::prelude::*;
use crate::encoder::{count_less, first_adjacent_duplicate, key_order, lemma_key_order_indices};
use crate::order::{
    bytes_lt, lemma_bytes_lt_asymmetric, lemma_bytes_lt_irreflexive, lemma_bytes_lt_total,
    lemma_bytes_lt_transitive,
};
use super::forms::{identity_order, keys_ascending, ordered_along};

verus! {

/// In an ordered arrangement the keys smaller than `x` come first, and
/// `count_less` counts exactly them.
proof fn lemma_count_less_split(order: Seq<int>, keys: Seq<Seq<u8>>, x: Seq<u8>)
    requires
        ordered_along(order, keys),
    ensures
        count_less(order, keys, x) <= order.len(),
        forall|q: int| 0 <= q < count_less(order, keys, x) ==> bytes_lt(#[trigger] keys[order[q]], x),
        forall|q: int|
            count_less(order, keys, x) <= q < order.len() ==> !bytes_lt(#[trigger] keys[order[q]], x),
    decreases order.len(),
{
    if order.len() > 0 {
        let rest = order.drop_last();
        assert(ordered_along(rest, keys)) by {
            assert forall|q: int, r: int| 0 <= q < r < rest.len() implies !bytes_lt(
                #[trigger] keys[rest[r]],
                #[trigger] keys[rest[q]],
            ) by {
                assert(rest[q] == order[q] && rest[r] == order[r]);
            }
        }
        lemma_count_less_split(rest, keys, x);
        let p = count_less(rest, keys, x);
        let last = keys[order.last()];
        if bytes_lt(last, x) {
            assert forall|q: int| 0 <= q < rest.len() implies bytes_lt(#[trigger] keys[order[q]], x) by {
                assert(rest[q] == order[q]);
                let e = keys[order[q]];
                assert(!bytes_lt(keys[order[order.len() - 1]], keys[order[q]]));
                lemma_bytes_lt_total(e, last);
                if e != last {
                    lemma_bytes_lt_transitive(e, last, x);
                }
            }
            if p < rest.len() {
                assert(rest[p as int] == order[p as int]);
                assert(bytes_lt(keys[order[p as int]], x));
            }
        } else {
            assert forall|q: int| 0 <= q < count_less(order, keys, x) implies bytes_lt(
                #[trigger] keys[order[q]],
                x,
            ) by {
                assert(rest[q] == order[q]);
            }
            assert forall|q: int| count_less(order, keys, x) <= q < order.len() implies !bytes_lt(
                #[trigger] keys[order[q]],
                x,
            ) by {
                if q < rest.len() {
                    assert(rest[q] == order[q]);
                }
            }
        }
    }
}

/// The key order of `n` keys holds each of `0..n` once, and along it no key
/// sorts strictly before an earlier one.
pub proof fn law_key_order_sorts(keys: Seq<Seq<u8>>, n: int)
    requires
        0 <= n <= keys.len(),
    ensures
        key_order(keys, n).len() == n,
        forall|q: int| 0 <= q < n ==> 0 <= #[trigger] key_order(keys, n)[q] < n,
        forall|q: int, r: int|
            0 <= q < r < n ==> #[trigger] key_order(keys, n)[q] != #[trigger] key_order(keys, n)[r],
        ordered_along(key_order(keys, n), keys),
    decreases n,
{
    lemma_key_order_indices(keys, n);
    if n > 0 {
        let rest = key_order(keys, n - 1);
        law_key_order_sorts(keys, n - 1);
        let x = keys[n - 1];
        lemma_count_less_split(rest, keys, x);
        let p = count_less(rest, keys, x) as int;
        let o = key_order(keys, n);
        assert(o == rest.insert(p, n - 1));
        assert forall|q: int| 0 <= q < n implies (q < p ==> #[trigger] o[q] == rest[q]) && (q == p ==> o[q]
            == n - 1) && (q > p ==> o[q] == rest[q - 1]) by {}
        assert forall|q: int, r: int| 0 <= q < r < n implies #[trigger] o[q] != #[trigger] o[r] by {}
        assert forall|q: int, r: int| 0 <= q < r < n implies !bytes_lt(#[trigger] keys[o[r]], #[trigger] keys[o[q]]) by {
            if q < p && r < p {
            } else if q < p && r == p {
                assert(bytes_lt(keys[rest[q]], x));
                lemma_bytes_lt_asymmetric(keys[rest[q]], x);
            } else if q < p && r > p {
                assert(o[r] == rest[r - 1]);
            } else if q == p {
                assert(o[r] == rest[r - 1]);
                assert(!bytes_lt(keys[rest[r - 1]], x));
            } else {
                assert(o[r] == rest[r - 1] && o[q] == rest[q - 1]);
            }
        }
    }
}

/// The key order of keys that are already strictly ascending is `0..n`.
pub(super) proof fn lemma_key_order_of_ascending(keys: Seq<Seq<u8>>, n: int)
    requires
        0 <= n <= keys.len(),
        keys_ascending(keys),
    ensures
        key_order(keys, n) == Seq::new(n as nat, |i: int| i),
    decreases n,
{
    if n > 0 {
        lemma_key_order_of_ascending(keys, n - 1);
        let rest = key_order(keys, n - 1);
        assert(ordered_along(rest, keys)) by {
            assert forall|q: int, r: int| 0 <= q < r < rest.len() implies !bytes_lt(
                #[trigger] keys[rest[r]],
                #[trigger] keys[rest[q]],
            ) by {
                lemma_bytes_lt_asymmetric(keys[q], keys[r]);
            }
        }
        lemma_count_less_split(rest, keys, keys[n - 1]);
        let p = count_less(rest, keys, keys[n - 1]) as int;
        if p < n - 1 {
            assert(rest[p] == p);
            assert(bytes_lt(keys[p], keys[n - 1]));
        }
        assert(key_order(keys, n) =~= Seq::new(n as nat, |i: int| i));
    }
}

/// With no two equal keys next to each other, an ordered arrangement is
/// strictly ascending.
pub(super) proof fn lemma_ordered_without_duplicates(order: Seq<int>, keys: Seq<Seq<u8>>)
    requires
        ordered_along(order, keys),
        first_adjacent_duplicate(order, keys, 0) is None,
    ensures
        forall|q: int, r: int| 0 <= q < r < order.len() ==> bytes_lt(#[trigger] keys[order[q]], #[trigger] keys[order[r]]),
{
    assert forall|q: int| 0 <= q < order.len() - 1 implies bytes_lt(#[trigger] keys[order[q]], keys[order[q + 1]]) by {
        lemma_no_adjacent_duplicate(order, keys, 0, q);
        lemma_bytes_lt_total(keys[order[q]], keys[order[q + 1]]);
    }
    assert forall|q: int, r: int| 0 <= q < r < order.len() implies bytes_lt(#[trigger] keys[order[q]], #[trigger] keys[order[r]]) by {
        lemma_ascending_chain(order, keys, q, r);
    }
}

proof fn lemma_no_adjacent_duplicate(order: Seq<int>, keys: Seq<Seq<u8>>, from: int, q: int)
    requires
        0 <= from <= q < order.len() - 1,
        first_adjacent_duplicate(order, keys, from) is None,
    ensures
        keys[order[q]] != keys[order[q + 1]],
    decreases q - from,
{
    if from < q {
        lemma_no_adjacent_duplicate(order, keys, from + 1, q);
    }
}

proof fn lemma_ascending_chain(order: Seq<int>, keys: Seq<Seq<u8>>, q: int, r: int)
    requires
        0 <= q < r < order.len(),
        forall|k: int| 0 <= k < order.len() - 1 ==> bytes_lt(#[trigger] keys[order[k]], keys[order[k + 1]]),
    ensures
        bytes_lt(keys[order[q]], keys[order[r]]),
    decreases r - q,
{
    if q + 1 < r {
        lemma_ascending_chain(order, keys, q, r - 1);
        assert(bytes_lt(keys[order[r - 1]], keys[order[r]]));
        lemma_bytes_lt_transitive(keys[order[q]], keys[order[r - 1]], keys[order[r]]);
    }
}

/// Ascending keys have no two equal keys next to each other.
pub(super) proof fn lemma_ascending_no_duplicate(keys: Seq<Seq<u8>>, from: int)
    requires
        keys_ascending(keys),
        0 <= from,
    ensures
        first_adjacent_duplicate(identity_order(keys.len() as int), keys, from) is None,
    decreases keys.len() - from,
{
    let o = identity_order(keys.len() as int);
    if from + 1 < o.len() {
        assert(o[from] == from && o[from + 1] == from + 1);
        assert(bytes_lt(keys[from], keys[from + 1]));
        lemma_bytes_lt_irreflexive(keys[from]);
        lemma_ascending_no_duplicate(keys, from + 1);
    }
}

} // verus!
