//! The forms of values that the laws speak of: canonical values, values
//! whose integers fit in `i64`, and the canonical form of any value.
use vstd::prelude::*;
use crate::encoder::{key_order, keys_of};
use crate::order::bytes_lt;
use crate::value::{SpecValue, Value};

verus! {

/// Every integer in `v` fits in `i64`, as in the view of any [`crate::Value`].
pub open spec fn representable(v: SpecValue) -> bool
    decreases v,
{
    match v {
        SpecValue::Integer(i) => i64::MIN <= i <= i64::MAX,
        SpecValue::Bytes(_) => true,
        SpecValue::List(items) => forall|k: int| 0 <= k < items.len() ==> representable(#[trigger] items[k]),
        SpecValue::Dictionary(entries) => forall|k: int|
            0 <= k < entries.len() ==> representable(#[trigger] entries[k].1),
    }
}

/// `v` with the entries of each dictionary arranged in raw-byte key order,
/// which is the order in which the encoder writes them.
pub open spec fn canonical_form(v: SpecValue) -> SpecValue
    decreases v,
{
    match v {
        SpecValue::Integer(i) => SpecValue::Integer(i),
        SpecValue::Bytes(b) => SpecValue::Bytes(b),
        SpecValue::List(items) => SpecValue::List(
            Seq::new(
                items.len(),
                |k: int|
                    if 0 <= k < items.len() {
                        canonical_form(items[k])
                    } else {
                        SpecValue::Integer(0)
                    },
            ),
        ),
        SpecValue::Dictionary(entries) => {
            let order = key_order(keys_of(entries), entries.len() as int);
            SpecValue::Dictionary(
                Seq::new(
                    entries.len(),
                    |q: int|
                        if 0 <= q < order.len() && 0 <= order[q] < entries.len() {
                            (entries[order[q]].0, canonical_form(entries[order[q]].1))
                        } else {
                            (Seq::empty(), SpecValue::Integer(0))
                        },
                ),
            )
        },
    }
}

/// The canonical forms of a sequence of values.
pub open spec fn canonical_items(items: Seq<SpecValue>) -> Seq<SpecValue> {
    Seq::new(items.len(), |k: int| canonical_form(items[k]))
}

/// The entries taken in `order`, each value in canonical form.
pub open spec fn canonical_entries(entries: Seq<(Seq<u8>, SpecValue)>, order: Seq<int>) -> Seq<
    (Seq<u8>, SpecValue),
> {
    Seq::new(order.len(), |q: int| (entries[order[q]].0, canonical_form(entries[order[q]].1)))
}

/// Keys in strictly ascending raw-byte order.
pub open spec fn keys_ascending(keys: Seq<Seq<u8>>) -> bool {
    forall|i: int, j: int| 0 <= i < j < keys.len() ==> bytes_lt(#[trigger] keys[i], #[trigger] keys[j])
}

/// A canonical value: the keys of every dictionary in it are strictly
/// ascending in raw-byte order (so none is repeated).
pub open spec fn is_canonical(v: SpecValue) -> bool
    decreases v,
{
    match v {
        SpecValue::Integer(_) => true,
        SpecValue::Bytes(_) => true,
        SpecValue::List(items) => forall|k: int| 0 <= k < items.len() ==> is_canonical(#[trigger] items[k]),
        SpecValue::Dictionary(entries) => {
            &&& keys_ascending(keys_of(entries))
            &&& forall|k: int| 0 <= k < entries.len() ==> is_canonical(#[trigger] entries[k].1)
        },
    }
}

/// Along `order`, no key sorts strictly before an earlier one.
pub open spec fn ordered_along(order: Seq<int>, keys: Seq<Seq<u8>>) -> bool {
    forall|q: int, r: int|
        0 <= q < r < order.len() ==> !bytes_lt(#[trigger] keys[order[r]], #[trigger] keys[order[q]])
}

/// The indices `0..n` in order.
pub open spec fn identity_order(n: int) -> Seq<int> {
    Seq::new(n as nat, |i: int| i)
}

/// `p` is a prefix of `q`.
pub open spec fn is_prefix(p: Seq<u8>, q: Seq<u8>) -> bool {
    p.len() <= q.len() && q.take(p.len() as int) == p
}

/// The view of every [`Value`] is representable: its integers are `i64`.
pub proof fn law_values_are_representable(v: Value)
    ensures
        representable(v@),
    decreases v,
{
    match v {
        Value::List(items) => {
            assert forall|k: int| 0 <= k < v@->List_0.len() implies representable(#[trigger] v@->List_0[k]) by {
                assert(v@->List_0[k] == items@[k]@);
                law_values_are_representable(items@[k]);
            }
        },
        Value::Dictionary(entries) => {
            assert forall|k: int| 0 <= k < v@->Dictionary_0.len() implies representable(#[trigger] v@->Dictionary_0[k].1) by {
                assert(v@->Dictionary_0[k].1 == entries@[k].1@);
                law_values_are_representable(entries@[k].1);
            }
        },
        _ => {},
    }
}

} // verus!
