//! What the encoder's nesting limit allows.
use vstd::prelude::*;
use crate::encoder::{key_order, keys_of, spec_encode, spec_encode_entries, spec_encode_items};
use crate::errors::SpecEncodeError;
use crate::value::SpecValue;

verus! {

/// The nesting limit counts only enclosing containers: an integer or a byte
/// string encodes at any depth, and a list or dictionary at a depth of `max`
/// or more is refused with the limit. So a limit of `0` allows scalar values
/// but rejects every list or dictionary.
pub proof fn law_nesting_limit(v: SpecValue, depth: int, max: int)
    ensures
        (v is Integer || v is Bytes) ==> spec_encode(v, depth, max) is Ok,
        (v is List || v is Dictionary) && depth >= max ==> spec_encode(v, depth, max)
            == Err::<Seq<u8>, SpecEncodeError>(SpecEncodeError::NestingTooDeep(max as usize)),
{
}

/// Raising the nesting limit keeps a success and its bytes: what encodes
/// under a limit encodes to the same bytes under any higher one.
pub proof fn law_raising_the_limit(v: SpecValue, depth: int, max: int, higher: int)
    requires
        spec_encode(v, depth, max) is Ok,
        max <= higher,
    ensures
        spec_encode(v, depth, higher) == spec_encode(v, depth, max),
    decreases v, 0int,
{
    match v {
        SpecValue::List(items) => {
            lemma_items_raising_the_limit(items, items.len() as int, depth + 1, max, higher);
        },
        SpecValue::Dictionary(entries) => {
            let keys = keys_of(entries);
            let order = key_order(keys, entries.len() as int);
            lemma_entries_raising_the_limit(entries, order, order.len() as int, depth + 1, max, higher);
        },
        _ => {},
    }
}

proof fn lemma_items_raising_the_limit(items: Seq<SpecValue>, n: int, depth: int, max: int, higher: int)
    requires
        spec_encode_items(items, n, depth, max) is Ok,
        max <= higher,
    ensures
        spec_encode_items(items, n, depth, higher) == spec_encode_items(items, n, depth, max),
    decreases items, n,
{
    if 0 < n <= items.len() {
        lemma_items_raising_the_limit(items, n - 1, depth, max, higher);
        law_raising_the_limit(items[n - 1], depth, max, higher);
    }
}

proof fn lemma_entries_raising_the_limit(
    entries: Seq<(Seq<u8>, SpecValue)>,
    order: Seq<int>,
    n: int,
    depth: int,
    max: int,
    higher: int,
)
    requires
        spec_encode_entries(entries, order, n, depth, max) is Ok,
        max <= higher,
    ensures
        spec_encode_entries(entries, order, n, depth, higher) == spec_encode_entries(entries, order, n, depth, max),
    decreases entries, n,
{
    if 0 < n <= order.len() {
        lemma_entries_raising_the_limit(entries, order, n - 1, depth, max, higher);
        let j = order[n - 1];
        if 0 <= j < entries.len() {
            law_raising_the_limit(entries[j].1, depth, max, higher);
        }
    }
}

/// Two limits under which a value encodes give the same bytes.
pub proof fn law_limit_does_not_change_bytes(v: SpecValue, depth: int, m1: int, m2: int)
    requires
        spec_encode(v, depth, m1) is Ok,
        spec_encode(v, depth, m2) is Ok,
    ensures
        spec_encode(v, depth, m1) == spec_encode(v, depth, m2),
{
    if m1 <= m2 {
        law_raising_the_limit(v, depth, m1, m2);
    } else {
        law_raising_the_limit(v, depth, m2, m1);
    }
}

} // verus!
