//! Encoding what the decoder reads from an encoding gives the same bytes,
//! under any nesting limit.
use vstd::prelude::*;
use crate::decoder::{spec_decode, MAX_NESTING_DEPTH};
use crate::encoder::{key_order, keys_of, spec_encode, spec_encode_entries, spec_encode_items};
use crate::order::bytes_lt;
use crate::value::SpecValue;
use super::encoding_facts::lemma_encoding_starts;
use super::forms::{canonical_form, identity_order, keys_ascending, representable};
use super::limits::law_limit_does_not_change_bytes;
use super::roundtrip::law_decode_after_encode;
use super::too_deep::lemma_value_too_deep;
use super::sorting::{
    law_key_order_sorts, lemma_ascending_no_duplicate, lemma_key_order_of_ascending,
    lemma_ordered_without_duplicates,
};

verus! {

/// A value that encodes and its canonical form encode to the same bytes.
pub proof fn law_canonical_form_encodes_alike(v: SpecValue, depth: int, max: int)
    requires
        spec_encode(v, depth, max) is Ok,
    ensures
        spec_encode(canonical_form(v), depth, max) == spec_encode(v, depth, max),
    decreases v, 0int,
{
    match v {
        SpecValue::List(items) => {
            let ci = canonical_form(v)->List_0;
            lemma_items_canonical(items, ci, items.len() as int, depth + 1, max);
        },
        SpecValue::Dictionary(entries) => {
            let n = entries.len() as int;
            let keys = keys_of(entries);
            let order = key_order(keys, n);
            law_key_order_sorts(keys, n);
            lemma_ordered_without_duplicates(order, keys);
            let ce = canonical_form(v)->Dictionary_0;
            let ckeys = keys_of(ce);
            assert forall|i: int, j: int| 0 <= i < j < ckeys.len() implies bytes_lt(
                #[trigger] ckeys[i],
                #[trigger] ckeys[j],
            ) by {
                assert(ckeys[i] == keys[order[i]] && ckeys[j] == keys[order[j]]);
            }
            assert(keys_ascending(ckeys));
            lemma_key_order_of_ascending(ckeys, n);
            assert(key_order(ckeys, n) == identity_order(ckeys.len() as int));
            lemma_ascending_no_duplicate(ckeys, 0);
            lemma_entries_canonical(entries, order, ce, n, depth + 1, max);
        },
        _ => {},
    }
}

proof fn lemma_items_canonical(items: Seq<SpecValue>, ci: Seq<SpecValue>, n: int, depth: int, max: int)
    requires
        spec_encode_items(items, n, depth, max) is Ok,
        ci.len() == items.len(),
        forall|k: int| 0 <= k < items.len() ==> #[trigger] ci[k] == canonical_form(items[k]),
    ensures
        spec_encode_items(ci, n, depth, max) == spec_encode_items(items, n, depth, max),
    decreases items, n,
{
    if 0 < n <= items.len() {
        lemma_items_canonical(items, ci, n - 1, depth, max);
        assert(ci[n - 1] == canonical_form(items[n - 1]));
        law_canonical_form_encodes_alike(items[n - 1], depth, max);
    }
}

proof fn lemma_entries_canonical(
    entries: Seq<(Seq<u8>, SpecValue)>,
    order: Seq<int>,
    ce: Seq<(Seq<u8>, SpecValue)>,
    k: int,
    depth: int,
    max: int,
)
    requires
        0 <= k <= order.len(),
        order.len() == entries.len(),
        ce.len() == entries.len(),
        forall|q: int| 0 <= q < order.len() ==> 0 <= #[trigger] order[q] < entries.len(),
        forall|q: int| 0 <= q < ce.len() ==> #[trigger] ce[q] == (entries[order[q]].0, canonical_form(entries[order[q]].1)),
        spec_encode_entries(entries, order, k, depth, max) is Ok,
    ensures
        spec_encode_entries(ce, identity_order(ce.len() as int), k, depth, max) == spec_encode_entries(
            entries,
            order,
            k,
            depth,
            max,
        ),
    decreases entries, k,
{
    if k > 0 {
        lemma_entries_canonical(entries, order, ce, k - 1, depth, max);
        let j = order[k - 1];
        assert(identity_order(ce.len() as int)[k - 1] == k - 1);
        assert(ce[k - 1] == (entries[j].0, canonical_form(entries[j].1)));
        law_canonical_form_encodes_alike(entries[j].1, depth, max);
    }
}

/// Encoding is canonical under any nesting limit: when the encoder writes
/// `v` under `max` and the decoder reads a value back from those bytes,
/// encoding that value under `max` writes the very same bytes.
pub proof fn law_reencode_decoded(v: SpecValue, max: int)
    requires
        representable(v),
        spec_encode(v, 0, max) is Ok,
        spec_encode(v, 0, max)->Ok_0.len() <= usize::MAX,
        spec_decode(spec_encode(v, 0, max)->Ok_0) is Ok,
    ensures
        spec_encode(spec_decode(spec_encode(v, 0, max)->Ok_0)->Ok_0, 0, max) == spec_encode(v, 0, max),
{
    let s = spec_encode(v, 0, max)->Ok_0;
    let limit = MAX_NESTING_DEPTH as int;
    lemma_encoding_starts(v, 0, max);
    assert(s.subrange(0, s.len() as int) =~= s);
    if spec_encode(v, 0, limit) is Err {
        lemma_value_too_deep(v, 0, max, s, 0);
    } else {
        law_limit_does_not_change_bytes(v, 0, max, limit);
        law_decode_after_encode(v, limit);
        law_canonical_form_encodes_alike(v, 0, max);
    }
}

} // verus!
