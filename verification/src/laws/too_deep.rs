//! An encoding whose nesting exceeds the decoder's limit does not decode.
use vstd::prelude::*;
use crate::decoder::{spec_dictionary_entries, spec_list_items, spec_value, MAX_NESTING_DEPTH};
use crate::encoder::{
    byte_string_text, key_order, keys_of, lemma_key_order_indices, spec_encode,
    spec_encode_entries, spec_encode_items,
};
use crate::text::{lemma_decimal_digits, DICTIONARY_MARKER, END_MARKER, LIST_MARKER};
use crate::value::SpecValue;
use super::encoding_facts::{lemma_encoding_starts, lemma_entries_prefix, lemma_items_prefix};
use super::forms::representable;
use super::limits::law_limit_does_not_change_bytes;
use super::roundtrip::{lemma_byte_string_roundtrip, lemma_value_roundtrip};

verus! {

/// The encoding of a value under some limit, found at `off`, fails to
/// decode when the value does not encode under the decoder's own limit.
pub(super) proof fn lemma_value_too_deep(v: SpecValue, depth: int, max: int, input: Seq<u8>, off: int)
    requires
        representable(v),
        0 <= depth,
        spec_encode(v, depth, max) is Ok,
        spec_encode(v, depth, MAX_NESTING_DEPTH as int) is Err,
        0 <= off,
        off + spec_encode(v, depth, max)->Ok_0.len() <= input.len(),
        input.len() <= usize::MAX,
        input.subrange(off, off + spec_encode(v, depth, max)->Ok_0.len()) == spec_encode(v, depth, max)->Ok_0,
    ensures
        spec_value(input, off, depth) is Err,
    decreases v, 0int,
{
    let s = spec_encode(v, depth, max)->Ok_0;
    lemma_encoding_starts(v, depth, max);
    assert(input[off] == s[0]);
    if depth < MAX_NESTING_DEPTH {
        match v {
            SpecValue::List(items) => {
                let body = spec_encode_items(items, items.len() as int, depth + 1, max)->Ok_0;
                assert(s == seq![LIST_MARKER] + body + seq![END_MARKER]);
                assert(input.subrange(off + 1, off + 1 + body.len()) =~= body) by {
                    assert forall|k: int| 0 <= k < body.len() implies input.subrange(off + 1, off + 1 + body.len())[k] == body[k] by {
                        assert(input[off + 1 + k] == s[1 + k]);
                    }
                }
                assert(input[off + 1 + body.len()] == s[1int + body.len()]);
                assert(spec_encode_items(items, 0, depth + 1, MAX_NESTING_DEPTH as int) is Ok);
                lemma_items_too_deep(items, 0, depth + 1, max, input, off + 1);
                assert(spec_encode_items(items, 0, depth + 1, max)->Ok_0.len() == 0);
            },
            SpecValue::Dictionary(entries) => {
                let keys = keys_of(entries);
                let order = key_order(keys, entries.len() as int);
                lemma_key_order_indices(keys, entries.len() as int);
                let body = spec_encode_entries(entries, order, order.len() as int, depth + 1, max)->Ok_0;
                assert(s == seq![DICTIONARY_MARKER] + body + seq![END_MARKER]);
                assert(input.subrange(off + 1, off + 1 + body.len()) =~= body) by {
                    assert forall|k: int| 0 <= k < body.len() implies input.subrange(off + 1, off + 1 + body.len())[k] == body[k] by {
                        assert(input[off + 1 + k] == s[1 + k]);
                    }
                }
                assert(input[off + 1 + body.len()] == s[1int + body.len()]);
                assert(spec_encode_entries(entries, order, 0, depth + 1, MAX_NESTING_DEPTH as int) is Ok);
                lemma_entries_too_deep(entries, order, 0, depth + 1, max, input, off + 1);
                assert(spec_encode_entries(entries, order, 0, depth + 1, max)->Ok_0.len() == 0);
            },
            _ => {},
        }
    }
}

/// Inside a list body laid out as the encoder writes it under `max`, the
/// items from `k` on fail to decode when some item from `k` on does not
/// encode under the decoder's limit.
proof fn lemma_items_too_deep(items: Seq<SpecValue>, k: int, depth: int, max: int, input: Seq<u8>, p: int)
    requires
        0 <= k <= items.len(),
        forall|j: int| 0 <= j < items.len() ==> representable(#[trigger] items[j]),
        0 <= depth,
        spec_encode_items(items, items.len() as int, depth, max) is Ok,
        spec_encode_items(items, items.len() as int, depth, MAX_NESTING_DEPTH as int) is Err,
        spec_encode_items(items, k, depth, MAX_NESTING_DEPTH as int) is Ok,
        0 <= p,
        p + spec_encode_items(items, items.len() as int, depth, max)->Ok_0.len() < input.len(),
        input.len() <= usize::MAX,
        input.subrange(p, p + spec_encode_items(items, items.len() as int, depth, max)->Ok_0.len())
            == spec_encode_items(items, items.len() as int, depth, max)->Ok_0,
    ensures
        spec_encode_items(items, k, depth, max) is Ok,
        spec_list_items(input, p + spec_encode_items(items, k, depth, max)->Ok_0.len(), depth) is Err,
    decreases items, items.len() - k,
{
    let n = items.len() as int;
    let limit = MAX_NESTING_DEPTH as int;
    let body = spec_encode_items(items, n, depth, max)->Ok_0;
    lemma_items_prefix(items, k, n, depth, max);
    let pre = spec_encode_items(items, k, depth, max)->Ok_0;
    let c = p + pre.len();
    if k == n {
        assert(false);
    } else {
        lemma_items_prefix(items, k + 1, n, depth, max);
        let next_pre = spec_encode_items(items, k + 1, depth, max)->Ok_0;
        let enc = spec_encode(items[k], depth, max)->Ok_0;
        assert(next_pre == pre + enc);
        assert(input.subrange(c, c + enc.len()) =~= enc) by {
            assert forall|j: int| 0 <= j < enc.len() implies input.subrange(c, c + enc.len())[j] == enc[j] by {
                assert(body.take(next_pre.len() as int)[pre.len() + j] == next_pre[pre.len() + j]);
                assert(input[c + j] == body[pre.len() + j]);
            }
        }
        lemma_encoding_starts(items[k], depth, max);
        assert(input[c] == enc[0]);
        if spec_encode(items[k], depth, limit) is Err {
            lemma_value_too_deep(items[k], depth, max, input, c);
        } else {
            law_limit_does_not_change_bytes(items[k], depth, max, limit);
            lemma_value_roundtrip(items[k], depth, limit, input, c);
            lemma_items_too_deep(items, k + 1, depth, max, input, p);
        }
    }
}

/// Inside a dictionary body laid out as the encoder writes it under `max`,
/// the entries `order[q..]` fail to decode when one of their values does not
/// encode under the decoder's limit.
proof fn lemma_entries_too_deep(
    entries: Seq<(Seq<u8>, SpecValue)>,
    order: Seq<int>,
    q: int,
    depth: int,
    max: int,
    input: Seq<u8>,
    p: int,
)
    requires
        0 <= q <= order.len(),
        forall|j: int| 0 <= j < order.len() ==> 0 <= #[trigger] order[j] < entries.len(),
        forall|j: int| 0 <= j < entries.len() ==> representable(#[trigger] entries[j].1),
        0 <= depth,
        spec_encode_entries(entries, order, order.len() as int, depth, max) is Ok,
        spec_encode_entries(entries, order, order.len() as int, depth, MAX_NESTING_DEPTH as int) is Err,
        spec_encode_entries(entries, order, q, depth, MAX_NESTING_DEPTH as int) is Ok,
        0 <= p,
        p + spec_encode_entries(entries, order, order.len() as int, depth, max)->Ok_0.len() < input.len(),
        input.len() <= usize::MAX,
        input.subrange(p, p + spec_encode_entries(entries, order, order.len() as int, depth, max)->Ok_0.len())
            == spec_encode_entries(entries, order, order.len() as int, depth, max)->Ok_0,
    ensures
        spec_encode_entries(entries, order, q, depth, max) is Ok,
        spec_dictionary_entries(input, p + spec_encode_entries(entries, order, q, depth, max)->Ok_0.len(), depth) is Err,
    decreases entries, order.len() - q,
{
    let n = order.len() as int;
    let limit = MAX_NESTING_DEPTH as int;
    let body = spec_encode_entries(entries, order, n, depth, max)->Ok_0;
    lemma_entries_prefix(entries, order, q, n, depth, max);
    let pre = spec_encode_entries(entries, order, q, depth, max)->Ok_0;
    let c = p + pre.len();
    if q == n {
        assert(false);
    } else {
        lemma_entries_prefix(entries, order, q + 1, n, depth, max);
        let next_pre = spec_encode_entries(entries, order, q + 1, depth, max)->Ok_0;
        let j = order[q];
        let key_text = byte_string_text(entries[j].0);
        let enc = spec_encode(entries[j].1, depth, max)->Ok_0;
        assert(next_pre == pre + key_text + enc);
        let whole = key_text + enc;
        assert(input.subrange(c, c + whole.len()) =~= whole) by {
            assert forall|i: int| 0 <= i < whole.len() implies input.subrange(c, c + whole.len())[i] == whole[i] by {
                assert(body.take(next_pre.len() as int)[pre.len() + i] == next_pre[pre.len() + i]);
                assert(input[c + i] == body[pre.len() + i]);
            }
        }
        assert(input.subrange(c, c + key_text.len()) =~= key_text) by {
            assert forall|i: int| 0 <= i < key_text.len() implies input.subrange(c, c + key_text.len())[i] == key_text[i] by {
                assert(input.subrange(c, c + whole.len())[i] == whole[i]);
            }
        }
        let value_off = c + key_text.len();
        assert(input.subrange(value_off, value_off + enc.len()) =~= enc) by {
            assert forall|i: int| 0 <= i < enc.len() implies input.subrange(value_off, value_off + enc.len())[i] == enc[i] by {
                assert(input.subrange(c, c + whole.len())[key_text.len() + i] == whole[key_text.len() + i]);
            }
        }
        lemma_byte_string_roundtrip(entries[j].0, input, c);
        lemma_decimal_digits(entries[j].0.len());
        lemma_encoding_starts(entries[j].1, depth, max);
        assert(input[value_off] == enc[0]);
        if spec_encode(entries[j].1, depth, limit) is Err {
            lemma_value_too_deep(entries[j].1, depth, max, input, value_off);
        } else {
            law_limit_does_not_change_bytes(entries[j].1, depth, max, limit);
            lemma_value_roundtrip(entries[j].1, depth, limit, input, value_off);
            lemma_entries_too_deep(entries, order, q + 1, depth, max, input, p);
        }
    }
}

} // verus!
