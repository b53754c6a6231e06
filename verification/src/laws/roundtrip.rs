//! Decoding what the encoder writes gives the value back in canonical form.
use vstd::prelude::*;
use crate::decoder::{
    first_index_of, spec_byte_string, spec_decode, spec_dictionary_entries, spec_integer,
    spec_list_items, spec_value, MAX_NESTING_DEPTH,
};
use crate::encoder::{
    byte_string_text, integer_text, key_order, keys_of, lemma_key_order_indices, spec_encode,
    spec_encode_entries, spec_encode_items,
};
use crate::errors::DecodeError;
use crate::order::bytes_lt;
use crate::text::{
    decimal_digits, decimal_value, is_digit, lemma_decimal_digits, COLON, DICTIONARY_MARKER,
    END_MARKER, INTEGER_MARKER, LIST_MARKER, MINUS,
};
use crate::value::SpecValue;
use super::encoding_facts::{lemma_encoding_starts, lemma_entries_prefix, lemma_items_prefix};
use super::forms::{
    canonical_entries, canonical_form, canonical_items, is_canonical, keys_ascending, representable,
};
use super::sorting::{
    law_key_order_sorts, lemma_key_order_of_ascending, lemma_ordered_without_duplicates,
};

verus! {

/// The first index of `b` from `from` is `t` when `s[t] == b` and no byte
/// in between is `b`.
pub(super) proof fn lemma_first_index_at(s: Seq<u8>, from: int, t: int, b: u8)
    requires
        0 <= from <= t < s.len(),
        s[t] == b,
        forall|k: int| from <= k < t ==> s[k] != b,
    ensures
        first_index_of(s, from, b) == Some(t),
    decreases t - from,
{
    if from < t {
        lemma_first_index_at(s, from + 1, t, b);
    }
}

/// The text of a byte string, found at `off`, decodes to the byte string.
pub(super) proof fn lemma_byte_string_roundtrip(b: Seq<u8>, input: Seq<u8>, off: int)
    requires
        0 <= off,
        off + byte_string_text(b).len() <= input.len(),
        input.len() <= usize::MAX,
        input.subrange(off, off + byte_string_text(b).len()) == byte_string_text(b),
    ensures
        spec_byte_string(input, off) == Ok::<(Seq<u8>, int), DecodeError>(
            (b, off + byte_string_text(b).len()),
        ),
        is_digit(input[off]),
{
    let t = byte_string_text(b);
    let digits = decimal_digits(b.len());
    lemma_decimal_digits(b.len());
    let sep = off + digits.len();
    assert forall|k: int| off <= k < sep implies input[k] != COLON by {
        assert(input[k] == t[k - off]);
        assert(t[k - off] == digits[k - off]);
        assert(is_digit(digits[k - off]));
    }
    assert(input[sep] == t[digits.len() as int]);
    lemma_first_index_at(input, off, sep, COLON);
    assert(input.subrange(off, sep) =~= digits);
    assert(input.subrange(sep + 1, sep + 1 + b.len()) =~= b) by {
        assert forall|k: int| 0 <= k < b.len() implies input.subrange(sep + 1, sep + 1 + b.len())[k] == b[k] by {
            assert(input[sep + 1 + k] == t[digits.len() + 1 + k]);
        }
    }
    assert(input[off] == t[0]);
    assert(is_digit(digits[0]));
}

/// The text of an integer, found at `off`, decodes to the integer.
proof fn lemma_integer_roundtrip(i: int, input: Seq<u8>, off: int)
    requires
        i64::MIN <= i <= i64::MAX,
        0 <= off,
        off + integer_text(i).len() + 2 <= input.len(),
        input.subrange(off, off + integer_text(i).len() + 2) == seq![INTEGER_MARKER] + integer_text(i)
            + seq![END_MARKER],
    ensures
        spec_integer(input, off) == Ok::<(SpecValue, int), DecodeError>(
            (SpecValue::Integer(i), off + integer_text(i).len() + 2),
        ),
{
    let text = integer_text(i);
    let whole = seq![INTEGER_MARKER] + text + seq![END_MARKER];
    let magnitude: nat = if i < 0 { (-i) as nat } else { i as nat };
    let digits = decimal_digits(magnitude);
    lemma_decimal_digits(magnitude);
    let end = off + 1 + text.len();
    assert(input[off] == whole[0]);
    assert forall|k: int| off + 1 <= k < end implies input[k] != END_MARKER by {
        assert(input[k] == whole[k - off]);
        assert(whole[k - off] == text[k - off - 1]);
        if i < 0 {
            if k - off - 1 > 0 {
                assert(text[k - off - 1] == digits[k - off - 2]);
                assert(is_digit(digits[k - off - 2]));
            }
        } else {
            assert(is_digit(digits[k - off - 1]));
        }
    }
    assert(input[end] == whole[text.len() + 1int]);
    lemma_first_index_at(input, off + 1, end, END_MARKER);
    let number = input.subrange(off + 1, end);
    assert forall|k: int| 0 <= k < text.len() implies number[k] == text[k] by {
        assert(input[off + 1 + k] == whole[1 + k]);
    }
    assert(number =~= text);
    if i < 0 {
        assert(number[0] == MINUS);
        assert(number.drop_first() =~= digits);
        if digits[0] == 48u8 {
            assert(digits.len() == 1);
            assert(digits.drop_last().len() == 0);
            assert(decimal_value(digits.drop_last()) == 0);
            assert(digits.last() == 48u8);
            assert(decimal_value(digits) == 0);
        }
    } else {
        assert(number.len() > 0 ==> number[0] != MINUS) by {
            assert(is_digit(digits[0]));
        }
    }
}

/// The encoding of a value, found at `off`, decodes to its canonical form and
/// ends where the encoding ends.
pub(super) proof fn lemma_value_roundtrip(v: SpecValue, depth: int, max: int, input: Seq<u8>, off: int)
    requires
        representable(v),
        0 <= depth,
        max <= MAX_NESTING_DEPTH,
        spec_encode(v, depth, max) is Ok,
        0 <= off,
        off + spec_encode(v, depth, max)->Ok_0.len() <= input.len(),
        input.len() <= usize::MAX,
        input.subrange(off, off + spec_encode(v, depth, max)->Ok_0.len()) == spec_encode(v, depth, max)->Ok_0,
    ensures
        spec_value(input, off, depth) == Ok::<(SpecValue, int), DecodeError>(
            (canonical_form(v), off + spec_encode(v, depth, max)->Ok_0.len()),
        ),
    decreases v, 0int,
{
    let s = spec_encode(v, depth, max)->Ok_0;
    lemma_encoding_starts(v, depth, max);
    assert(input[off] == s[0]);
    match v {
        SpecValue::Integer(i) => {
            lemma_integer_roundtrip(i, input, off);
        },
        SpecValue::Bytes(b) => {
            lemma_byte_string_roundtrip(b, input, off);
        },
        SpecValue::List(items) => {
            let body = spec_encode_items(items, items.len() as int, depth + 1, max)->Ok_0;
            assert(s == seq![LIST_MARKER] + body + seq![END_MARKER]);
            assert(input.subrange(off + 1, off + 1 + body.len()) =~= body) by {
                assert forall|k: int| 0 <= k < body.len() implies input.subrange(off + 1, off + 1 + body.len())[k] == body[k] by {
                    assert(input[off + 1 + k] == s[1 + k]);
                }
            }
            assert(input[off + 1 + body.len()] == s[1int + body.len()]);
            lemma_items_roundtrip(items, 0, depth + 1, max, input, off + 1);
            assert(spec_encode_items(items, 0, depth + 1, max)->Ok_0.len() == 0);
            assert(canonical_items(items).subrange(0, items.len() as int) =~= canonical_form(v)->List_0);
        },
        SpecValue::Dictionary(entries) => {
            let keys = keys_of(entries);
            let order = key_order(keys, entries.len() as int);
            lemma_key_order_indices(keys, entries.len() as int);
            let body = spec_encode_entries(entries, order, order.len() as int, depth + 1, max)->Ok_0;
            assert(s == seq![DICTIONARY_MARKER] + body + seq![END_MARKER]);
            assert(input.subrange(off + 1, off + 1 + body.len()) =~= body) by {
                assert forall|k: int| 0 <= k < body.len() implies input.subrange(off + 1, off + 1 + body.len())[k] == body[k] by {
                    assert(input[off + 1 + k] == s[1 + k]);
                }
            }
            assert(input[off + 1 + body.len()] == s[1int + body.len()]);
            lemma_entries_roundtrip(entries, order, 0, depth + 1, max, input, off + 1);
            assert(spec_encode_entries(entries, order, 0, depth + 1, max)->Ok_0.len() == 0);
            assert(canonical_entries(entries, order).subrange(0, order.len() as int) =~= canonical_form(v)->Dictionary_0);
        },
    }
}

/// The encodings of `items[k..]`, found one after another at their place
/// in the encoding of a list body that starts at `p` and is followed by
/// `e`, decode to their canonical forms and end after that `e`.
proof fn lemma_items_roundtrip(items: Seq<SpecValue>, k: int, depth: int, max: int, input: Seq<u8>, p: int)
    requires
        0 <= k <= items.len(),
        forall|j: int| 0 <= j < items.len() ==> representable(#[trigger] items[j]),
        0 <= depth,
        max <= MAX_NESTING_DEPTH,
        spec_encode_items(items, items.len() as int, depth, max) is Ok,
        0 <= p,
        p + spec_encode_items(items, items.len() as int, depth, max)->Ok_0.len() < input.len(),
        input.len() <= usize::MAX,
        input.subrange(p, p + spec_encode_items(items, items.len() as int, depth, max)->Ok_0.len())
            == spec_encode_items(items, items.len() as int, depth, max)->Ok_0,
        input[p + spec_encode_items(items, items.len() as int, depth, max)->Ok_0.len()] == END_MARKER,
    ensures
        spec_encode_items(items, k, depth, max) is Ok,
        spec_list_items(input, p + spec_encode_items(items, k, depth, max)->Ok_0.len(), depth) == Ok::<
            (Seq<SpecValue>, int),
            DecodeError,
        >(
            (
                canonical_items(items).subrange(k, items.len() as int),
                p + spec_encode_items(items, items.len() as int, depth, max)->Ok_0.len() + 1,
            ),
        ),
    decreases items, items.len() - k,
{
    let n = items.len() as int;
    let body = spec_encode_items(items, n, depth, max)->Ok_0;
    lemma_items_prefix(items, k, n, depth, max);
    let pre = spec_encode_items(items, k, depth, max)->Ok_0;
    let c = p + pre.len();
    if k == n {
        assert(canonical_items(items).subrange(k, n) =~= Seq::<SpecValue>::empty());
    } else {
        lemma_items_prefix(items, k + 1, n, depth, max);
        let next_pre = spec_encode_items(items, k + 1, depth, max)->Ok_0;
        let enc = spec_encode(items[k], depth, max)->Ok_0;
        assert(next_pre == pre + enc);
        assert(input.subrange(c, c + enc.len()) =~= enc) by {
            assert forall|j: int| 0 <= j < enc.len() implies input.subrange(c, c + enc.len())[j] == enc[j] by {
                assert(body.take(next_pre.len() as int)[pre.len() + j] == next_pre[pre.len() + j]);
                assert(input[c + j] == body[pre.len() + j]);
            }
        }
        lemma_encoding_starts(items[k], depth, max);
        assert(input[c] == enc[0]);
        lemma_value_roundtrip(items[k], depth, max, input, c);
        lemma_items_roundtrip(items, k + 1, depth, max, input, p);
        assert(canonical_items(items).subrange(k, n) =~= seq![canonical_form(items[k])]
            + canonical_items(items).subrange(k + 1, n));
    }
}

/// The encodings of the entries `order[q..]`, found one after another at
/// their place in the encoding of a dictionary body that starts at `p` and
/// is followed by `e`, decode to those entries with canonical values and end
/// after that `e`.
proof fn lemma_entries_roundtrip(
    entries: Seq<(Seq<u8>, SpecValue)>,
    order: Seq<int>,
    q: int,
    depth: int,
    max: int,
    input: Seq<u8>,
    p: int,
)
    requires
        0 <= q <= order.len(),
        forall|j: int| 0 <= j < order.len() ==> 0 <= #[trigger] order[j] < entries.len(),
        forall|j: int| 0 <= j < entries.len() ==> representable(#[trigger] entries[j].1),
        0 <= depth,
        max <= MAX_NESTING_DEPTH,
        spec_encode_entries(entries, order, order.len() as int, depth, max) is Ok,
        0 <= p,
        p + spec_encode_entries(entries, order, order.len() as int, depth, max)->Ok_0.len() < input.len(),
        input.len() <= usize::MAX,
        input.subrange(p, p + spec_encode_entries(entries, order, order.len() as int, depth, max)->Ok_0.len())
            == spec_encode_entries(entries, order, order.len() as int, depth, max)->Ok_0,
        input[p + spec_encode_entries(entries, order, order.len() as int, depth, max)->Ok_0.len()] == END_MARKER,
    ensures
        spec_encode_entries(entries, order, q, depth, max) is Ok,
        spec_dictionary_entries(input, p + spec_encode_entries(entries, order, q, depth, max)->Ok_0.len(), depth)
            == Ok::<(Seq<(Seq<u8>, SpecValue)>, int), DecodeError>(
            (
                canonical_entries(entries, order).subrange(q, order.len() as int),
                p + spec_encode_entries(entries, order, order.len() as int, depth, max)->Ok_0.len() + 1,
            ),
        ),
    decreases entries, order.len() - q,
{
    let n = order.len() as int;
    let body = spec_encode_entries(entries, order, n, depth, max)->Ok_0;
    lemma_entries_prefix(entries, order, q, n, depth, max);
    let pre = spec_encode_entries(entries, order, q, depth, max)->Ok_0;
    let c = p + pre.len();
    if q == n {
        assert(canonical_entries(entries, order).subrange(q, n) =~= Seq::<(Seq<u8>, SpecValue)>::empty());
    } else {
        lemma_entries_prefix(entries, order, q + 1, n, depth, max);
        let next_pre = spec_encode_entries(entries, order, q + 1, depth, max)->Ok_0;
        let j = order[q];
        let key_text = byte_string_text(entries[j].0);
        let enc = spec_encode(entries[j].1, depth, max)->Ok_0;
        assert(next_pre == pre + key_text + enc);
        let whole = key_text + enc;
        assert(input.subrange(c, c + whole.len()) =~= whole) by {
            assert forall|i: int| 0 <= i < whole.len() implies input.subrange(c, c + whole.len())[i] == whole[i] by {
                assert(body.take(next_pre.len() as int)[pre.len() + i] == next_pre[pre.len() + i]);
                assert(input[c + i] == body[pre.len() + i]);
            }
        }
        assert(input.subrange(c, c + key_text.len()) =~= key_text) by {
            assert forall|i: int| 0 <= i < key_text.len() implies input.subrange(c, c + key_text.len())[i] == key_text[i] by {
                assert(input.subrange(c, c + whole.len())[i] == whole[i]);
            }
        }
        let value_off = c + key_text.len();
        assert(input.subrange(value_off, value_off + enc.len()) =~= enc) by {
            assert forall|i: int| 0 <= i < enc.len() implies input.subrange(value_off, value_off + enc.len())[i] == enc[i] by {
                assert(input.subrange(c, c + whole.len())[key_text.len() + i] == whole[key_text.len() + i]);
            }
        }
        lemma_byte_string_roundtrip(entries[j].0, input, c);
        lemma_decimal_digits(entries[j].0.len());
        lemma_encoding_starts(entries[j].1, depth, max);
        assert(input[value_off] == enc[0]);
        lemma_value_roundtrip(entries[j].1, depth, max, input, value_off);
        lemma_entries_roundtrip(entries, order, q + 1, depth, max, input, p);
        assert(canonical_entries(entries, order).subrange(q, n) =~= seq![(entries[j].0, canonical_form(entries[j].1))]
            + canonical_entries(entries, order).subrange(q + 1, n));
    }
}

/// Decoding what the encoder writes gives the value back in canonical form:
/// each dictionary's entries in raw-byte key order. This holds for any limit
/// on nesting that the decoder's own limit of 100 admits, and for any value
/// whose integers fit in `i64` (as those of every [`crate::Value`] do).
pub proof fn law_decode_after_encode(v: SpecValue, max: int)
    requires
        representable(v),
        max <= MAX_NESTING_DEPTH,
        spec_encode(v, 0, max) is Ok,
        spec_encode(v, 0, max)->Ok_0.len() <= usize::MAX,
    ensures
        spec_decode(spec_encode(v, 0, max)->Ok_0) == Ok::<SpecValue, DecodeError>(
            canonical_form(v),
        ),
{
    let s = spec_encode(v, 0, max)->Ok_0;
    lemma_encoding_starts(v, 0, max);
    assert(s.subrange(0, s.len() as int) =~= s);
    lemma_value_roundtrip(v, 0, max, s, 0);
}

/// A canonical value is its own canonical form.
pub proof fn law_canonical_form_of_canonical(v: SpecValue)
    requires
        is_canonical(v),
    ensures
        canonical_form(v) == v,
    decreases v,
{
    match v {
        SpecValue::List(items) => {
            assert forall|k: int| 0 <= k < items.len() implies canonical_form(items[k]) == items[k] by {
                law_canonical_form_of_canonical(items[k]);
            }
            assert(canonical_form(v)->List_0 =~= items);
        },
        SpecValue::Dictionary(entries) => {
            let keys = keys_of(entries);
            lemma_key_order_of_ascending(keys, entries.len() as int);
            assert forall|k: int| 0 <= k < entries.len() implies canonical_form(entries[k].1) == entries[k].1 by {
                law_canonical_form_of_canonical(entries[k].1);
            }
            assert(canonical_form(v)->Dictionary_0 =~= entries);
        },
        _ => {},
    }
}

/// Whatever the encoder accepts, it writes in canonical form: the keys of
/// every dictionary strictly ascending in raw-byte order.
pub proof fn law_encoder_writes_canonical_form(v: SpecValue, depth: int, max: int)
    requires
        spec_encode(v, depth, max) is Ok,
    ensures
        is_canonical(canonical_form(v)),
    decreases v,
{
    match v {
        SpecValue::List(items) => {
            let n = items.len() as int;
            assert forall|k: int| 0 <= k < n implies is_canonical(#[trigger] canonical_form(v)->List_0[k]) by {
                lemma_items_prefix(items, k + 1, n, depth + 1, max);
                assert(spec_encode(items[k], depth + 1, max) is Ok);
                law_encoder_writes_canonical_form(items[k], depth + 1, max);
            }
        },
        SpecValue::Dictionary(entries) => {
            let keys = keys_of(entries);
            let n = entries.len() as int;
            let order = key_order(keys, n);
            law_key_order_sorts(keys, n);
            lemma_ordered_without_duplicates(order, keys);
            let es = canonical_form(v)->Dictionary_0;
            assert(keys_ascending(keys_of(es))) by {
                assert forall|i: int, j: int| 0 <= i < j < keys_of(es).len() implies bytes_lt(
                    #[trigger] keys_of(es)[i],
                    #[trigger] keys_of(es)[j],
                ) by {
                    assert(keys_of(es)[i] == keys[order[i]]);
                    assert(keys_of(es)[j] == keys[order[j]]);
                }
            }
            assert forall|q: int| 0 <= q < n implies is_canonical(#[trigger] es[q].1) by {
                lemma_entries_prefix(entries, order, q + 1, n, depth + 1, max);
                assert(spec_encode(entries[order[q]].1, depth + 1, max) is Ok);
                law_encoder_writes_canonical_form(entries[order[q]].1, depth + 1, max);
            }
        },
        _ => {},
    }
}

/// Decoding what the encoder writes for a canonical value gives the value
/// itself.
pub proof fn law_decode_after_encode_canonical(v: SpecValue, max: int)
    requires
        representable(v),
        is_canonical(v),
        max <= MAX_NESTING_DEPTH,
        spec_encode(v, 0, max) is Ok,
        spec_encode(v, 0, max)->Ok_0.len() <= usize::MAX,
    ensures
        spec_decode(spec_encode(v, 0, max)->Ok_0) == Ok::<SpecValue, DecodeError>(v),
{
    law_decode_after_encode(v, max);
    law_canonical_form_of_canonical(v);
}

} // verus!
