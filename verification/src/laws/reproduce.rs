//! Encoding reproduces canonical input byte for byte.
use vstd::prelude::*;
use crate::decoder::{
    first_index_of, spec_byte_string, spec_decode, spec_dictionary_entries, spec_integer,
    spec_list_items, spec_value, MAX_NESTING_DEPTH,
};
use crate::encoder::{
    byte_string_text, integer_text, key_order, keys_of, spec_encode, spec_encode_entries,
    spec_encode_items,
};
use crate::errors::SpecEncodeError;
use crate::text::{
    canonical_numeral, decimal_value, is_digit, lemma_canonical_numeral_unique,
    lemma_value_nonzero_lead, COLON, DICTIONARY_MARKER, END_MARKER, INTEGER_MARKER, LIST_MARKER,
    MINUS,
};
use super::encoding_facts::{lemma_entries_cons, lemma_items_cons};
use super::forms::{identity_order, is_canonical};
use super::prefix::{
    lemma_byte_string_stable, lemma_entries_stable, lemma_items_stable, lemma_self_prefix,
    lemma_value_stable,
};
use super::sorting::{lemma_ascending_no_duplicate, lemma_key_order_of_ascending};

verus! {

proof fn lemma_first_index_found(s: Seq<u8>, from: int, b: u8)
    requires
        first_index_of(s, from, b) is Some,
    ensures
        from <= first_index_of(s, from, b)->Some_0 < s.len(),
        s[first_index_of(s, from, b)->Some_0] == b,
        forall|k: int| from <= k < first_index_of(s, from, b)->Some_0 ==> s[k] != b,
    decreases s.len() - from,
{
    if s[from] != b {
        lemma_first_index_found(s, from + 1, b);
    }
}

/// The integer that the decoder reads at `off` is written back as the same
/// bytes.
proof fn lemma_integer_text_back(input: Seq<u8>, off: int)
    requires
        spec_integer(input, off) is Ok,
    ensures
        spec_encode(spec_integer(input, off)->Ok_0.0, 0, 0) == Ok::<Seq<u8>, SpecEncodeError>(
            input.subrange(off, spec_integer(input, off)->Ok_0.1),
        ),
{
    lemma_first_index_found(input, off + 1, END_MARKER);
    let end = first_index_of(input, off + 1, END_MARKER)->Some_0;
    let number = input.subrange(off + 1, end);
    let neg = number.len() > 0 && number[0] == MINUS;
    let digits = if neg { number.drop_first() } else { number };
    assert(canonical_numeral(digits));
    lemma_canonical_numeral_unique(digits);
    let i = spec_integer(input, off)->Ok_0.0->Integer_0;
    if neg {
        lemma_value_nonzero_lead(digits);
        assert(integer_text(i) =~= number);
    } else {
        assert(integer_text(i) =~= number);
    }
    assert(seq![INTEGER_MARKER] + integer_text(i) + seq![END_MARKER] =~= input.subrange(off, end + 1));
}

/// The byte string that the decoder reads at `off` is written back as the
/// same bytes.
proof fn lemma_byte_string_text_back(input: Seq<u8>, off: int)
    requires
        spec_byte_string(input, off) is Ok,
    ensures
        byte_string_text(spec_byte_string(input, off)->Ok_0.0) == input.subrange(off, spec_byte_string(input, off)->Ok_0.1),
{
    lemma_first_index_found(input, off, COLON);
    let sep = first_index_of(input, off, COLON)->Some_0;
    let length_text = input.subrange(off, sep);
    lemma_canonical_numeral_unique(length_text);
    let payload = spec_byte_string(input, off)->Ok_0.0;
    assert(payload.len() == decimal_value(length_text));
    assert(byte_string_text(payload) =~= input.subrange(off, spec_byte_string(input, off)->Ok_0.1));
}

/// A canonical value that the decoder reads at `off` is written back by the
/// encoder as the very bytes it was read from.
proof fn lemma_value_text_back(input: Seq<u8>, off: int, depth: int)
    requires
        spec_value(input, off, depth) is Ok,
        is_canonical(spec_value(input, off, depth)->Ok_0.0),
        0 <= depth,
    ensures
        spec_encode(spec_value(input, off, depth)->Ok_0.0, depth, MAX_NESTING_DEPTH as int) == Ok::<
            Seq<u8>,
            SpecEncodeError,
        >(input.subrange(off, spec_value(input, off, depth)->Ok_0.1)),
    decreases input.len() - off, 2nat,
{
    lemma_self_prefix(input);
    lemma_value_stable(input, input, off, depth);
    let marker = input[off];
    if marker == INTEGER_MARKER {
        lemma_integer_text_back(input, off);
    } else if is_digit(marker) {
        lemma_byte_string_text_back(input, off);
    } else if marker == LIST_MARKER {
        lemma_items_text_back(input, off + 1, depth + 1);
        let (items, end) = spec_list_items(input, off + 1, depth + 1)->Ok_0;
        assert(seq![LIST_MARKER] + input.subrange(off + 1, end - 1) + seq![END_MARKER] =~= input.subrange(off, end));
    } else {
        lemma_entries_text_back(input, off + 1, depth + 1);
        let (entries, end) = spec_dictionary_entries(input, off + 1, depth + 1)->Ok_0;
        let keys = keys_of(entries);
        lemma_key_order_of_ascending(keys, entries.len() as int);
        assert(key_order(keys, entries.len() as int) == identity_order(keys.len() as int));
        lemma_ascending_no_duplicate(keys, 0);
        assert(seq![DICTIONARY_MARKER] + input.subrange(off + 1, end - 1) + seq![END_MARKER] =~= input.subrange(off, end));
    }
}

proof fn lemma_items_text_back(input: Seq<u8>, cursor: int, depth: int)
    requires
        spec_list_items(input, cursor, depth) is Ok,
        forall|k: int| 0 <= k < spec_list_items(input, cursor, depth)->Ok_0.0.len()
            ==> is_canonical(#[trigger] spec_list_items(input, cursor, depth)->Ok_0.0[k]),
        0 <= depth,
    ensures
        cursor < spec_list_items(input, cursor, depth)->Ok_0.1,
        input[spec_list_items(input, cursor, depth)->Ok_0.1 - 1] == END_MARKER,
        spec_encode_items(
            spec_list_items(input, cursor, depth)->Ok_0.0,
            spec_list_items(input, cursor, depth)->Ok_0.0.len() as int,
            depth,
            MAX_NESTING_DEPTH as int,
        ) == Ok::<Seq<u8>, SpecEncodeError>(
            input.subrange(cursor, spec_list_items(input, cursor, depth)->Ok_0.1 - 1),
        ),
    decreases input.len() - cursor, 3nat,
{
    lemma_self_prefix(input);
    lemma_items_stable(input, input, cursor, depth);
    let (items, end) = spec_list_items(input, cursor, depth)->Ok_0;
    if input[cursor] == END_MARKER {
        assert(input.subrange(cursor, cursor) =~= Seq::<u8>::empty());
    } else {
        let (v, next) = spec_value(input, cursor, depth)->Ok_0;
        let rest = spec_list_items(input, next, depth)->Ok_0.0;
        assert(items == seq![v] + rest);
        assert(items[0] == v);
        assert forall|k: int| 0 <= k < rest.len() implies is_canonical(#[trigger] rest[k]) by {
            assert(items[k + 1] == rest[k]);
        }
        lemma_value_stable(input, input, cursor, depth);
        lemma_value_text_back(input, cursor, depth);
        lemma_items_stable(input, input, next, depth);
        lemma_items_text_back(input, next, depth);
        lemma_items_cons(v, rest, rest.len() as int, depth, MAX_NESTING_DEPTH as int);
        assert(input.subrange(cursor, next) + input.subrange(next, end - 1) =~= input.subrange(cursor, end - 1));
    }
}

proof fn lemma_entries_text_back(input: Seq<u8>, cursor: int, depth: int)
    requires
        spec_dictionary_entries(input, cursor, depth) is Ok,
        forall|k: int| 0 <= k < spec_dictionary_entries(input, cursor, depth)->Ok_0.0.len()
            ==> is_canonical(#[trigger] spec_dictionary_entries(input, cursor, depth)->Ok_0.0[k].1),
        0 <= depth,
    ensures
        cursor < spec_dictionary_entries(input, cursor, depth)->Ok_0.1,
        input[spec_dictionary_entries(input, cursor, depth)->Ok_0.1 - 1] == END_MARKER,
        spec_encode_entries(
            spec_dictionary_entries(input, cursor, depth)->Ok_0.0,
            identity_order(spec_dictionary_entries(input, cursor, depth)->Ok_0.0.len() as int),
            spec_dictionary_entries(input, cursor, depth)->Ok_0.0.len() as int,
            depth,
            MAX_NESTING_DEPTH as int,
        ) == Ok::<Seq<u8>, SpecEncodeError>(
            input.subrange(cursor, spec_dictionary_entries(input, cursor, depth)->Ok_0.1 - 1),
        ),
    decreases input.len() - cursor, 3nat,
{
    lemma_self_prefix(input);
    lemma_entries_stable(input, input, cursor, depth);
    let (entries, end) = spec_dictionary_entries(input, cursor, depth)->Ok_0;
    if input[cursor] == END_MARKER {
        assert(input.subrange(cursor, cursor) =~= Seq::<u8>::empty());
    } else {
        let (key, value_off) = spec_byte_string(input, cursor)->Ok_0;
        let (v, next) = spec_value(input, value_off, depth)->Ok_0;
        let rest = spec_dictionary_entries(input, next, depth)->Ok_0.0;
        assert(entries == seq![(key, v)] + rest);
        assert(entries[0] == (key, v));
        assert forall|k: int| 0 <= k < rest.len() implies is_canonical(#[trigger] rest[k].1) by {
            assert(entries[k + 1] == rest[k]);
        }
        lemma_byte_string_text_back(input, cursor);
        lemma_byte_string_stable(input, input, cursor);
        assert(is_canonical(entries[0].1));
        lemma_value_stable(input, input, value_off, depth);
        lemma_value_text_back(input, value_off, depth);
        lemma_entries_stable(input, input, next, depth);
        lemma_entries_text_back(input, next, depth);
        lemma_entries_cons((key, v), rest, rest.len() as int, depth, MAX_NESTING_DEPTH as int);
        assert(input.subrange(cursor, value_off) + input.subrange(value_off, next) + input.subrange(next, end - 1)
            =~= input.subrange(cursor, end - 1));
    }
}

/// Encoding is the inverse of decoding on canonical input: when what the
/// decoder reads from `input` is canonical, the encoder with its default
/// nesting limit writes exactly `input` back.
pub proof fn law_encode_after_decode(input: Seq<u8>)
    requires
        spec_decode(input) is Ok,
        is_canonical(spec_decode(input)->Ok_0),
    ensures
        spec_encode(spec_decode(input)->Ok_0, 0, MAX_NESTING_DEPTH as int) == Ok::<Seq<u8>, SpecEncodeError>(
            input,
        ),
{
    lemma_self_prefix(input);
    lemma_value_stable(input, input, 0, 0);
    lemma_value_text_back(input, 0, 0);
    assert(input.subrange(0, input.len() as int) =~= input);
}

} // verus!
