//! Decoding looks only at the bytes it consumes, so no proper prefix of a
//! decodable input decodes.
use vstd::prelude::*;
use crate::decoder::{
    first_index_of, spec_byte_string, spec_decode, spec_dictionary, spec_dictionary_entries,
    spec_integer, spec_list, spec_list_items, spec_value,
};
use crate::text::{
    decimal_value, is_digit, COLON, DICTIONARY_MARKER, END_MARKER, INTEGER_MARKER, LIST_MARKER,
};
use super::forms::is_prefix;

verus! {

proof fn lemma_prefix_index(p: Seq<u8>, q: Seq<u8>, i: int)
    requires
        is_prefix(p, q),
        0 <= i < p.len(),
    ensures
        q[i] == p[i],
{
    assert(q.take(p.len() as int)[i] == q[i]);
}

proof fn lemma_first_index_stable(p: Seq<u8>, q: Seq<u8>, from: int, b: u8)
    requires
        is_prefix(p, q),
        first_index_of(p, from, b) is Some,
    ensures
        first_index_of(q, from, b) == first_index_of(p, from, b),
        from <= first_index_of(p, from, b)->Some_0 < p.len(),
    decreases p.len() - from,
{
    lemma_prefix_index(p, q, from);
    if p[from] != b {
        lemma_first_index_stable(p, q, from + 1, b);
    }
}

proof fn lemma_subrange_stable(p: Seq<u8>, q: Seq<u8>, a: int, b: int)
    requires
        is_prefix(p, q),
        0 <= a <= b <= p.len(),
    ensures
        q.subrange(a, b) == p.subrange(a, b),
{
    assert forall|i: int| 0 <= i < b - a implies q.subrange(a, b)[i] == p.subrange(a, b)[i] by {
        lemma_prefix_index(p, q, a + i);
    }
    assert(q.subrange(a, b) =~= p.subrange(a, b));
}

proof fn lemma_integer_stable(p: Seq<u8>, q: Seq<u8>, off: int)
    requires
        is_prefix(p, q),
        spec_integer(p, off) is Ok,
    ensures
        spec_integer(q, off) == spec_integer(p, off),
        off < spec_integer(p, off)->Ok_0.1 <= p.len(),
{
    lemma_prefix_index(p, q, off);
    lemma_first_index_stable(p, q, off + 1, END_MARKER);
    let end = first_index_of(p, off + 1, END_MARKER)->Some_0;
    lemma_subrange_stable(p, q, off + 1, end);
}

pub(super) proof fn lemma_byte_string_stable(p: Seq<u8>, q: Seq<u8>, off: int)
    requires
        is_prefix(p, q),
        spec_byte_string(p, off) is Ok,
    ensures
        spec_byte_string(q, off) == spec_byte_string(p, off),
        off < spec_byte_string(p, off)->Ok_0.1 <= p.len(),
{
    lemma_first_index_stable(p, q, off, COLON);
    let sep = first_index_of(p, off, COLON)->Some_0;
    lemma_subrange_stable(p, q, off, sep);
    let n = decimal_value(p.subrange(off, sep)) as int;
    lemma_subrange_stable(p, q, sep + 1, sep + 1 + n);
}

pub(super) proof fn lemma_value_stable(p: Seq<u8>, q: Seq<u8>, off: int, depth: int)
    requires
        is_prefix(p, q),
        spec_value(p, off, depth) is Ok,
    ensures
        spec_value(q, off, depth) == spec_value(p, off, depth),
        off < spec_value(p, off, depth)->Ok_0.1 <= p.len(),
    decreases p.len() - off, 2nat,
{
    lemma_prefix_index(p, q, off);
    let marker = p[off];
    if marker == INTEGER_MARKER {
        lemma_integer_stable(p, q, off);
    } else if is_digit(marker) {
        lemma_byte_string_stable(p, q, off);
    } else if marker == LIST_MARKER {
        lemma_list_stable(p, q, off, depth + 1);
    } else if marker == DICTIONARY_MARKER {
        lemma_dictionary_stable(p, q, off, depth + 1);
    }
}

proof fn lemma_list_stable(p: Seq<u8>, q: Seq<u8>, off: int, depth: int)
    requires
        is_prefix(p, q),
        spec_list(p, off, depth) is Ok,
    ensures
        spec_list(q, off, depth) == spec_list(p, off, depth),
        off < spec_list(p, off, depth)->Ok_0.1 <= p.len(),
    decreases p.len() - off, 1nat,
{
    lemma_prefix_index(p, q, off);
    lemma_items_stable(p, q, off + 1, depth);
}

pub(super) proof fn lemma_items_stable(p: Seq<u8>, q: Seq<u8>, cursor: int, depth: int)
    requires
        is_prefix(p, q),
        spec_list_items(p, cursor, depth) is Ok,
    ensures
        spec_list_items(q, cursor, depth) == spec_list_items(p, cursor, depth),
        cursor < spec_list_items(p, cursor, depth)->Ok_0.1 <= p.len(),
    decreases p.len() - cursor, 3nat,
{
    lemma_prefix_index(p, q, cursor);
    if p[cursor] != END_MARKER {
        lemma_value_stable(p, q, cursor, depth);
        let next = spec_value(p, cursor, depth)->Ok_0.1;
        lemma_items_stable(p, q, next, depth);
    }
}

proof fn lemma_dictionary_stable(p: Seq<u8>, q: Seq<u8>, off: int, depth: int)
    requires
        is_prefix(p, q),
        spec_dictionary(p, off, depth) is Ok,
    ensures
        spec_dictionary(q, off, depth) == spec_dictionary(p, off, depth),
        off < spec_dictionary(p, off, depth)->Ok_0.1 <= p.len(),
    decreases p.len() - off, 1nat,
{
    lemma_prefix_index(p, q, off);
    lemma_entries_stable(p, q, off + 1, depth);
}

pub(super) proof fn lemma_entries_stable(p: Seq<u8>, q: Seq<u8>, cursor: int, depth: int)
    requires
        is_prefix(p, q),
        spec_dictionary_entries(p, cursor, depth) is Ok,
    ensures
        spec_dictionary_entries(q, cursor, depth) == spec_dictionary_entries(p, cursor, depth),
        cursor < spec_dictionary_entries(p, cursor, depth)->Ok_0.1 <= p.len(),
    decreases p.len() - cursor, 3nat,
{
    lemma_prefix_index(p, q, cursor);
    if p[cursor] != END_MARKER {
        lemma_byte_string_stable(p, q, cursor);
        let value_off = spec_byte_string(p, cursor)->Ok_0.1;
        if value_off < p.len() {
            lemma_prefix_index(p, q, value_off);
        }
        lemma_value_stable(p, q, value_off, depth);
        let next = spec_value(p, value_off, depth)->Ok_0.1;
        lemma_entries_stable(p, q, next, depth);
    }
}

pub(super) proof fn lemma_self_prefix(s: Seq<u8>)
    ensures
        is_prefix(s, s),
{
    assert(s.take(s.len() as int) =~= s);
}

/// A decoded input is never decodable when cut short: every proper prefix of
/// an input that decodes is rejected.
pub proof fn law_no_proper_prefix_decodes(input: Seq<u8>, k: int)
    requires
        spec_decode(input) is Ok,
        0 <= k < input.len(),
    ensures
        spec_decode(input.take(k)) is Err,
{
    let p = input.take(k);
    if k > 0 && spec_value(p, 0, 0) is Ok {
        assert(is_prefix(p, input)) by {
            assert(input.take(p.len() as int) =~= p);
        }
        lemma_value_stable(p, input, 0, 0);
    }
}

/// Decoding a value at the start of an input gives the same value, ending
/// at the same place, however the input goes on after it.
pub proof fn law_value_ignores_what_follows(p: Seq<u8>, q: Seq<u8>)
    requires
        spec_value(p, 0, 0) is Ok,
        is_prefix(p, q),
    ensures
        spec_value(q, 0, 0) == spec_value(p, 0, 0),
{
    lemma_value_stable(p, q, 0, 0);
}

} // verus!
