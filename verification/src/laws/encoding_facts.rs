//! How encodings begin and how the encoding of a sequence is built from
//! the encodings of its parts.
use vstd::prelude::*;
use crate::encoder::{byte_string_text, spec_encode, spec_encode_entries, spec_encode_items};
use crate::errors::SpecEncodeError;
use crate::text::{
    decimal_digits, is_digit, lemma_decimal_digits, DICTIONARY_MARKER, END_MARKER, INTEGER_MARKER,
    LIST_MARKER,
};
use crate::value::SpecValue;
use super::forms::identity_order;

verus! {

/// Every encoding is non-empty and starts with a byte other than `e`: `i`,
/// a digit, `l` or `d`.
pub(super) proof fn lemma_encoding_starts(v: SpecValue, depth: int, max: int)
    requires
        spec_encode(v, depth, max) is Ok,
    ensures
        spec_encode(v, depth, max)->Ok_0.len() >= 1,
        spec_encode(v, depth, max)->Ok_0[0] != END_MARKER,
        spec_encode(v, depth, max)->Ok_0[0] == INTEGER_MARKER <==> v is Integer,
        spec_encode(v, depth, max)->Ok_0[0] == LIST_MARKER <==> v is List,
        spec_encode(v, depth, max)->Ok_0[0] == DICTIONARY_MARKER <==> v is Dictionary,
        is_digit(spec_encode(v, depth, max)->Ok_0[0]) <==> v is Bytes,
{
    if let SpecValue::Bytes(b) = v {
        lemma_decimal_digits(b.len());
        assert(is_digit(decimal_digits(b.len())[0]));
    }
}

/// Encoding a prefix of the items succeeds when encoding a longer one does,
/// and its bytes begin the longer encoding.
pub(super) proof fn lemma_items_prefix(items: Seq<SpecValue>, k: int, m: int, depth: int, max: int)
    requires
        0 <= k <= m <= items.len(),
        spec_encode_items(items, m, depth, max) is Ok,
    ensures
        spec_encode_items(items, k, depth, max) is Ok,
        spec_encode_items(items, k, depth, max)->Ok_0.len() <= spec_encode_items(items, m, depth, max)->Ok_0.len(),
        spec_encode_items(items, m, depth, max)->Ok_0.take(spec_encode_items(items, k, depth, max)->Ok_0.len() as int)
            == spec_encode_items(items, k, depth, max)->Ok_0,
    decreases m - k,
{
    if k < m {
        lemma_items_prefix(items, k, m - 1, depth, max);
        let a = spec_encode_items(items, k, depth, max)->Ok_0;
        let b = spec_encode_items(items, m - 1, depth, max)->Ok_0;
        let c = spec_encode_items(items, m, depth, max)->Ok_0;
        assert(c.take(b.len() as int) =~= b);
        assert(c.take(a.len() as int) =~= b.take(a.len() as int));
    } else {
        let a = spec_encode_items(items, k, depth, max)->Ok_0;
        assert(a.take(a.len() as int) =~= a);
    }
}

/// Encoding a prefix of the entries succeeds when encoding a longer one
/// does, and its bytes begin the longer encoding.
pub(super) proof fn lemma_entries_prefix(
    entries: Seq<(Seq<u8>, SpecValue)>,
    order: Seq<int>,
    k: int,
    m: int,
    depth: int,
    max: int,
)
    requires
        0 <= k <= m <= order.len(),
        spec_encode_entries(entries, order, m, depth, max) is Ok,
    ensures
        spec_encode_entries(entries, order, k, depth, max) is Ok,
        spec_encode_entries(entries, order, k, depth, max)->Ok_0.len() <= spec_encode_entries(
            entries,
            order,
            m,
            depth,
            max,
        )->Ok_0.len(),
        spec_encode_entries(entries, order, m, depth, max)->Ok_0.take(
            spec_encode_entries(entries, order, k, depth, max)->Ok_0.len() as int,
        ) == spec_encode_entries(entries, order, k, depth, max)->Ok_0,
    decreases m - k,
{
    if k < m {
        lemma_entries_prefix(entries, order, k, m - 1, depth, max);
        let a = spec_encode_entries(entries, order, k, depth, max)->Ok_0;
        let b = spec_encode_entries(entries, order, m - 1, depth, max)->Ok_0;
        let c = spec_encode_entries(entries, order, m, depth, max)->Ok_0;
        assert(c.take(b.len() as int) =~= b);
        assert(c.take(a.len() as int) =~= b.take(a.len() as int));
    } else {
        let a = spec_encode_entries(entries, order, k, depth, max)->Ok_0;
        assert(a.take(a.len() as int) =~= a);
    }
}

/// Encoding a value followed by more items is the value's encoding
/// followed by the encoding of the others.
pub(super) proof fn lemma_items_cons(v: SpecValue, rest: Seq<SpecValue>, k: int, depth: int, max: int)
    requires
        0 <= k <= rest.len(),
        spec_encode(v, depth, max) is Ok,
        spec_encode_items(rest, k, depth, max) is Ok,
    ensures
        spec_encode_items(seq![v] + rest, k + 1, depth, max) == Ok::<Seq<u8>, SpecEncodeError>(
            spec_encode(v, depth, max)->Ok_0 + spec_encode_items(rest, k, depth, max)->Ok_0,
        ),
    decreases k,
{
    let x = seq![v] + rest;
    if k == 0 {
        assert(spec_encode_items(x, 0, depth, max) == Ok::<Seq<u8>, SpecEncodeError>(Seq::empty()));
        assert(x[0] == v);
        assert(Seq::<u8>::empty() + spec_encode(v, depth, max)->Ok_0 =~= spec_encode(v, depth, max)->Ok_0 + Seq::empty());
    } else {
        lemma_items_prefix(rest, k - 1, k, depth, max);
        lemma_items_cons(v, rest, k - 1, depth, max);
        assert(x[k] == rest[k - 1]);
        let a = spec_encode(v, depth, max)->Ok_0;
        let b = spec_encode_items(rest, k - 1, depth, max)->Ok_0;
        let c = spec_encode(rest[k - 1], depth, max)->Ok_0;
        assert(a + b + c =~= a + (b + c));
    }
}

/// Encoding an entry followed by more entries, all in input order, is the
/// entry's text followed by the text of the others.
pub(super) proof fn lemma_entries_cons(
    e: (Seq<u8>, SpecValue),
    rest: Seq<(Seq<u8>, SpecValue)>,
    k: int,
    depth: int,
    max: int,
)
    requires
        0 <= k <= rest.len(),
        spec_encode(e.1, depth, max) is Ok,
        spec_encode_entries(rest, identity_order(rest.len() as int), k, depth, max) is Ok,
    ensures
        spec_encode_entries(seq![e] + rest, identity_order(rest.len() + 1int), k + 1, depth, max) == Ok::<
            Seq<u8>,
            SpecEncodeError,
        >(
            byte_string_text(e.0) + spec_encode(e.1, depth, max)->Ok_0 + spec_encode_entries(
                rest,
                identity_order(rest.len() as int),
                k,
                depth,
                max,
            )->Ok_0,
        ),
    decreases k,
{
    let x = seq![e] + rest;
    let ox = identity_order(rest.len() + 1int);
    let orest = identity_order(rest.len() as int);
    let head = byte_string_text(e.0) + spec_encode(e.1, depth, max)->Ok_0;
    if k == 0 {
        assert(ox[0] == 0);
        assert(x[0] == e);
        assert(spec_encode_entries(x, ox, 0, depth, max) == Ok::<Seq<u8>, SpecEncodeError>(Seq::empty()));
        assert(Seq::<u8>::empty() + byte_string_text(e.0) + spec_encode(e.1, depth, max)->Ok_0 =~= head + Seq::empty());
    } else {
        lemma_entries_prefix(rest, orest, k - 1, k, depth, max);
        lemma_entries_cons(e, rest, k - 1, depth, max);
        assert(ox[k] == k);
        assert(orest[k - 1] == k - 1);
        assert(x[k] == rest[k - 1]);
        let b = spec_encode_entries(rest, orest, k - 1, depth, max)->Ok_0;
        let c = byte_string_text(rest[k - 1].0) + spec_encode(rest[k - 1].1, depth, max)->Ok_0;
        assert(spec_encode_entries(rest, orest, k, depth, max)->Ok_0 == b + byte_string_text(rest[k - 1].0)
            + spec_encode(rest[k - 1].1, depth, max)->Ok_0);
        assert(head + b + byte_string_text(rest[k - 1].0) + spec_encode(rest[k - 1].1, depth, max)->Ok_0
            =~= head + (b + byte_string_text(rest[k - 1].0) + spec_encode(rest[k - 1].1, depth, max)->Ok_0));
    }
}

} // verus!
