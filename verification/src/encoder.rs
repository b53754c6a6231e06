//! Encoding: canonical Bencode text of a value, with dictionary entries in
//! raw-byte key order, duplicate keys refused and a limit on nesting.
use vstd::prelude::*;
use crate::errors::{EncodeError, SpecEncodeError};
use crate::order::{bytes_lt, slice_eq, slice_lt};
use crate::payload::bytes_slice;
use crate::text::{
    decimal_digits, push_decimal, COLON, DICTIONARY_MARKER, END_MARKER, INTEGER_MARKER,
    LIST_MARKER, MINUS,
};
use crate::value::{entry_views_of, views_of, SpecValue, Value};

verus! {

/// The nesting limit that [`EncodeOptions::default`] sets.
pub const DEFAULT_MAX_NESTING_DEPTH: usize = 100;

/// Resource limits applied while encoding a Bencode value.
#[derive(Debug, Clone, Copy, PartialEq, Eq)]
pub struct EncodeOptions {
    /// Maximum number of lists and dictionaries allowed along a value path.
    ///
    /// A value of `0` allows scalar values but rejects every list or dictionary.
    pub max_nesting_depth: usize,
}

impl Default for EncodeOptions {
    fn default() -> (r: Self)
        ensures
            r.max_nesting_depth == DEFAULT_MAX_NESTING_DEPTH,
    {
        Self { max_nesting_depth: DEFAULT_MAX_NESTING_DEPTH }
    }
}

/// Encodes Bencode values using the configured resource limits.
///
/// Dictionaries are emitted in raw-byte key order, regardless of the order of
/// their entries in the value. Duplicate keys and values deeper than the
/// configured limit are rejected.
#[derive(Debug, Clone, Copy)]
pub struct Encoder {
    options: EncodeOptions,
}

impl View for Encoder {
    type V = EncodeOptions;

    closed spec fn view(&self) -> EncodeOptions {
        self.options
    }
}

impl Default for Encoder {
    fn default() -> (r: Self)
        ensures
            r@.max_nesting_depth == DEFAULT_MAX_NESTING_DEPTH,
    {
        Self { options: EncodeOptions::default() }
    }
}

// ----------------------------------------------------------------------------
// The text of each kind of value.

/// The text of an integer between `i` and `e`: an optional `-` and the
/// canonical decimal spelling of its magnitude.
pub open spec fn integer_text(i: int) -> Seq<u8> {
    if i < 0 {
        seq![MINUS] + decimal_digits((-i) as nat)
    } else {
        decimal_digits(i as nat)
    }
}

/// The text of a byte string: its length in decimal, `:`, its bytes.
pub open spec fn byte_string_text(b: Seq<u8>) -> Seq<u8> {
    decimal_digits(b.len()) + seq![COLON] + b
}

// ----------------------------------------------------------------------------
// The order in which dictionary entries are written.

/// The number of positions of `order` whose key sorts strictly before `k`.
pub open spec fn count_less(order: Seq<int>, keys: Seq<Seq<u8>>, k: Seq<u8>) -> nat
    decreases order.len(),
{
    if order.len() == 0 {
        0
    } else {
        count_less(order.drop_last(), keys, k) + if bytes_lt(keys[order.last()], k) {
            1nat
        } else {
            0nat
        }
    }
}

/// The indices `0..n` of `keys`, arranged in raw-byte order of their keys:
/// each index is inserted before the first key that is not smaller.
pub open spec fn key_order(keys: Seq<Seq<u8>>, n: int) -> Seq<int>
    decreases n,
{
    if n <= 0 {
        Seq::empty()
    } else {
        let rest = key_order(keys, n - 1);
        rest.insert(count_less(rest, keys, keys[n - 1]) as int, n - 1)
    }
}

/// The first position `q >= from` at which `order` puts two equal keys next
/// to each other.
pub open spec fn first_adjacent_duplicate(order: Seq<int>, keys: Seq<Seq<u8>>, from: int) -> Option<int>
    decreases order.len() - from,
{
    if from < 0 || from + 1 >= order.len() {
        None
    } else if keys[order[from]] == keys[order[from + 1]] {
        Some(from)
    } else {
        first_adjacent_duplicate(order, keys, from + 1)
    }
}

/// The keys of dictionary entries.
pub open spec fn keys_of(entries: Seq<(Seq<u8>, SpecValue)>) -> Seq<Seq<u8>> {
    Seq::new(entries.len(), |i: int| entries[i].0)
}

// ----------------------------------------------------------------------------
// What encoding gives.

/// What encoding `v` gives when it lies inside `depth` enclosing lists and
/// dictionaries and at most `max` of them may enclose any list or
/// dictionary's contents: the bytes, or the first error met in writing order.
pub open spec fn spec_encode(v: SpecValue, depth: int, max: int) -> Result<Seq<u8>, SpecEncodeError>
    decreases v, 0nat,
{
    match v {
        SpecValue::Integer(i) => Ok(seq![INTEGER_MARKER] + integer_text(i) + seq![END_MARKER]),
        SpecValue::Bytes(b) => Ok(byte_string_text(b)),
        SpecValue::List(items) => if depth >= max {
            Err(SpecEncodeError::NestingTooDeep(max as usize))
        } else {
            match spec_encode_items(items, items.len() as int, depth + 1, max) {
                Ok(body) => Ok(seq![LIST_MARKER] + body + seq![END_MARKER]),
                Err(e) => Err(e),
            }
        },
        SpecValue::Dictionary(entries) => if depth >= max {
            Err(SpecEncodeError::NestingTooDeep(max as usize))
        } else {
            let keys = keys_of(entries);
            let order = key_order(keys, entries.len() as int);
            match first_adjacent_duplicate(order, keys, 0) {
                Some(q) => Err(SpecEncodeError::DuplicateDictionaryKey(keys[order[q]])),
                None => match spec_encode_entries(entries, order, order.len() as int, depth + 1, max) {
                    Ok(body) => Ok(seq![DICTIONARY_MARKER] + body + seq![END_MARKER]),
                    Err(e) => Err(e),
                },
            }
        },
    }
}

/// What encoding the first `n` of `items`, one after another, gives.
pub open spec fn spec_encode_items(items: Seq<SpecValue>, n: int, depth: int, max: int) -> Result<
    Seq<u8>,
    SpecEncodeError,
>
    decreases items, n,
{
    if n <= 0 || n > items.len() {
        Ok(Seq::empty())
    } else {
        match spec_encode_items(items, n - 1, depth, max) {
            Err(e) => Err(e),
            Ok(done) => match spec_encode(items[n - 1], depth, max) {
                Ok(t) => Ok(done + t),
                Err(e) => Err(e),
            },
        }
    }
}

/// What encoding the entries `order[0..n]` of `entries`, one after another,
/// gives: each key as a byte string followed by its value.
pub open spec fn spec_encode_entries(
    entries: Seq<(Seq<u8>, SpecValue)>,
    order: Seq<int>,
    n: int,
    depth: int,
    max: int,
) -> Result<Seq<u8>, SpecEncodeError>
    decreases entries, n,
{
    if n <= 0 || n > order.len() {
        Ok(Seq::empty())
    } else {
        match spec_encode_entries(entries, order, n - 1, depth, max) {
            Err(e) => Err(e),
            Ok(done) => {
                let j = order[n - 1];
                if 0 <= j < entries.len() {
                    match spec_encode(entries[j].1, depth, max) {
                        Ok(t) => Ok(done + byte_string_text(entries[j].0) + t),
                        Err(e) => Err(e),
                    }
                } else {
                    Ok(done)
                }
            },
        }
    }
}

/// `after` begins with `before`: bytes are only ever appended.
pub open spec fn extends(after: Seq<u8>, before: Seq<u8>) -> bool {
    before.len() <= after.len() && after.take(before.len() as int) == before
}

/// An exec encoding result agrees with a spec one: the same bytes after the
/// text written before, or the same error.
pub open spec fn encoded_as(
    r: Result<(), EncodeError>,
    before: Seq<u8>,
    after: Seq<u8>,
    expected: Result<Seq<u8>, SpecEncodeError>,
) -> bool {
    match expected {
        Ok(s) => r is Ok && after == before + s,
        Err(e) => r matches Err(x) && x@ == e,
    }
}

// ----------------------------------------------------------------------------
// Executable encoding.

/// Appends all of `s` to `out`.
fn push_all(out: &mut Vec<u8>, s: &[u8])
    ensures
        final(out)@ == old(out)@ + s@,
{
    let ghost start = out@;
    let mut i: usize = 0;
    while i < s.len()
        invariant
            i <= s@.len(),
            out@ == start + s@.take(i as int),
        decreases s@.len() - i,
    {
        out.push(s[i]);
        assert(s@.take(i + 1) =~= s@.take(i as int).push(s@[i as int]));
        i = i + 1;
    }
    assert(s@.take(i as int) =~= s@);
}

/// Appends the byte-string text of `b` to `out`.
fn push_byte_string(out: &mut Vec<u8>, b: &[u8])
    ensures
        final(out)@ == old(out)@ + byte_string_text(b@),
{
    let ghost start = out@;
    push_decimal(out, b.len() as u64);
    out.push(COLON);
    push_all(out, b);
    assert(out@ =~= start + byte_string_text(b@));
}

/// Appends the text of the integer `i`, markers included, to `out`.
fn push_integer(out: &mut Vec<u8>, i: i64)
    ensures
        final(out)@ == old(out)@ + (seq![INTEGER_MARKER] + integer_text(i as int) + seq![END_MARKER]),
{
    let ghost start = out@;
    out.push(INTEGER_MARKER);
    let magnitude: u64 = if i < 0 {
        out.push(MINUS);
        if i == i64::MIN {
            0x8000_0000_0000_0000
        } else {
            (-i) as u64
        }
    } else {
        i as u64
    };
    push_decimal(out, magnitude);
    out.push(END_MARKER);
    assert(out@ =~= start + (seq![INTEGER_MARKER] + integer_text(i as int) + seq![END_MARKER]));
}

/// Rejects a container when its zero-based depth would exceed the configured limit.
fn check_nesting_depth(nesting_depth: usize, options: EncodeOptions) -> (r: Result<(), EncodeError>)
    ensures
        r is Ok <==> nesting_depth < options.max_nesting_depth,
        r matches Err(e) ==> e == (EncodeError::NestingTooDeep { limit: options.max_nesting_depth }),
{
    if nesting_depth >= options.max_nesting_depth {
        return Err(EncodeError::NestingTooDeep { limit: options.max_nesting_depth });
    }
    Ok(())
}

// ----------------------------------------------------------------------------
// Facts about the key order and the encoding of sequences.

/// The indices of `order` as integers.
pub open spec fn as_ints(order: Seq<usize>) -> Seq<int> {
    Seq::new(order.len(), |i: int| order[i] as int)
}

/// A count of positions is at most the number of positions.
pub(crate) proof fn lemma_count_less_bound(order: Seq<int>, keys: Seq<Seq<u8>>, k: Seq<u8>)
    ensures
        count_less(order, keys, k) <= order.len(),
    decreases order.len(),
{
    if order.len() > 0 {
        lemma_count_less_bound(order.drop_last(), keys, k);
    }
}

/// The key order of `n` keys holds `n` indices, each below `n`.
pub proof fn lemma_key_order_indices(keys: Seq<Seq<u8>>, n: int)
    requires
        n >= 0,
    ensures
        key_order(keys, n).len() == n,
        forall|q: int| 0 <= q < n ==> 0 <= #[trigger] key_order(keys, n)[q] < n,
    decreases n,
{
    if n > 0 {
        let rest = key_order(keys, n - 1);
        lemma_key_order_indices(keys, n - 1);
        lemma_count_less_bound(rest, keys, keys[n - 1]);
        let p = count_less(rest, keys, keys[n - 1]) as int;
        assert forall|q: int| 0 <= q < n implies 0 <= #[trigger] key_order(keys, n)[q] < n by {
            if q < p {
                assert(key_order(keys, n)[q] == rest[q]);
            } else if q > p {
                assert(key_order(keys, n)[q] == rest[q - 1]);
            }
        }
    }
}

/// Once encoding a prefix of the items fails, encoding any longer prefix
/// fails with the same error.
proof fn lemma_encode_items_error_stays(items: Seq<SpecValue>, n: int, m: int, depth: int, max: int)
    requires
        0 <= n <= m <= items.len(),
        spec_encode_items(items, n, depth, max) is Err,
    ensures
        spec_encode_items(items, m, depth, max) == spec_encode_items(items, n, depth, max),
    decreases m - n,
{
    if m > n {
        lemma_encode_items_error_stays(items, n, m - 1, depth, max);
    }
}

/// Once encoding a prefix of the entries fails, encoding any longer prefix
/// fails with the same error.
proof fn lemma_encode_entries_error_stays(
    entries: Seq<(Seq<u8>, SpecValue)>,
    order: Seq<int>,
    n: int,
    m: int,
    depth: int,
    max: int,
)
    requires
        0 <= n <= m <= order.len(),
        spec_encode_entries(entries, order, n, depth, max) is Err,
    ensures
        spec_encode_entries(entries, order, m, depth, max) == spec_encode_entries(
            entries,
            order,
            n,
            depth,
            max,
        ),
    decreases m - n,
{
    if m > n {
        lemma_encode_entries_error_stays(entries, order, n, m - 1, depth, max);
    }
}

/// The indices `0..entries.len()` in raw-byte order of their keys.
fn sorted_key_order(entries: &Vec<(bytes::Bytes, Value)>) -> (order: Vec<usize>)
    ensures
        as_ints(order@) == key_order(keys_of(entry_views_of(entries@)), entries@.len() as int),
{
    let ghost keys = keys_of(entry_views_of(entries@));
    let mut order: Vec<usize> = Vec::new();
    let mut i: usize = 0;
    assert(as_ints(order@) =~= key_order(keys, 0));
    while i < entries.len()
        invariant
            i <= entries@.len(),
            keys == keys_of(entry_views_of(entries@)),
            as_ints(order@) == key_order(keys, i as int),
        decreases entries@.len() - i,
    {
        proof {
            lemma_key_order_indices(keys, i as int);
        }
        let key = bytes_slice(&entries[i].0);
        let mut p: usize = 0;
        let mut j: usize = 0;
        assert(as_ints(order@).take(0) =~= Seq::<int>::empty());
        while j < order.len()
            invariant
                j <= order@.len(),
                order@.len() == i,
                i < entries@.len(),
                keys == keys_of(entry_views_of(entries@)),
                as_ints(order@) == key_order(keys, i as int),
                forall|q: int| 0 <= q < i ==> 0 <= #[trigger] key_order(keys, i as int)[q] < i,
                key@ == keys[i as int],
                p == count_less(as_ints(order@).take(j as int), keys, keys[i as int]),
                p <= j,
            decreases order@.len() - j,
        {
            assert(as_ints(order@)[j as int] == order@[j as int] as int);
            let other = bytes_slice(&entries[order[j]].0);
            assert(as_ints(order@).take(j + 1).drop_last() =~= as_ints(order@).take(j as int));
            if slice_lt(other, key) {
                p = p + 1;
            }
            j = j + 1;
        }
        assert(as_ints(order@).take(j as int) =~= as_ints(order@));
        let ghost before = as_ints(order@);
        order.insert(p, i);
        assert(as_ints(order@) =~= before.insert(p as int, i as int));
        i = i + 1;
    }
    order
}

/// Recursively appends one value's Bencode representation to `output`.
///
/// `nesting_depth` is the number of enclosing containers; a list or
/// dictionary at a depth of `options.max_nesting_depth` or more is refused.
/// Dictionary keys are sorted and checked for duplicates before their
/// entries are written.
#[verifier::loop_isolation(false)]
fn encode_value(value: &Value, output: &mut Vec<u8>, nesting_depth: usize, options: EncodeOptions) -> (r: Result<(), EncodeError>)
    ensures
        encoded_as(
            r,
            old(output)@,
            final(output)@,
            spec_encode(value@, nesting_depth as int, options.max_nesting_depth as int),
        ),
        extends(final(output)@, old(output)@),
        (value@ is List || value@ is Dictionary) && nesting_depth >= options.max_nesting_depth
            ==> final(output)@ == old(output)@,
        value@ is Dictionary && first_adjacent_duplicate(
            key_order(keys_of(value@->Dictionary_0), value@->Dictionary_0.len() as int),
            keys_of(value@->Dictionary_0),
            0,
        ) is Some ==> final(output)@ == old(output)@,
    decreases value,
{
    let ghost max = options.max_nesting_depth as int;
    assert(output@.take(output@.len() as int) =~= output@);
    let ghost before = output@;
    match value {
        Value::Integer(integer) => {
            push_integer(output, *integer);
            assert(output@.take(before.len() as int) =~= before);
            Ok(())
        },
        Value::Bytes(b) => {
            push_byte_string(output, bytes_slice(b));
            assert(output@.take(before.len() as int) =~= before);
            Ok(())
        },
        Value::List(values) => {
            let ghost items = views_of(values@);
            assert(value@ == SpecValue::List(items)) by {
                assert(value@->List_0 =~= items);
            }
            check_nesting_depth(nesting_depth, options)?;
            let ghost start = output@;
            output.push(LIST_MARKER);
            let ghost mut body: Seq<u8> = Seq::empty();
            let mut i: usize = 0;
            while i < values.len()
                invariant
                    i <= values@.len(),
                    items == views_of(values@),
                    nesting_depth < options.max_nesting_depth,
                    max == options.max_nesting_depth as int,
                    spec_encode_items(items, i as int, nesting_depth + 1, max) == Ok::<
                        Seq<u8>,
                        SpecEncodeError,
                    >(body),
                    output@ == start.push(LIST_MARKER) + body,
                decreases values@.len() - i,
            {
                let ghost mid = output@;
                assert(items[i as int] == values@[i as int]@);
                match encode_value(&values[i], output, nesting_depth + 1, options) {
                    Ok(()) => {
                        proof {
                            let sv = spec_encode(items[i as int], nesting_depth + 1, max);
                            let t = sv->Ok_0;
                            assert(output@ == mid + t);
                            assert(spec_encode_items(items, i + 1, nesting_depth + 1, max) == Ok::<
                                Seq<u8>,
                                SpecEncodeError,
                            >(body + t));
                            body = body + t;
                            assert(output@ =~= start.push(LIST_MARKER) + body);
                        }
                    },
                    Err(e) => {
                        proof {
                            lemma_encode_items_error_stays(items, i + 1, items.len() as int, nesting_depth + 1, max);
                            assert(output@.take(start.len() as int) =~= mid.take(start.len() as int));
                            assert(mid.take(start.len() as int) =~= start);
                        }
                        return Err(e);
                    },
                }
                i = i + 1;
            }
            output.push(END_MARKER);
            assert(output@ =~= start + (seq![LIST_MARKER] + body + seq![END_MARKER]));
            assert(output@.take(before.len() as int) =~= before);
            Ok(())
        },
        Value::Dictionary(entries) => {
            let ghost es = entry_views_of(entries@);
            let ghost keys = keys_of(es);
            assert(value@ == SpecValue::Dictionary(es)) by {
                assert(value@->Dictionary_0 =~= es);
            }
            check_nesting_depth(nesting_depth, options)?;
            let order = sorted_key_order(entries);
            let ghost ord = as_ints(order@);
            proof {
                lemma_key_order_indices(keys, entries@.len() as int);
            }
            // Sorting puts equal keys next to each other: one pass finds any
            // duplicate before the dictionary's marker is written.
            let mut q: usize = 0;
            while order.len() > 0 && q < order.len() - 1
                invariant
                    ord == as_ints(order@),
                    ord == key_order(keys, entries@.len() as int),
                    keys == keys_of(es),
                    es == entry_views_of(entries@),
                    order@.len() == entries@.len(),
                    forall|k: int| 0 <= k < order@.len() ==> 0 <= #[trigger] ord[k] < entries@.len(),
                    q <= order@.len(),
                    first_adjacent_duplicate(ord, keys, 0) == first_adjacent_duplicate(ord, keys, q as int),
                decreases order@.len() - q,
            {
                assert(ord[q as int] == order@[q as int] as int);
                assert(ord[q + 1] == order@[q + 1] as int);
                let this_key = &entries[order[q]].0;
                if slice_eq(bytes_slice(this_key), bytes_slice(&entries[order[q + 1]].0)) {
                    return Err(EncodeError::DuplicateDictionaryKey { key: this_key.clone() });
                }
                q = q + 1;
            }
            let ghost start = output@;
            output.push(DICTIONARY_MARKER);
            let ghost mut body: Seq<u8> = Seq::empty();
            let mut q: usize = 0;
            while q < order.len()
                invariant
                    ord == as_ints(order@),
                    es == entry_views_of(entries@),
                    order@.len() == entries@.len(),
                    forall|k: int| 0 <= k < order@.len() ==> 0 <= #[trigger] ord[k] < entries@.len(),
                    q <= order@.len(),
                    nesting_depth < options.max_nesting_depth,
                    max == options.max_nesting_depth as int,
                    spec_encode_entries(es, ord, q as int, nesting_depth + 1, max) == Ok::<
                        Seq<u8>,
                        SpecEncodeError,
                    >(body),
                    output@ == start.push(DICTIONARY_MARKER) + body,
                decreases order@.len() - q,
            {
                assert(ord[q as int] == order@[q as int] as int);
                let j = order[q];
                let ghost mid = output@;
                push_byte_string(output, bytes_slice(&entries[j].0));
                match encode_value(&entries[j].1, output, nesting_depth + 1, options) {
                    Ok(()) => {
                        proof {
                            let sv = spec_encode(es[j as int].1, nesting_depth + 1, max);
                            let t = sv->Ok_0;
                            let k = byte_string_text(es[j as int].0);
                            assert(output@ == mid + k + t);
                            assert(spec_encode_entries(es, ord, q + 1, nesting_depth + 1, max) == Ok::<
                                Seq<u8>,
                                SpecEncodeError,
                            >(body + k + t));
                            body = body + k + t;
                            assert(output@ =~= start.push(DICTIONARY_MARKER) + body);
                        }
                    },
                    Err(e) => {
                        proof {
                            lemma_encode_entries_error_stays(es, ord, q + 1, ord.len() as int, nesting_depth + 1, max);
                            assert(output@.take(start.len() as int) =~= mid.take(start.len() as int));
                            assert(mid.take(start.len() as int) =~= start);
                        }
                        return Err(e);
                    },
                }
                q = q + 1;
            }
            output.push(END_MARKER);
            assert(output@ =~= start + (seq![DICTIONARY_MARKER] + body + seq![END_MARKER]));
            assert(output@.take(before.len() as int) =~= before);
            Ok(())
        },
    }
}

/// An encoding result agrees with a spec one: the same bytes or the same error.
pub open spec fn encode_result(r: Result<Vec<u8>, EncodeError>, expected: Result<Seq<u8>, SpecEncodeError>) -> bool {
    match expected {
        Ok(s) => r matches Ok(out) && out@ == s,
        Err(e) => r matches Err(x) && x@ == e,
    }
}

impl Encoder {
    /// Creates an encoder with the default options.
    pub fn new() -> (e: Self)
        ensures
            e@.max_nesting_depth == DEFAULT_MAX_NESTING_DEPTH,
    {
        Self::default()
    }

    /// Creates an encoder with caller-provided options.
    pub fn with_options(options: EncodeOptions) -> (e: Self)
        ensures
            e@ == options,
    {
        Self { options }
    }

    /// Encodes a value as canonical Bencode bytes.
    ///
    /// Dictionary entries are sorted by their raw key bytes. The input value
    /// is borrowed and is not reordered or otherwise modified.
    pub fn encode(&self, value: &Value) -> (r: Result<Vec<u8>, EncodeError>)
        ensures
            encode_result(r, spec_encode(value@, 0, self@.max_nesting_depth as int)),
    {
        let mut output: Vec<u8> = Vec::new();
        match encode_value(value, &mut output, 0, self.options) {
            Ok(()) => {
                assert(output@ =~= Seq::<u8>::empty() + output@);
                Ok(output)
            },
            Err(e) => Err(e),
        }
    }
}

/// Encodes a value as canonical Bencode bytes.
///
/// Dictionary entries are serialized in ascending raw-byte key order.
/// Duplicate keys are rejected because they cannot be represented as a
/// canonical dictionary. Byte-string payloads are written unchanged.
pub fn encode(value: &Value) -> (r: Result<Vec<u8>, EncodeError>)
    ensures
        encode_result(r, spec_encode(value@, 0, DEFAULT_MAX_NESTING_DEPTH as int)),
{
    Encoder::new().encode(value)
}

/// Encodes a value using caller-provided resource limits.
pub fn encode_with_options(value: &Value, options: EncodeOptions) -> (r: Result<Vec<u8>, EncodeError>)
    ensures
        encode_result(r, spec_encode(value@, 0, options.max_nesting_depth as int)),
{
    Encoder::with_options(options).encode(value)
}

} // verus!
