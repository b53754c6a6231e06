//! Decoding: the grammar of Bencode as recursive spec functions over the
//! input bytes and absolute offsets, and the decoder that follows it.
use vstd::prelude::*;
use crate::errors::DecodeError;
use crate::payload::copy_bytes;
use crate::text::{
    all_digits, canonical_numeral, decimal_value, is_digit, parse_decimal, COLON, DICTIONARY_MARKER,
    END_MARKER, INTEGER_MARKER, LIST_MARKER, MINUS, NINE, ZERO,
};
use crate::value::{entry_views_of, views_of, SpecValue, Value};

verus! {

/// Maximum number of nested lists and dictionaries accepted by the decoder.
pub const MAX_NESTING_DEPTH: usize = 100;

/// The error for input that ends where one more byte is needed.
pub open spec fn end_of_input() -> DecodeError {
    DecodeError::UnexpectedEndOfInput { expected: 1, actual: 0 }
}

/// The first index at or after `from` where `s` holds the byte `b`.
pub open spec fn first_index_of(s: Seq<u8>, from: int, b: u8) -> Option<int>
    decreases s.len() - from,
{
    if from < 0 || from >= s.len() {
        None
    } else if s[from] == b {
        Some(from)
    } else {
        first_index_of(s, from + 1, b)
    }
}

/// What the decoder gives for an integer that starts at `off`: its value and
/// the offset just after its `e`, or the error.
///
/// The text between `i` and the first `e` after it must be an optional `-`
/// and a canonical numeral (no leading zero, no `-0`), whose value fits in
/// `i64`.
pub open spec fn spec_integer(input: Seq<u8>, off: int) -> Result<(SpecValue, int), DecodeError> {
    if off < 0 || off >= input.len() || input[off] != INTEGER_MARKER {
        Err(DecodeError::InvalidInteger)
    } else {
        match first_index_of(input, off + 1, END_MARKER) {
            None => Err(DecodeError::InvalidInteger),
            Some(end) => {
                let number = input.subrange(off + 1, end);
                let neg = number.len() > 0 && number[0] == MINUS;
                let digits = if neg { number.drop_first() } else { number };
                if digits.len() == 0 || !all_digits(digits) {
                    Err(DecodeError::InvalidInteger)
                } else if digits[0] == ZERO && (digits.len() > 1 || neg) {
                    Err(DecodeError::InvalidInteger)
                } else {
                    let v: int = if neg { -decimal_value(digits) } else { decimal_value(digits) as int };
                    if v < i64::MIN || v > i64::MAX {
                        Err(DecodeError::IntegerOutOfRange)
                    } else {
                        Ok((SpecValue::Integer(v), end + 1))
                    }
                }
            },
        }
    }
}

/// What the decoder gives for a byte string that starts at `off`: its
/// payload and the offset just after it, or the error.
///
/// The length is the text before the first `:`; it must be a canonical
/// numeral that fits in `usize`, and that many bytes must follow the `:`.
pub open spec fn spec_byte_string(input: Seq<u8>, off: int) -> Result<(Seq<u8>, int), DecodeError> {
    if off < 0 || off > input.len() {
        Err(DecodeError::InvalidByteStringLength)
    } else {
        match first_index_of(input, off, COLON) {
            None => Err(DecodeError::InvalidByteStringLength),
            Some(sep) => {
                let length_text = input.subrange(off, sep);
                if !canonical_numeral(length_text) {
                    Err(DecodeError::InvalidByteStringLength)
                } else if decimal_value(length_text) > usize::MAX {
                    Err(DecodeError::ByteStringLengthOutOfRange)
                } else {
                    let n = decimal_value(length_text) as int;
                    let available = input.len() - (sep + 1);
                    if available < n {
                        Err(
                            DecodeError::UnexpectedEndOfInput {
                                expected: n as usize,
                                actual: available as usize,
                            },
                        )
                    } else {
                        Ok((input.subrange(sep + 1, sep + 1 + n), sep + 1 + n))
                    }
                }
            },
        }
    }
}

/// What the decoder gives for the value that starts at `off`, inside
/// `depth` enclosing lists and dictionaries.
pub open spec fn spec_value(input: Seq<u8>, off: int, depth: int) -> Result<(SpecValue, int), DecodeError>
    decreases input.len() - off, 2nat,
{
    if off < 0 || off >= input.len() {
        Err(end_of_input())
    } else {
        let marker = input[off];
        if marker == INTEGER_MARKER {
            spec_integer(input, off)
        } else if is_digit(marker) {
            match spec_byte_string(input, off) {
                Ok((b, next)) => Ok((SpecValue::Bytes(b), next)),
                Err(e) => Err(e),
            }
        } else if (marker == LIST_MARKER || marker == DICTIONARY_MARKER) && depth >= MAX_NESTING_DEPTH {
            Err(DecodeError::NestingTooDeep { limit: MAX_NESTING_DEPTH })
        } else if marker == LIST_MARKER {
            spec_list(input, off, depth + 1)
        } else if marker == DICTIONARY_MARKER {
            spec_dictionary(input, off, depth + 1)
        } else {
            Err(DecodeError::UnsupportedType { marker })
        }
    }
}

/// What the decoder gives for a list that starts at `off`, whose elements
/// lie inside `depth` enclosing lists and dictionaries.
pub open spec fn spec_list(input: Seq<u8>, off: int, depth: int) -> Result<(SpecValue, int), DecodeError>
    decreases input.len() - off, 1nat,
{
    if off < 0 || off >= input.len() || input[off] != LIST_MARKER {
        Err(DecodeError::InvalidList)
    } else {
        match spec_list_items(input, off + 1, depth) {
            Ok((items, next)) => Ok((SpecValue::List(items), next)),
            Err(e) => Err(e),
        }
    }
}

/// The list elements from `cursor` up to and including the list's `e`.
///
/// A value that decodes always ends after where it starts and within the
/// input (`laws::law_value_ignores_what_follows` rests on this), so the
/// check on `next` never fails; it keeps the recursion visibly well founded.
pub open spec fn spec_list_items(input: Seq<u8>, cursor: int, depth: int) -> Result<
    (Seq<SpecValue>, int),
    DecodeError,
>
    decreases input.len() - cursor, 3nat,
{
    if cursor < 0 || cursor >= input.len() {
        Err(end_of_input())
    } else if input[cursor] == END_MARKER {
        Ok((Seq::empty(), cursor + 1))
    } else {
        match spec_value(input, cursor, depth) {
            Err(e) => Err(e),
            Ok((v, next)) => if next <= cursor || next > input.len() {
                Err(end_of_input())
            } else {
                match spec_list_items(input, next, depth) {
                    Ok((rest, end)) => Ok((seq![v] + rest, end)),
                    Err(e) => Err(e),
                }
            },
        }
    }
}

/// What the decoder gives for a dictionary that starts at `off`, whose
/// values lie inside `depth` enclosing lists and dictionaries.
pub open spec fn spec_dictionary(input: Seq<u8>, off: int, depth: int) -> Result<(SpecValue, int), DecodeError>
    decreases input.len() - off, 1nat,
{
    if off < 0 || off >= input.len() || input[off] != DICTIONARY_MARKER {
        Err(DecodeError::InvalidDictionary)
    } else {
        match spec_dictionary_entries(input, off + 1, depth) {
            Ok((entries, next)) => Ok((SpecValue::Dictionary(entries), next)),
            Err(e) => Err(e),
        }
    }
}

/// The dictionary entries from `cursor` up to and including the
/// dictionary's `e`, in input order. As in [`spec_list_items`], the checks
/// on `value_off` and `next` never fail.
pub open spec fn spec_dictionary_entries(input: Seq<u8>, cursor: int, depth: int) -> Result<
    (Seq<(Seq<u8>, SpecValue)>, int),
    DecodeError,
>
    decreases input.len() - cursor, 3nat,
{
    if cursor < 0 || cursor >= input.len() {
        Err(end_of_input())
    } else if input[cursor] == END_MARKER {
        Ok((Seq::empty(), cursor + 1))
    } else {
        match spec_byte_string(input, cursor) {
            Err(e) => Err(e),
            Ok((key, value_off)) => if value_off <= cursor {
                Err(end_of_input())
            } else if value_off < input.len() && input[value_off] == END_MARKER {
                Err(DecodeError::MissingDictionaryValue)
            } else {
                match spec_value(input, value_off, depth) {
                    Err(e) => Err(e),
                    Ok((v, next)) => if next <= cursor || next > input.len() {
                        Err(end_of_input())
                    } else {
                        match spec_dictionary_entries(input, next, depth) {
                            Ok((rest, end)) => Ok((seq![(key, v)] + rest, end)),
                            Err(e) => Err(e),
                        }
                    },
                }
            },
        }
    }
}

/// What decoding the whole of `input` gives: exactly one value and nothing
/// after it.
pub open spec fn spec_decode(input: Seq<u8>) -> Result<SpecValue, DecodeError> {
    if input.len() == 0 {
        Err(DecodeError::EmptyInput)
    } else {
        match spec_value(input, 0, 0) {
            Err(e) => Err(e),
            Ok((v, next)) => if next < input.len() {
                Err(DecodeError::TrailingData { remaining: (input.len() - next) as usize })
            } else {
                Ok(v)
            },
        }
    }
}

/// The model of a parse result: the value by its view, the offset as `int`.
pub open spec fn parsed(r: Result<(Value, usize), DecodeError>) -> Result<(SpecValue, int), DecodeError> {
    match r {
        Ok((v, next)) => Ok((v@, next as int)),
        Err(e) => Err(e),
    }
}

/// Decodes supported Bencode values from an input buffer.
///
/// Each byte-string payload is copied into owned `bytes::Bytes` storage, so
/// decoded values can outlive both the decoder and the input.
pub struct Decoder<'a> {
    /// The complete encoded input being decoded.
    input: &'a [u8],
}

impl<'a> View for Decoder<'a> {
    type V = Seq<u8>;

    closed spec fn view(&self) -> Seq<u8> {
        self.input@
    }
}

/// The index of the first `b` in `s` at or after `from`.
fn find_byte(s: &[u8], from: usize, b: u8) -> (r: Option<usize>)
    requires
        from <= s@.len(),
    ensures
        r matches Some(i) ==> first_index_of(s@, from as int, b) == Some(i as int) && from <= i < s@.len(),
        r is None ==> first_index_of(s@, from as int, b) is None,
{
    let mut i = from;
    while i < s.len()
        invariant
            from <= i <= s@.len(),
            first_index_of(s@, from as int, b) == first_index_of(s@, i as int, b),
        decreases s@.len() - i,
    {
        if s[i] == b {
            return Some(i);
        }
        i = i + 1;
    }
    None
}

/// Whether `s[start..end]` holds only ASCII digits.
fn digits_only(s: &[u8], start: usize, end: usize) -> (r: bool)
    requires
        start <= end <= s@.len(),
    ensures
        r == all_digits(s@.subrange(start as int, end as int)),
{
    let mut i = start;
    while i < end
        invariant
            start <= i <= end <= s@.len(),
            all_digits(s@.subrange(start as int, i as int)),
        decreases end - i,
    {
        if s[i] < ZERO || s[i] > NINE {
            assert(!is_digit(s@.subrange(start as int, end as int)[i - start]));
            return false;
        }
        assert forall|k: int| 0 <= k < i + 1 - start implies #[trigger] is_digit(
            s@.subrange(start as int, i + 1)[k],
        ) by {
            if k < i - start {
                assert(s@.subrange(start as int, i + 1)[k] == s@.subrange(start as int, i as int)[k]);
            }
        }
        i = i + 1;
    }
    true
}

impl<'a> Decoder<'a> {
    /// Creates a decoder that borrows `input` for the lifetime `'a`.
    pub fn new(input: &'a [u8]) -> (d: Self)
        ensures
            d@ == input@,
    {
        Self { input }
    }

    /// Decodes exactly one complete Bencode value.
    ///
    /// Returns an error for empty input, unsupported value markers, malformed
    /// values, incomplete input, nesting deeper than 100 containers, or bytes
    /// remaining after the decoded value.
    pub fn decode(&self) -> (r: Result<Value, DecodeError>)
        ensures
            r matches Ok(v) ==> spec_decode(self@) == Ok::<SpecValue, DecodeError>(v@),
            r matches Err(e) ==> spec_decode(self@) == Err::<SpecValue, DecodeError>(e),
    {
        if self.input.len() == 0 {
            return Err(DecodeError::EmptyInput);
        }
        let (value, next_offset) = Self::parse_value_at(self.input, 0, 0)?;
        if next_offset < self.input.len() {
            return Err(DecodeError::TrailingData { remaining: self.input.len() - next_offset });
        }
        Ok(value)
    }

    /// Selects a parser from the value marker at `offset`.
    fn parse_value_at(input: &'a [u8], offset: usize, nesting_depth: usize) -> (r: Result<
        (Value, usize),
        DecodeError,
    >)
        ensures
            parsed(r) == spec_value(input@, offset as int, nesting_depth as int),
            r matches Ok((_, next)) ==> offset < next <= input@.len(),
        decreases input@.len() - offset, 2nat,
    {
        if offset >= input.len() {
            return Err(DecodeError::UnexpectedEndOfInput { expected: 1, actual: 0 });
        }
        let marker = input[offset];
        if marker == INTEGER_MARKER {
            Self::parse_integer_at(input, offset)
        } else if ZERO <= marker && marker <= NINE {
            match Self::parse_byte_string_at(input, offset) {
                Ok((payload, next)) => Ok((Value::Bytes(payload), next)),
                Err(e) => Err(e),
            }
        } else if (marker == LIST_MARKER || marker == DICTIONARY_MARKER) && nesting_depth >= MAX_NESTING_DEPTH {
            Err(DecodeError::NestingTooDeep { limit: MAX_NESTING_DEPTH })
        } else if marker == LIST_MARKER {
            Self::parse_list_at(input, offset, nesting_depth + 1)
        } else if marker == DICTIONARY_MARKER {
            Self::parse_dictionary_at(input, offset, nesting_depth + 1)
        } else {
            Err(DecodeError::UnsupportedType { marker })
        }
    }

    /// Parses an integer beginning at `offset` and returns its next offset.
    ///
    /// Leading zeroes and negative zero are rejected to enforce canonical
    /// integer encoding; values outside `i64` are rejected.
    fn parse_integer_at(input: &'a [u8], offset: usize) -> (r: Result<(Value, usize), DecodeError>)
        ensures
            parsed(r) == spec_integer(input@, offset as int),
            r matches Ok((_, next)) ==> offset < next <= input@.len(),
    {
        if offset >= input.len() || input[offset] != INTEGER_MARKER {
            return Err(DecodeError::InvalidInteger);
        }
        let end = match find_byte(input, offset + 1, END_MARKER) {
            Some(end) => end,
            None => return Err(DecodeError::InvalidInteger),
        };
        let ghost number = input@.subrange(offset + 1, end as int);
        let mut start = offset + 1;
        let negative = start < end && input[start] == MINUS;
        if negative {
            start = start + 1;
        }
        assert(negative ==> number.drop_first() =~= input@.subrange(start as int, end as int));
        assert(!negative ==> number =~= input@.subrange(start as int, end as int));
        if start == end || !digits_only(input, start, end) {
            return Err(DecodeError::InvalidInteger);
        }
        if input[start] == ZERO && (end - start > 1 || negative) {
            return Err(DecodeError::InvalidInteger);
        }
        let limit: u64 = if negative { 0x8000_0000_0000_0000 } else { 0x7fff_ffff_ffff_ffff };
        let value: i64 = match parse_decimal(input, start, end, limit) {
            None => return Err(DecodeError::IntegerOutOfRange),
            Some(magnitude) => if !negative {
                magnitude as i64
            } else if magnitude == 0x8000_0000_0000_0000 {
                i64::MIN
            } else {
                -(magnitude as i64)
            },
        };
        Ok((Value::Integer(value), end + 1))
    }

    /// Parses a byte string beginning at `offset` and returns its payload
    /// and next offset.
    ///
    /// Only bytes before the first colon form the decimal length. The payload
    /// is opaque: it may itself hold colons or Bencode markers.
    fn parse_byte_string_at(input: &'a [u8], offset: usize) -> (r: Result<(bytes::Bytes, usize), DecodeError>)
        ensures
            match r {
                Ok((payload, next)) => spec_byte_string(input@, offset as int) == Ok::<
                    (Seq<u8>, int),
                    DecodeError,
                >((crate::payload::bytes_contents(payload), next as int)),
                Err(e) => spec_byte_string(input@, offset as int) == Err::<(Seq<u8>, int), DecodeError>(e),
            },
            r matches Ok((_, next)) ==> offset < next <= input@.len(),
    {
        if offset > input.len() {
            return Err(DecodeError::InvalidByteStringLength);
        }
        let separator = match find_byte(input, offset, COLON) {
            Some(s) => s,
            None => return Err(DecodeError::InvalidByteStringLength),
        };
        if separator == offset || !digits_only(input, offset, separator) || (separator - offset > 1
            && input[offset] == ZERO) {
            return Err(DecodeError::InvalidByteStringLength);
        }
        let length = match parse_decimal(input, offset, separator, usize::MAX as u64) {
            Some(n) => n as usize,
            None => return Err(DecodeError::ByteStringLengthOutOfRange),
        };
        let available = input.len() - (separator + 1);
        if available < length {
            return Err(DecodeError::UnexpectedEndOfInput { expected: length, actual: available });
        }
        let next_offset = separator + 1 + length;
        let payload = copy_bytes(&input[separator + 1..next_offset]);
        Ok((payload, next_offset))
    }

    /// Parses a list beginning at `offset` and returns the offset after `e`.
    fn parse_list_at(input: &'a [u8], offset: usize, nesting_depth: usize) -> (r: Result<
        (Value, usize),
        DecodeError,
    >)
        ensures
            parsed(r) == spec_list(input@, offset as int, nesting_depth as int),
            r matches Ok((_, next)) ==> offset < next <= input@.len(),
        decreases input@.len() - offset, 1nat,
    {
        if offset >= input.len() || input[offset] != LIST_MARKER {
            return Err(DecodeError::InvalidList);
        }
        let mut values: Vec<Value> = Vec::new();
        let mut cursor = offset + 1;
        loop
            invariant
                offset < cursor <= input@.len(),
                input@[offset as int] == LIST_MARKER,
                spec_list_items(input@, offset + 1, nesting_depth as int) == prepend_items(
                    views_of(values@),
                    spec_list_items(input@, cursor as int, nesting_depth as int),
                ),
            decreases input@.len() - cursor,
        {
            if cursor >= input.len() {
                return Err(DecodeError::UnexpectedEndOfInput { expected: 1, actual: 0 });
            }
            if input[cursor] == END_MARKER {
                let ghost items = views_of(values@);
                assert(items + Seq::<SpecValue>::empty() =~= items);
                let r = Value::List(values);
                assert(r@ == SpecValue::List(items)) by {
                    assert(r@->List_0 =~= items);
                }
                return Ok((r, cursor + 1));
            }
            let (value, next_offset) = Self::parse_value_at(input, cursor, nesting_depth)?;
            let ghost before_value_view = value@;
            proof {
                lemma_prepend_items_push(views_of(values@), value@,
                    spec_list_items(input@, next_offset as int, nesting_depth as int));
            }
            let ghost before = values@;
            values.push(value);
            proof {
                assert(views_of(values@) =~= views_of(before).push(before_value_view));
            }
            cursor = next_offset;
        }
    }

    /// Parses alternating byte-string keys and values until the dictionary
    /// terminator, returning the offset just after the dictionary's `e`.
    fn parse_dictionary_at(input: &'a [u8], offset: usize, nesting_depth: usize) -> (r: Result<
        (Value, usize),
        DecodeError,
    >)
        ensures
            parsed(r) == spec_dictionary(input@, offset as int, nesting_depth as int),
            r matches Ok((_, next)) ==> offset < next <= input@.len(),
        decreases input@.len() - offset, 1nat,
    {
        if offset >= input.len() || input[offset] != DICTIONARY_MARKER {
            return Err(DecodeError::InvalidDictionary);
        }
        let mut entries: Vec<(bytes::Bytes, Value)> = Vec::new();
        let mut cursor = offset + 1;
        loop
            invariant
                offset < cursor <= input@.len(),
                input@[offset as int] == DICTIONARY_MARKER,
                spec_dictionary_entries(input@, offset + 1, nesting_depth as int) == prepend_entries(
                    entry_views_of(entries@),
                    spec_dictionary_entries(input@, cursor as int, nesting_depth as int),
                ),
            decreases input@.len() - cursor,
        {
            if cursor >= input.len() {
                return Err(DecodeError::UnexpectedEndOfInput { expected: 1, actual: 0 });
            }
            if input[cursor] == END_MARKER {
                let ghost es = entry_views_of(entries@);
                assert(es + Seq::<(Seq<u8>, SpecValue)>::empty() =~= es);
                let r = Value::Dictionary(entries);
                assert(r@ == SpecValue::Dictionary(es)) by {
                    assert(r@->Dictionary_0 =~= es);
                }
                return Ok((r, cursor + 1));
            }
            let (key, value_offset) = Self::parse_byte_string_at(input, cursor)?;
            if value_offset < input.len() && input[value_offset] == END_MARKER {
                return Err(DecodeError::MissingDictionaryValue);
            }
            let (value, next_offset) = Self::parse_value_at(input, value_offset, nesting_depth)?;
            let ghost entry = (crate::payload::bytes_contents(key), value@);
            proof {
                lemma_prepend_entries_push(entry_views_of(entries@), entry,
                    spec_dictionary_entries(input@, next_offset as int, nesting_depth as int));
            }
            let ghost before = entries@;
            entries.push((key, value));
            proof {
                assert(entry_views_of(entries@) =~= entry_views_of(before).push(entry));
            }
            cursor = next_offset;
        }
    }
}

/// Decodes exactly one complete Bencode value from `input`.
pub fn decode(input: &[u8]) -> (r: Result<Value, DecodeError>)
    ensures
        r matches Ok(v) ==> spec_decode(input@) == Ok::<SpecValue, DecodeError>(v@),
        r matches Err(e) ==> spec_decode(input@) == Err::<SpecValue, DecodeError>(e),
{
    Decoder::new(input).decode()
}

/// Puts `done` in front of the items of a list-items result.
pub open spec fn prepend_items(
    done: Seq<SpecValue>,
    r: Result<(Seq<SpecValue>, int), DecodeError>,
) -> Result<(Seq<SpecValue>, int), DecodeError> {
    match r {
        Ok((rest, end)) => Ok((done + rest, end)),
        Err(e) => Err(e),
    }
}

/// Puts `done` in front of the entries of a dictionary-entries result.
pub open spec fn prepend_entries(
    done: Seq<(Seq<u8>, SpecValue)>,
    r: Result<(Seq<(Seq<u8>, SpecValue)>, int), DecodeError>,
) -> Result<(Seq<(Seq<u8>, SpecValue)>, int), DecodeError> {
    match r {
        Ok((rest, end)) => Ok((done + rest, end)),
        Err(e) => Err(e),
    }
}

proof fn lemma_prepend_items_push(
    done: Seq<SpecValue>,
    v: SpecValue,
    r: Result<(Seq<SpecValue>, int), DecodeError>,
)
    ensures
        prepend_items(done, prepend_items(seq![v], r)) == prepend_items(done.push(v), r),
{
    if let Ok((rest, end)) = r {
        assert(done + (seq![v] + rest) =~= done.push(v) + rest);
    }
}

proof fn lemma_prepend_entries_push(
    done: Seq<(Seq<u8>, SpecValue)>,
    e: (Seq<u8>, SpecValue),
    r: Result<(Seq<(Seq<u8>, SpecValue)>, int), DecodeError>,
)
    ensures
        prepend_entries(done, prepend_entries(seq![e], r)) == prepend_entries(done.push(e), r),
{
    if let Ok((rest, end)) = r {
        assert(done + (seq![e] + rest) =~= done.push(e) + rest);
    }
}

} // verus!
