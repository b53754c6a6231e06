//! Numbers are written and read in ordinary base ten: the text of an integer
//! and the length before a byte string's payload are fixed digit by digit,
//! by how the text of `10 * n + d` extends the text of `n`.
use vstd::prelude::*;
use crate::decoder::spec_decode;
use crate::encoder::spec_encode;
use crate::errors::DecodeError;
use crate::text::{decimal_digits, lemma_decimal_digits, COLON, END_MARKER, INTEGER_MARKER, MINUS};
use crate::value::SpecValue;
use super::roundtrip::lemma_first_index_at;

verus! {

/// The encoder writes integers in ordinary base ten: a one-digit number as
/// that digit, `10 * q + d` as the digits of `q` followed by the digit `d`,
/// and a negative number as `-` followed by the digits of its magnitude.
pub proof fn law_integer_text_is_decimal(n: int, depth: int, max: int)
    ensures
        spec_encode(SpecValue::Integer(n), depth, max) is Ok,
        0 <= n <= 9 ==> spec_encode(SpecValue::Integer(n), depth, max)->Ok_0 == seq![
            INTEGER_MARKER,
            (48 + n) as u8,
            END_MARKER,
        ],
        n >= 10 ==> spec_encode(SpecValue::Integer(n), depth, max)->Ok_0 == spec_encode(
            SpecValue::Integer(n / 10),
            depth,
            max,
        )->Ok_0.drop_last() + seq![(48 + n % 10) as u8, END_MARKER],
        n < 0 ==> spec_encode(SpecValue::Integer(n), depth, max)->Ok_0 == seq![INTEGER_MARKER, MINUS]
            + spec_encode(SpecValue::Integer(-n), depth, max)->Ok_0.drop_first(),
{
    let t = spec_encode(SpecValue::Integer(n), depth, max)->Ok_0;
    if 0 <= n <= 9 {
        assert(t =~= seq![INTEGER_MARKER, (48 + n) as u8, END_MARKER]);
    } else if n >= 10 {
        let u = spec_encode(SpecValue::Integer(n / 10), depth, max)->Ok_0;
        assert(decimal_digits(n as nat) == decimal_digits((n / 10) as nat).push((n % 10 + 48) as u8));
        assert(u.drop_last() =~= seq![INTEGER_MARKER] + decimal_digits((n / 10) as nat));
        assert(t =~= u.drop_last() + seq![(48 + n % 10) as u8, END_MARKER]);
    } else {
        let u = spec_encode(SpecValue::Integer(-n), depth, max)->Ok_0;
        assert(u.drop_first() =~= decimal_digits((-n) as nat) + seq![END_MARKER]);
        assert(t =~= seq![INTEGER_MARKER, MINUS] + u.drop_first());
    }
}

/// The text that the encoder writes before a byte string's `:`.
pub open spec fn length_text_of(b: Seq<u8>, depth: int, max: int) -> Seq<u8> {
    let t = spec_encode(SpecValue::Bytes(b), depth, max)->Ok_0;
    t.take(t.len() - b.len() - 1)
}

/// The encoder writes a byte string as its length, `:` and its bytes, the
/// length in ordinary base ten: a length below ten as that digit, and a
/// length `10 * q + d` as the digits of `q` followed by the digit `d`.
pub proof fn law_byte_string_text_is_decimal(b: Seq<u8>, shorter: Seq<u8>, depth: int, max: int)
    ensures
        spec_encode(SpecValue::Bytes(b), depth, max) is Ok,
        spec_encode(SpecValue::Bytes(b), depth, max)->Ok_0 == length_text_of(b, depth, max) + seq![COLON] + b,
        b.len() <= 9 ==> length_text_of(b, depth, max) == seq![(48 + b.len()) as u8],
        b.len() >= 10 && shorter.len() == b.len() / 10 ==> length_text_of(b, depth, max) == length_text_of(
            shorter,
            depth,
            max,
        ) + seq![(48 + b.len() % 10) as u8],
{
    let t = spec_encode(SpecValue::Bytes(b), depth, max)->Ok_0;
    lemma_decimal_digits(b.len());
    let digits = decimal_digits(b.len());
    assert(t.take(t.len() - b.len() - 1) =~= digits);
    assert(t =~= digits + seq![COLON] + b);
    if b.len() >= 10 && shorter.len() == b.len() / 10 {
        let u = spec_encode(SpecValue::Bytes(shorter), depth, max)->Ok_0;
        lemma_decimal_digits(shorter.len());
        assert(u.take(u.len() - shorter.len() - 1) =~= decimal_digits(shorter.len()));
        assert(digits == decimal_digits(shorter.len()).push((b.len() % 10 + 48) as u8));
        assert(digits =~= decimal_digits(shorter.len()) + seq![(48 + b.len() % 10) as u8]);
    }
}

/// `t` is a numeral as the decoder accepts it: ASCII digits, at least one,
/// and no leading zero.
pub open spec fn plain_numeral(t: Seq<u8>) -> bool {
    &&& t.len() > 0
    &&& forall|i: int| 0 <= i < t.len() ==> 48 <= #[trigger] t[i] <= 57
    &&& t[0] != 48
}

/// The decoder reads integers in ordinary base ten: `i<d>e` for a digit `d`
/// is that digit's value, appending a digit `d` to the digits of `v` gives
/// `10 * v + d` while that fits in `i64`, and a `-` negates.
/// Together these fix the value of every numeral, by induction on its length.
pub proof fn law_decoded_integer_is_decimal(t: Seq<u8>, v: int, c: u8)
    requires
        48 <= c <= 57,
    ensures
        spec_decode(seq![INTEGER_MARKER, c, END_MARKER]) == Ok::<SpecValue, DecodeError>(
            SpecValue::Integer(c - 48),
        ),
        plain_numeral(t) && spec_decode(seq![INTEGER_MARKER] + t + seq![END_MARKER]) == Ok::<
            SpecValue,
            DecodeError,
        >(SpecValue::Integer(v)) ==> {
            &&& 10 * v + (c - 48) <= i64::MAX ==> spec_decode(
                seq![INTEGER_MARKER] + t + seq![c, END_MARKER],
            ) == Ok::<SpecValue, DecodeError>(SpecValue::Integer(10 * v + (c - 48)))
            &&& spec_decode(seq![INTEGER_MARKER, MINUS] + t + seq![END_MARKER]) == Ok::<SpecValue, DecodeError>(
                SpecValue::Integer(-v),
            )
        },
{
    let single = seq![INTEGER_MARKER, c, END_MARKER];
    lemma_first_index_at(single, 1, 2, END_MARKER);
    let number = single.subrange(1, 2);
    assert(number =~= seq![c]);
    assert(number.drop_last().len() == 0);
    assert(crate::text::decimal_value(number.drop_last()) == 0);
    if plain_numeral(t) {
        let input = seq![INTEGER_MARKER] + t + seq![END_MARKER];
        let end: int = 1int + t.len();
        assert forall|k: int| 1 <= k < end implies input[k] != END_MARKER by {
            assert(input[k] == t[k - 1]);
        }
        lemma_first_index_at(input, 1, end, END_MARKER);
        assert(input.subrange(1, end) =~= t);
        assert(t[0] != MINUS);
        let longer = seq![INTEGER_MARKER] + t + seq![c, END_MARKER];
        let tc = t.push(c);
        assert forall|k: int| 1 <= k < end + 1 implies longer[k] != END_MARKER by {
            if k < end {
                assert(longer[k] == t[k - 1]);
            }
        }
        lemma_first_index_at(longer, 1, end + 1, END_MARKER);
        assert(longer.subrange(1, end + 1) =~= tc);
        assert(tc.drop_last() =~= t);
        assert(tc[0] == t[0]);
        let negative = seq![INTEGER_MARKER, MINUS] + t + seq![END_MARKER];
        assert forall|k: int| 1 <= k < end + 1 implies negative[k] != END_MARKER by {
            if k > 1 {
                assert(negative[k] == t[k - 2]);
            }
        }
        lemma_first_index_at(negative, 1, end + 1, END_MARKER);
        assert(negative.subrange(1, end + 1).drop_first() =~= t);
    }
}

/// Negative integers are read in base ten too: appending a digit `d` to the
/// digits after `-` of a decoded `w` gives `10 * w - d` while that fits in
/// `i64` (which reaches `i64::MIN`, whose magnitude no positive text has).
pub proof fn law_decoded_negative_integer_is_decimal(t: Seq<u8>, w: int, c: u8)
    requires
        48 <= c <= 57,
        plain_numeral(t),
        spec_decode(seq![INTEGER_MARKER, MINUS] + t + seq![END_MARKER]) == Ok::<SpecValue, DecodeError>(
            SpecValue::Integer(w),
        ),
        10 * w - (c - 48) >= i64::MIN,
    ensures
        spec_decode(seq![INTEGER_MARKER, MINUS] + t + seq![c, END_MARKER]) == Ok::<SpecValue, DecodeError>(
            SpecValue::Integer(10 * w - (c - 48)),
        ),
{
    let input = seq![INTEGER_MARKER, MINUS] + t + seq![END_MARKER];
    let end: int = 2int + t.len();
    assert forall|k: int| 1 <= k < end implies input[k] != END_MARKER by {
        if k > 1 {
            assert(input[k] == t[k - 2]);
        }
    }
    lemma_first_index_at(input, 1, end, END_MARKER);
    assert(input.subrange(1, end).drop_first() =~= t);
    let longer = seq![INTEGER_MARKER, MINUS] + t + seq![c, END_MARKER];
    let tc = t.push(c);
    assert forall|k: int| 1 <= k < end + 1 implies longer[k] != END_MARKER by {
        if 1 < k < end {
            assert(longer[k] == t[k - 2]);
        }
    }
    lemma_first_index_at(longer, 1, end + 1, END_MARKER);
    assert(longer.subrange(1, end + 1).drop_first() =~= tc);
    assert(tc.drop_last() =~= t);
    assert(tc[0] == t[0]);
}

/// The decoder reads a byte string's length in ordinary base ten: a single
/// digit `k` before `:` takes `k` bytes, and when the digits `h` take the
/// bytes `b`, the digits `h` followed by `d` take `10 * |b| + d` bytes.
pub proof fn law_decoded_length_is_decimal(b: Seq<u8>, h: Seq<u8>, longer: Seq<u8>)
    ensures
        b.len() <= 9 ==> spec_decode(seq![(48 + b.len()) as u8, COLON] + b) == Ok::<SpecValue, DecodeError>(
            SpecValue::Bytes(b),
        ),
        plain_numeral(h) && spec_decode(h + seq![COLON] + b) == Ok::<SpecValue, DecodeError>(SpecValue::Bytes(b))
            && longer.len() >= 10 * b.len() && longer.len() <= 10 * b.len() + 9 && longer.len() <= usize::MAX
            ==> spec_decode(h + seq![(48 + longer.len() - 10 * b.len()) as u8, COLON] + longer) == Ok::<
            SpecValue,
            DecodeError,
        >(SpecValue::Bytes(longer)),
{
    if b.len() <= 9 {
        let input = seq![(48 + b.len()) as u8, COLON] + b;
        lemma_first_index_at(input, 0, 1, COLON);
        let lt = input.subrange(0, 1);
        assert(lt =~= seq![(48 + b.len()) as u8]);
        assert(lt.drop_last().len() == 0);
        assert(crate::text::decimal_value(lt.drop_last()) == 0);
        assert(input.subrange(2, 2 + b.len() as int) =~= b);
    }
    if plain_numeral(h) && spec_decode(h + seq![COLON] + b) == Ok::<SpecValue, DecodeError>(SpecValue::Bytes(b))
        && longer.len() >= 10 * b.len() && longer.len() <= 10 * b.len() + 9 && longer.len() <= usize::MAX {
        let input = h + seq![COLON] + b;
        assert forall|k: int| 0 <= k < h.len() implies input[k] != COLON by {
            assert(input[k] == h[k]);
        }
        lemma_first_index_at(input, 0, h.len() as int, COLON);
        assert(input.subrange(0, h.len() as int) =~= h);
        let n = crate::text::decimal_value(h);
        assert(input.subrange(h.len() + 1int, h.len() + 1 + n as int) == b);
        assert(n == b.len());
        let d = (48 + longer.len() - 10 * b.len()) as u8;
        let h2 = h.push(d);
        let input2 = h + seq![d, COLON] + longer;
        assert forall|k: int| 0 <= k < h2.len() implies input2[k] != COLON by {
            if k < h.len() {
                assert(input2[k] == h[k]);
            }
        }
        lemma_first_index_at(input2, 0, h2.len() as int, COLON);
        assert(input2.subrange(0, h2.len() as int) =~= h2);
        assert(h2.drop_last() =~= h);
        assert(h2[0] == h[0]);
        assert(crate::text::decimal_value(h2) == longer.len());
        assert(input2.subrange(h2.len() + 1int, h2.len() + 1 + longer.len() as int) =~= longer);
    }
}

} // verus!
