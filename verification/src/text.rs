//! ASCII decimal numerals: their value, their canonical spelling, and the
//! executable code that reads and writes them.
use vstd::prelude::*;

verus! {

/// The ASCII code of the digit `0`.
pub const ZERO: u8 = 48;
/// The ASCII code of the digit `9`.
pub const NINE: u8 = 57;
/// `i`, which opens an integer.
pub const INTEGER_MARKER: u8 = 105;
/// `l`, which opens a list.
pub const LIST_MARKER: u8 = 108;
/// `d`, which opens a dictionary.
pub const DICTIONARY_MARKER: u8 = 100;
/// `e`, which closes an integer, a list or a dictionary.
pub const END_MARKER: u8 = 101;
/// `:`, which ends the length of a byte string.
pub const COLON: u8 = 58;
/// `-`, the sign of a negative integer.
pub const MINUS: u8 = 45;

/// `b` is an ASCII decimal digit.
pub open spec fn is_digit(b: u8) -> bool {
    48 <= b <= 57
}

/// Every byte of `s` is an ASCII decimal digit.
pub open spec fn all_digits(s: Seq<u8>) -> bool {
    forall|i: int| 0 <= i < s.len() ==> #[trigger] is_digit(s[i])
}

/// The number that the decimal digits `s` spell, most significant first.
pub open spec fn decimal_value(s: Seq<u8>) -> nat
    decreases s.len(),
{
    if s.len() == 0 {
        0
    } else {
        decimal_value(s.drop_last()) * 10 + (s.last() - 48) as nat
    }
}

/// The canonical decimal spelling of `n`: no leading zero, `0` for zero.
pub open spec fn decimal_digits(n: nat) -> Seq<u8>
    decreases n,
{
    if n < 10 {
        seq![(n + 48) as u8]
    } else {
        decimal_digits(n / 10).push((n % 10 + 48) as u8)
    }
}

/// A numeral is canonical when it has digits and no leading zero.
pub open spec fn canonical_numeral(s: Seq<u8>) -> bool {
    &&& s.len() > 0
    &&& all_digits(s)
    &&& (s.len() > 1 ==> s[0] != 48)
}

/// Spelling a number and reading it back gives the number; the spelling is
/// a canonical numeral.
pub proof fn lemma_decimal_digits(n: nat)
    ensures
        canonical_numeral(decimal_digits(n)),
        decimal_value(decimal_digits(n)) == n,
        decimal_digits(n).len() >= 1,
    decreases n,
{
    let s = decimal_digits(n);
    if n >= 10 {
        lemma_decimal_digits(n / 10);
        let d = decimal_digits(n / 10);
        assert(s.drop_last() == d);
        assert(s.last() == (n % 10 + 48) as u8);
        assert forall|i: int| 0 <= i < s.len() implies #[trigger] is_digit(s[i]) by {
            if i < d.len() {
                assert(s[i] == d[i]);
            }
        }
        assert(s[0] == d[0]);
        if n / 10 < 10 {
            assert(d[0] == (n / 10 + 48) as u8);
        } else {
            assert(d.len() >= 2) by {
                lemma_decimal_digits((n / 10) / 10);
            }
        }
        assert(decimal_value(s) == decimal_value(d) * 10 + (n % 10));
        assert(n == (n / 10) * 10 + n % 10) by (nonlinear_arith);
    } else {
        assert(s.drop_last().len() == 0);
        assert(decimal_value(s.drop_last()) == 0);
        assert(is_digit(s[0]));
    }
}

/// A canonical numeral is the spelling of its value.
pub proof fn lemma_canonical_numeral_unique(s: Seq<u8>)
    requires
        canonical_numeral(s),
    ensures
        decimal_digits(decimal_value(s)) == s,
    decreases s.len(),
{
    if s.len() == 1 {
        assert(s.drop_last().len() == 0);
        assert(decimal_value(s.drop_last()) == 0);
        assert(is_digit(s[0]));
        assert(s.last() == s[0]);
        assert(decimal_value(s) == (s[0] - 48) as nat);
        assert(decimal_digits(decimal_value(s)) == seq![s[0]]);
        assert(decimal_digits(decimal_value(s)) =~= s);
    } else {
        let p = s.drop_last();
        assert forall|i: int| 0 <= i < p.len() implies #[trigger] is_digit(p[i]) by {
            assert(p[i] == s[i]);
        }
        assert(p[0] == s[0]);
        lemma_canonical_numeral_unique(p);
        lemma_value_nonzero_lead(p);
        assert(is_digit(s[s.len() - 1]));
        let v = decimal_value(s);
        assert(v / 10 == decimal_value(p));
        assert(v % 10 == (s.last() - 48) as nat);
        assert(decimal_digits(v) =~= s);
    }
}

/// A numeral whose first digit is not zero has a positive value.
pub proof fn lemma_value_nonzero_lead(s: Seq<u8>)
    requires
        s.len() > 0,
        all_digits(s),
        s[0] != 48,
    ensures
        decimal_value(s) >= 1,
    decreases s.len(),
{
    if s.len() > 1 {
        let p = s.drop_last();
        assert forall|i: int| 0 <= i < p.len() implies #[trigger] is_digit(p[i]) by {
            assert(p[i] == s[i]);
        }
        assert(p[0] == s[0]);
        lemma_value_nonzero_lead(p);
    } else {
        assert(is_digit(s[0]));
        assert(s.drop_last().len() == 0);
    }
}

/// The value of a numeral is at least the value of each of its prefixes.
pub proof fn lemma_decimal_value_prefix(s: Seq<u8>, k: int)
    requires
        0 <= k <= s.len(),
    ensures
        decimal_value(s.take(k)) <= decimal_value(s),
    decreases s.len(),
{
    if k < s.len() {
        lemma_decimal_value_prefix(s.drop_last(), k);
        assert(s.drop_last().take(k) == s.take(k));
    } else {
        assert(s.take(k) == s);
    }
}

/// Reads the decimal digits `s[start..end]`, giving their value when it is at
/// most `limit` and `None` when it is larger.
pub fn parse_decimal(s: &[u8], start: usize, end: usize, limit: u64) -> (r: Option<u64>)
    requires
        start <= end <= s@.len(),
        all_digits(s@.subrange(start as int, end as int)),
    ensures
        r matches Some(v) ==> v == decimal_value(s@.subrange(start as int, end as int)) && v <= limit,
        r is None ==> decimal_value(s@.subrange(start as int, end as int)) > limit,
{
    let ghost digits = s@.subrange(start as int, end as int);
    let mut acc: u128 = 0;
    let mut i: usize = start;
    assert(s@.subrange(start as int, start as int) =~= Seq::<u8>::empty());
    while i < end
        invariant
            start <= i <= end <= s@.len(),
            digits == s@.subrange(start as int, end as int),
            all_digits(digits),
            acc == decimal_value(s@.subrange(start as int, i as int)),
            acc <= limit,
        decreases end - i,
    {
        let ghost prev = s@.subrange(start as int, i as int);
        let ghost next = s@.subrange(start as int, i + 1);
        assert(next.drop_last() =~= prev);
        assert(next.last() == digits[i - start]);
        assert(is_digit(digits[i - start]));
        let d = s[i] - ZERO;
        acc = acc * 10 + d as u128;
        i = i + 1;
        if acc > limit as u128 {
            proof {
                assert(digits.take(i - start) =~= next);
                lemma_decimal_value_prefix(digits, i - start);
            }
            return None;
        }
    }
    Some(acc as u64)
}

/// Appends the canonical decimal spelling of `n` to `out`.
pub fn push_decimal(out: &mut Vec<u8>, n: u64)
    ensures
        final(out)@ == old(out)@ + decimal_digits(n as nat),
    decreases n,
{
    if n >= 10 {
        push_decimal(out, n / 10);
    }
    out.push(ZERO + (n % 10) as u8);
    proof {
        if n >= 10 {
            assert(final(out)@ =~= old(out)@ + decimal_digits(n as nat));
        } else {
            assert(final(out)@ =~= old(out)@ + decimal_digits(n as nat));
        }
    }
}

} // verus!
