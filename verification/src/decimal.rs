//! Decimal numerals: how integers are written on the wire and read back.

use vstd::prelude::*;

verus! {

/// ASCII `0`.
pub const DIGIT_ZERO: u8 = 48;

/// ASCII `+`.
pub const PLUS: u8 = 43;

/// ASCII `-`.
pub const MINUS: u8 = 45;

/// Largest magnitude of a non-negative `i64`.
pub const MAX_POSITIVE: u64 = 9223372036854775807;

/// Magnitude of `i64::MIN`.
pub const MAX_NEGATIVE: u64 = 9223372036854775808;

pub open spec fn is_digit(b: u8) -> bool {
    48 <= b <= 57
}

pub open spec fn all_digits(s: Seq<u8>) -> bool {
    forall|i: int| 0 <= i < s.len() ==> is_digit(#[trigger] s[i])
}

/// The numeral of a natural number: most significant digit first, no
/// leading zero, `0` written as a single digit.
pub open spec fn decimal_nat(n: nat) -> Seq<u8>
    decreases n,
{
    if n < 10 {
        seq![(48 + n) as u8]
    } else {
        decimal_nat(n / 10).push((48 + n % 10) as u8)
    }
}

/// The numeral of an integer: a `-` before the magnitude of a negative
/// number, nothing before a non-negative one.
pub open spec fn decimal(n: int) -> Seq<u8> {
    if n < 0 {
        seq![MINUS] + decimal_nat((-n) as nat)
    } else {
        decimal_nat(n as nat)
    }
}

/// The number that a run of digits denotes (0 for the empty run).
pub open spec fn digits_value(s: Seq<u8>) -> nat
    decreases s.len(),
{
    if s.len() == 0 {
        0
    } else {
        digits_value(s.drop_last()) * 10 + (s.last() - 48) as nat
    }
}

/// The digits of a numeral: what follows its optional sign.
pub open spec fn unsigned_part(s: Seq<u8>) -> Seq<u8> {
    if s.len() > 0 && (s[0] == MINUS || s[0] == PLUS) {
        s.subrange(1, s.len() as int)
    } else {
        s
    }
}

/// The integer that a numeral denotes before any range check.
pub open spec fn signed_value(s: Seq<u8>) -> int {
    if s.len() > 0 && s[0] == MINUS {
        -(digits_value(unsigned_part(s)) as int)
    } else {
        digits_value(unsigned_part(s)) as int
    }
}

/// Reading of a numeral: an optional `+` or `-`, then one or more digits,
/// the value within the range of `i64`. Leading zeros are accepted.
pub open spec fn integer_value(s: Seq<u8>) -> Option<i64> {
    if unsigned_part(s).len() > 0 && all_digits(unsigned_part(s)) && i64::MIN <= signed_value(s)
        <= i64::MAX {
        Some(signed_value(s) as i64)
    } else {
        None
    }
}

/// A numeral is made of digits, is not empty and denotes its number.
pub proof fn lemma_decimal_nat(n: nat)
    ensures
        decimal_nat(n).len() > 0,
        all_digits(decimal_nat(n)),
        digits_value(decimal_nat(n)) == n,
    decreases n,
{
    if n >= 10 {
        lemma_decimal_nat(n / 10);
        let s = decimal_nat(n);
        assert(s.drop_last() =~= decimal_nat(n / 10));
    } else {
        let s = decimal_nat(n);
        assert(s.drop_last() =~= Seq::<u8>::empty());
        assert(digits_value(s.drop_last()) == 0);
    }
}

/// Reading the numeral of an `i64` gives the number back.
pub proof fn lemma_decimal_read_back(n: i64)
    ensures
        integer_value(decimal(n as int)) == Some(n),
        n >= 0 ==> integer_value(seq![PLUS] + decimal(n as int)) == Some(n),
{
    if n < 0 {
        let m = (-n) as nat;
        lemma_decimal_nat(m);
        let s = decimal(n as int);
        assert(s[0] == MINUS);
        assert(unsigned_part(s) =~= decimal_nat(m));
    } else {
        let m = n as nat;
        lemma_decimal_nat(m);
        let s = decimal(n as int);
        assert(is_digit(s[0]));
        assert(unsigned_part(s) == s);
        let p = seq![PLUS] + s;
        assert(p[0] == PLUS);
        assert(unsigned_part(p) =~= s);
    }
}

/// No byte of a numeral is a carriage return or a line feed.
pub proof fn lemma_decimal_bytes(n: int, i: int)
    requires
        0 <= i < decimal(n).len(),
    ensures
        is_digit(decimal(n)[i]) || decimal(n)[i] == MINUS,
{
    if n < 0 {
        lemma_decimal_nat((-n) as nat);
        if i > 0 {
            assert(decimal(n)[i] == decimal_nat((-n) as nat)[i - 1]);
        }
    } else {
        lemma_decimal_nat(n as nat);
    }
}

/// A run of digits denotes at least what any of its prefixes denotes.
pub proof fn lemma_digits_value_prefix(s: Seq<u8>, k: int)
    requires
        0 <= k <= s.len(),
        all_digits(s),
    ensures
        digits_value(s.take(k)) <= digits_value(s),
    decreases s.len() - k,
{
    if k < s.len() {
        assert(s.take(k + 1).drop_last() =~= s.take(k));
        assert(s.take(k + 1).last() == s[k]);
        lemma_digits_value_prefix(s, k + 1);
    } else {
        assert(s.take(k) =~= s);
    }
}

/// Appends the numeral of `n` to `out`.
pub fn push_decimal_u64(n: u64, out: &mut Vec<u8>)
    ensures
        final(out)@ == old(out)@ + decimal_nat(n as nat),
    decreases n,
{
    if n >= 10 {
        push_decimal_u64(n / 10, out);
    }
    let digit: u8 = DIGIT_ZERO + (n % 10) as u8;
    out.push(digit);
    proof {
        if n >= 10 {
            assert(final(out)@ =~= old(out)@ + decimal_nat(n as nat));
        } else {
            assert(final(out)@ =~= old(out)@ + decimal_nat(n as nat));
        }
    }
}

/// Appends the numeral of `n` to `out`.
pub fn push_decimal_i64(n: i64, out: &mut Vec<u8>)
    ensures
        final(out)@ == old(out)@ + decimal(n as int),
{
    if n < 0 {
        out.push(MINUS);
        let magnitude: u64 = if n == i64::MIN {
            MAX_NEGATIVE
        } else {
            (-n) as u64
        };
        push_decimal_u64(magnitude, out);
        assert(final(out)@ =~= old(out)@ + decimal(n as int));
    } else {
        push_decimal_u64(n as u64, out);
    }
}

/// Reads the numeral in `buf[start..end]`.
pub fn parse_integer(buf: &[u8], start: usize, end: usize) -> (value: Option<i64>)
    requires
        start <= end <= buf@.len(),
    ensures
        value == integer_value(buf@.subrange(start as int, end as int)),
{
    let ghost text = buf@.subrange(start as int, end as int);
    let negative = start < end && buf[start] == MINUS;
    let signed = start < end && (buf[start] == MINUS || buf[start] == PLUS);
    let first: usize = if signed {
        start + 1
    } else {
        start
    };
    let ghost digits = unsigned_part(text);
    assert(digits =~= buf@.subrange(first as int, end as int));
    if first == end {
        return None;
    }
    let limit: u64 = if negative {
        MAX_NEGATIVE
    } else {
        MAX_POSITIVE
    };
    let mut magnitude: u64 = 0;
    let mut i: usize = first;
    assert(digits.take(0) =~= Seq::<u8>::empty());
    while i < end
        invariant
            start <= first <= i <= end <= buf@.len(),
            text == buf@.subrange(start as int, end as int),
            digits == buf@.subrange(first as int, end as int),
            digits == unsigned_part(text),
            negative == (text.len() > 0 && text[0] == MINUS),
            limit == if negative { MAX_NEGATIVE } else { MAX_POSITIVE },
            all_digits(digits.take(i - first)),
            magnitude == digits_value(digits.take(i - first)),
            magnitude <= limit,
        decreases end - i,
    {
        let b = buf[i];
        assert(b == digits[i - first]);
        if b < DIGIT_ZERO || b > DIGIT_ZERO + 9 {
            assert(!is_digit(digits[i - first]));
            return None;
        }
        let d: u64 = (b - DIGIT_ZERO) as u64;
        proof {
            let next = digits.take(i - first + 1);
            assert(next.drop_last() =~= digits.take(i - first));
            assert(next.last() == b);
            assert(digits_value(next) == magnitude * 10 + d);
            assert forall|j: int| 0 <= j < next.len() implies is_digit(#[trigger] next[j]) by {
                if j < i - first {
                    assert(next[j] == digits.take(i - first)[j]);
                }
            }
        }
        if magnitude > (limit - d) / 10 {
            proof {
                if all_digits(digits) {
                    lemma_digits_value_prefix(digits, i - first + 1);
                }
            }
            return None;
        }
        magnitude = magnitude * 10 + d;
        i = i + 1;
    }
    assert(digits.take(i - first) =~= digits);
    if negative {
        if magnitude == MAX_NEGATIVE {
            Some(i64::MIN)
        } else {
            Some(-(magnitude as i64))
        }
    } else {
        Some(magnitude as i64)
    }
}

} // verus!
