//! Decimal text: the digits of lengths and integers, as bytes.

use vstd::prelude::*;
use crate::ascii::{DIGIT_NINE, DIGIT_ZERO, MINUS};

verus! {

/// Whether `b` is one of the ASCII digits `0` to `9`.
pub open spec fn is_digit(b: u8) -> bool {
    DIGIT_ZERO <= b <= DIGIT_NINE
}

/// Whether every byte of `s` is an ASCII digit.
pub open spec fn all_digits(s: Seq<u8>) -> bool {
    forall|i: int| 0 <= i < s.len() ==> is_digit(#[trigger] s[i])
}

/// The number that the digits `s` denote, most significant digit first.
pub open spec fn digits_value(s: Seq<u8>) -> nat
    decreases s.len(),
{
    if s.len() == 0 {
        0
    } else {
        digits_value(s.drop_last()) * 10 + (s.last() - DIGIT_ZERO) as nat
    }
}

/// The decimal text of `n`: no leading zero, and `0` for zero.
pub open spec fn decimal(n: nat) -> Seq<u8>
    decreases n,
{
    if n < 10 {
        seq![(DIGIT_ZERO + n) as u8]
    } else {
        decimal(n / 10).push((DIGIT_ZERO + n % 10) as u8)
    }
}

/// Whether `s` is the text of a number as `decimal` writes it.
pub open spec fn is_canonical(s: Seq<u8>) -> bool {
    &&& s.len() > 0
    &&& all_digits(s)
    &&& s[0] == DIGIT_ZERO ==> s.len() == 1
}

/// The decimal text of an integer: a minus sign before the digits of a
/// negative one.
pub open spec fn signed_decimal(i: int) -> Seq<u8> {
    if i < 0 {
        seq![MINUS] + decimal((-i) as nat)
    } else {
        decimal(i as nat)
    }
}

/// The integer that `s` denotes: an optional minus sign and at least one
/// digit, and nothing else.
pub open spec fn signed_value(s: Seq<u8>) -> Option<int> {
    if s.len() > 0 && s[0] == MINUS {
        if s.len() > 1 && all_digits(s.skip(1)) {
            Some(-(digits_value(s.skip(1)) as int))
        } else {
            None
        }
    } else if s.len() > 0 && all_digits(s) {
        Some(digits_value(s) as int)
    } else {
        None
    }
}

/// Whether the byte is an ASCII digit.
pub fn digit(b: u8) -> (r: bool)
    ensures
        r == is_digit(b),
{
    b >= DIGIT_ZERO && b <= DIGIT_NINE
}

/// The text of a number is canonical and denotes that number.
pub proof fn lemma_decimal_canonical(n: nat)
    ensures
        is_canonical(decimal(n)),
        decimal(n)[0] == DIGIT_ZERO <==> n == 0,
        digits_value(decimal(n)) == n,
    decreases n,
{
    if n < 10 {
        let s = decimal(n);
        assert(s.drop_last() =~= Seq::<u8>::empty());
        assert(digits_value(s.drop_last()) == 0);
    } else {
        lemma_decimal_canonical(n / 10);
        let s = decimal(n);
        assert(s.drop_last() =~= decimal(n / 10));
    }
}

/// One more digit at the end makes the number ten times as large, and the
/// digit is added.
pub proof fn lemma_digits_value_push(s: Seq<u8>, b: u8)
    ensures
        digits_value(s.push(b)) == digits_value(s) * 10 + (b - DIGIT_ZERO) as nat,
{
    assert(s.push(b).drop_last() =~= s);
}

/// The canonical text of a number is unique.
pub proof fn lemma_canonical_unique(s: Seq<u8>)
    requires
        is_canonical(s),
    ensures
        decimal(digits_value(s)) == s,
    decreases s.len(),
{
    if s.len() == 1 {
        assert(s.drop_last() =~= Seq::<u8>::empty());
        assert(digits_value(s.drop_last()) == 0);
        assert(decimal(digits_value(s)) =~= s);
    } else {
        let t = s.drop_last();
        assert(is_canonical(t)) by {
            assert forall|i: int| 0 <= i < t.len() implies is_digit(#[trigger] t[i]) by {
                assert(t[i] == s[i]);
            }
        }
        lemma_canonical_unique(t);
        lemma_positive_value(t);
        let n = digits_value(s);
        assert(n / 10 == digits_value(t));
        assert(decimal(n) =~= s);
    }
}

/// Digits that do not start with a zero denote a positive number.
pub proof fn lemma_positive_value(s: Seq<u8>)
    requires
        s.len() > 0,
        all_digits(s),
        s[0] != DIGIT_ZERO,
    ensures
        digits_value(s) > 0,
    decreases s.len(),
{
    if s.len() == 1 {
        assert(s.drop_last() =~= Seq::<u8>::empty());
        assert(digits_value(s.drop_last()) == 0);
    } else {
        let t = s.drop_last();
        assert forall|i: int| 0 <= i < t.len() implies is_digit(#[trigger] t[i]) by {
            assert(t[i] == s[i]);
        }
        lemma_positive_value(t);
    }
}

/// Appends the decimal text of `n` to `out`.
pub fn write_decimal(out: &mut Vec<u8>, n: u64)
    ensures
        final(out)@ == old(out)@ + decimal(n as nat),
    decreases n,
{
    if n >= 10 {
        write_decimal(out, n / 10);
    }
    let d: u8 = (n % 10) as u8;
    out.push(DIGIT_ZERO + d);
    assert(final(out)@ =~= old(out)@ + decimal(n as nat));
}

/// The value of some leading digits is at most the value of them all.
pub proof fn lemma_prefix_value_le(s: Seq<u8>, k: int)
    requires
        all_digits(s),
        0 <= k <= s.len(),
    ensures
        digits_value(s.take(k)) <= digits_value(s),
    decreases s.len() - k,
{
    if k == s.len() {
        assert(s.take(k) =~= s);
    } else {
        lemma_prefix_value_le(s, k + 1);
        assert(s.take(k + 1).drop_last() =~= s.take(k));
    }
}

/// The machine integer that `s` denotes, where it denotes one that fits.
pub open spec fn int_value(s: Seq<u8>) -> Option<i64> {
    match signed_value(s) {
        Some(v) => if i64::MIN <= v <= i64::MAX {
            Some(v as i64)
        } else {
            None
        },
        None => None,
    }
}

/// Appends the decimal text of `i` to `out`.
pub fn write_int(out: &mut Vec<u8>, i: i64)
    ensures
        final(out)@ == old(out)@ + signed_decimal(i as int),
{
    if i < 0 {
        out.push(MINUS);
        let below: u64 = (-(i + 1)) as u64;
        write_decimal(out, below + 1);
        assert(final(out)@ =~= old(out)@ + signed_decimal(i as int));
    } else {
        write_decimal(out, i as u64);
    }
}

/// Reads a decimal integer: an optional minus sign, then digits and nothing
/// else.
pub fn parse_int(text: &[u8]) -> (r: Option<i64>)
    ensures
        r == int_value(text@),
{
    let n: usize = text.len();
    if n == 0 {
        return None;
    }
    let negative: bool = text[0] == MINUS;
    let start: usize = if negative { 1 } else { 0 };
    if start >= n {
        return None;
    }
    let ghost digits: Seq<u8> = text@.skip(start as int);
    let most: u64 = i64::MAX as u64;
    let limit: u64 = if negative { most + 1 } else { most };
    let mut acc: u64 = 0;
    let mut i: usize = start;
    while i < n
        invariant
            start <= i <= n,
            n == text@.len(),
            digits == text@.skip(start as int),
            all_digits(digits.take(i - start)),
            acc == digits_value(digits.take(i - start)),
            acc <= limit,
            negative == (text@[0] == MINUS),
            start == if negative { 1usize } else { 0usize },
            limit == if negative { i64::MAX + 1 } else { i64::MAX as int },
        decreases n - i,
    {
        let b: u8 = text[i];
        assert(digits[i - start] == b);
        if !digit(b) {
            proof {
                assert(!is_digit(digits[i - start]));
                assert(text@.skip(0) =~= text@);
            }
            return None;
        }
        let d: u64 = (b - DIGIT_ZERO) as u64;
        proof {
            assert(digits.take(i - start + 1).drop_last() =~= digits.take(i - start));
            assert forall|j: int| 0 <= j < i - start + 1 implies is_digit(
                #[trigger] digits.take(i - start + 1)[j],
            ) by {
                if j < i - start {
                    assert(digits.take(i - start)[j] == digits[j]);
                }
            }
        }
        if acc > (limit - d) / 10 {
            proof {
                assert(text@.skip(0) =~= text@);
                if all_digits(digits) {
                    lemma_prefix_value_le(digits, i - start + 1);
                }
            }
            return None;
        }
        acc = acc * 10 + d;
        i = i + 1;
    }
    proof {
        assert(digits.take(i - start) =~= digits);
    }
    if negative {
        if acc > most {
            Some(i64::MIN)
        } else {
            Some(-(acc as i64))
        }
    } else {
        proof {
            assert(digits =~= text@);
        }
        Some(acc as i64)
    }
}

/// The text of a machine integer is read back as that integer.
pub proof fn lemma_int_round_trip(i: int)
    requires
        i64::MIN <= i <= i64::MAX,
    ensures
        int_value(signed_decimal(i)) == Some(i as i64),
{
    let text = signed_decimal(i);
    if i < 0 {
        let n = (-i) as nat;
        lemma_decimal_canonical(n);
        assert(text.skip(1) =~= decimal(n));
        assert(text[0] == MINUS);
    } else {
        lemma_decimal_canonical(i as nat);
        assert(is_digit(text[0]));
    }
}

} // verus!
