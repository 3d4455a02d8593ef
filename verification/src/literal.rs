//! Decimal literals: the texts that are read as floating-point numbers.

use vstd::prelude::*;
use crate::ascii::{DIGIT_FIVE, DIGIT_ZERO, LOWER_E, MINUS, PLUS, POINT, UPPER_E};
use crate::digits::{all_digits, digit, digits_value, is_digit};
use crate::bytes::append;
use crate::float::{zeros, Float, MAX_EXPONENT, MIN_EXPONENT};

verus! {

/// The index of the first byte at or after `from` that is `a` or `b`; the
/// length of `s` where there is none.
pub open spec fn find_byte(s: Seq<u8>, a: u8, b: u8, from: int) -> int
    decreases s.len() - from,
{
    if 0 <= from < s.len() && s[from] != a && s[from] != b {
        find_byte(s, a, b, from + 1)
    } else {
        from
    }
}

/// The index of the first byte at or after `from` that is not `0`; the
/// length of `s` where only zeros follow.
pub open spec fn zeros_end(s: Seq<u8>, from: int) -> int
    decreases s.len() - from,
{
    if 0 <= from < s.len() && s[from] == DIGIT_ZERO {
        zeros_end(s, from + 1)
    } else {
        from
    }
}

/// Whether every byte of `s` is `0`.
pub open spec fn all_zeros(s: Seq<u8>) -> bool {
    forall|i: int| 0 <= i < s.len() ==> #[trigger] s[i] == DIGIT_ZERO
}

/// Ten to the power `n`.
pub open spec fn pow10(n: nat) -> nat
    decreases n,
{
    if n == 0 {
        1
    } else {
        10 * pow10((n - 1) as nat)
    }
}

/// The number of bytes that a sign takes at the start of `s`: one or none.
pub open spec fn sign_len(s: Seq<u8>) -> int {
    if s.len() > 0 && (s[0] == MINUS || s[0] == PLUS) {
        1
    } else {
        0
    }
}

/// The parts of a decimal literal.
pub ghost struct Literal {
    /// Whether the literal starts with a minus sign.
    pub negative: bool,
    /// The digits before the point.
    pub whole: Seq<u8>,
    /// The digits after the point.
    pub fraction: Seq<u8>,
    /// The power of ten that the exponent part names; zero without one.
    pub exponent: int,
}

/// The number that an exponent part names after its `e`: an optional sign
/// and at least one digit.
pub open spec fn exponent_value(s: Seq<u8>) -> Option<int> {
    let digits = s.skip(sign_len(s));
    if digits.len() > 0 && all_digits(digits) {
        if s[0] == MINUS {
            Some(-(digits_value(digits) as int))
        } else {
            Some(digits_value(digits) as int)
        }
    } else {
        None
    }
}

/// Reads `text` as a decimal literal: an optional sign; digits with at most
/// one point among them, before them or after them; and an optional exponent
/// part, which is `e` or `E`, an optional sign and digits.
pub open spec fn literal(text: Seq<u8>) -> Option<Literal> {
    let body = text.skip(sign_len(text));
    let e = find_byte(body, LOWER_E, UPPER_E, 0);
    let mantissa = body.take(e);
    let p = find_byte(mantissa, POINT, POINT, 0);
    let whole = mantissa.take(p);
    let fraction = if p < mantissa.len() {
        mantissa.skip(p + 1)
    } else {
        Seq::<u8>::empty()
    };
    let exponent = if e < body.len() {
        exponent_value(body.skip(e + 1))
    } else {
        Some(0int)
    };
    if all_digits(whole) && all_digits(fraction) && whole.len() + fraction.len() > 0
        && exponent is Some {
        Some(
            Literal {
                negative: text.len() > 0 && text[0] == MINUS,
                whole,
                fraction,
                exponent: exponent->Some_0,
            },
        )
    } else {
        None
    }
}

/// The first six of the digits `s`; where there are fewer, zeros stand in
/// for the missing ones.
pub open spec fn first_six(s: Seq<u8>) -> Seq<u8> {
    (s + zeros(6)).take(6)
}

/// The first six of the significant digits `s` as one number.
pub open spec fn head_value(s: Seq<u8>) -> nat {
    digits_value(first_six(s))
}

/// Whether the digits after the sixth round the number up: they are more
/// than half a unit of the sixth digit, or exactly half and the sixth digit
/// is odd.
pub open spec fn rounds_up(s: Seq<u8>) -> bool {
    s.len() > 6 && (s[6] > DIGIT_FIVE || (s[6] == DIGIT_FIVE && (!all_zeros(s.skip(7))
        || head_value(s) % 2 == 1)))
}

/// The number with the significant digits `s`, the first of which is not
/// zero and stands for the power of ten `exponent`, rounded to six digits;
/// `None` where the result is out of range.
pub open spec fn rounded(negative: bool, s: Seq<u8>, exponent: int) -> Option<Float> {
    let head = head_value(s) + if rounds_up(s) { 1int } else { 0int };
    let digits = if head == 1000000 { 100000int } else { head };
    let power = if head == 1000000 { exponent + 1 } else { exponent };
    if MIN_EXPONENT <= power <= MAX_EXPONENT {
        Some(Float::spec_new(negative, digits, power))
    } else {
        None
    }
}

/// The number that `text` denotes, where it is a decimal literal whose
/// value, rounded to six significant digits, is in range. A literal of zeros
/// denotes zero whatever its exponent.
pub open spec fn float_value(text: Seq<u8>) -> Option<Float> {
    match literal(text) {
        None => None,
        Some(l) => {
            let all = l.whole + l.fraction;
            let z = zeros_end(all, 0);
            if z == all.len() {
                Some(Float::spec_new(l.negative, 0, 0))
            } else {
                rounded(l.negative, all.skip(z), l.whole.len() - 1 - z + l.exponent)
            }
        },
    }
}

/// `zeros_end` stops at the first byte that is not a zero.
pub proof fn lemma_zeros_end(s: Seq<u8>, from: int)
    requires
        0 <= from <= s.len(),
    ensures
        from <= zeros_end(s, from) <= s.len(),
        forall|i: int| from <= i < zeros_end(s, from) ==> #[trigger] s[i] == DIGIT_ZERO,
        zeros_end(s, from) < s.len() ==> s[zeros_end(s, from)] != DIGIT_ZERO,
    decreases s.len() - from,
{
    if from < s.len() && s[from] == DIGIT_ZERO {
        lemma_zeros_end(s, from + 1);
    }
}

/// Digits that start with a digit other than zero denote a number with as
/// many digits.
pub proof fn lemma_value_bounds(s: Seq<u8>)
    requires
        s.len() > 0,
        all_digits(s),
        s[0] != DIGIT_ZERO,
    ensures
        pow10((s.len() - 1) as nat) <= digits_value(s) < pow10(s.len()),
    decreases s.len(),
{
    if s.len() == 1 {
        assert(s.drop_last() =~= Seq::<u8>::empty());
        assert(digits_value(s.drop_last()) == 0);
        reveal_with_fuel(pow10, 2);
    } else {
        let t = s.drop_last();
        assert forall|i: int| 0 <= i < t.len() implies is_digit(#[trigger] t[i]) by {
            assert(t[i] == s[i]);
        }
        lemma_value_bounds(t);
    }
}

/// The index in `text`, from `from` up to `to`, of the first byte that is
/// `a` or `b`; `to` where there is none.
fn find(text: &[u8], from: usize, to: usize, a: u8, b: u8) -> (r: usize)
    requires
        from <= to <= text@.len(),
    ensures
        from <= r <= to,
        r - from == find_byte(text@.subrange(from as int, to as int), a, b, 0),
{
    let ghost part = text@.subrange(from as int, to as int);
    let mut i: usize = from;
    while i < to && text[i] != a && text[i] != b
        invariant
            from <= i <= to <= text@.len(),
            part == text@.subrange(from as int, to as int),
            find_byte(part, a, b, 0) == find_byte(part, a, b, i - from),
        decreases to - i,
    {
        assert(part[i - from] == text@[i as int]);
        i = i + 1;
    }
    proof {
        if i < to {
            assert(part[i - from] == text@[i as int]);
        }
    }
    i
}

/// Whether `text` holds digits only.
fn digits_only(text: &[u8]) -> (r: bool)
    ensures
        r == all_digits(text@),
{
    let mut i: usize = 0;
    while i < text.len()
        invariant
            0 <= i <= text.len(),
            forall|j: int| 0 <= j < i ==> is_digit(#[trigger] text@[j]),
        decreases text.len() - i,
    {
        if !digit(text[i]) {
            return false;
        }
        i = i + 1;
    }
    true
}

/// A bound that no exponent of a number in range comes near, whatever the
/// length of its literal.
pub const EXPONENT_CAP: i128 = 1000000000000000000000000000000;

/// `e`, cut off at `EXPONENT_CAP` and at its negative.
pub open spec fn capped(e: int) -> int {
    if e >= EXPONENT_CAP {
        EXPONENT_CAP as int
    } else if e <= -EXPONENT_CAP {
        -EXPONENT_CAP
    } else {
        e
    }
}

/// The number that an exponent part names, cut off at `EXPONENT_CAP` and at
/// its negative.
fn parse_exponent(text: &[u8]) -> (r: Option<i128>)
    ensures
        r is Some <==> exponent_value(text@) is Some,
        r matches Some(v) ==> v == capped(exponent_value(text@)->Some_0),
{
    let n: usize = text.len();
    let start: usize = if n > 0 && (text[0] == MINUS || text[0] == PLUS) { 1 } else { 0 };
    if start >= n {
        return None;
    }
    let ghost digits = text@.skip(start as int);
    let mut acc: i128 = 0;
    let mut i: usize = start;
    while i < n
        invariant
            start <= i <= n,
            start == sign_len(text@),
            n == text@.len(),
            digits == text@.skip(start as int),
            all_digits(digits.take(i - start)),
            0 <= acc <= EXPONENT_CAP,
            acc < EXPONENT_CAP ==> acc == digits_value(digits.take(i - start)),
            acc == EXPONENT_CAP ==> digits_value(digits.take(i - start)) >= EXPONENT_CAP,
        decreases n - i,
    {
        let b: u8 = text[i];
        assert(digits[i - start] == b);
        if !digit(b) {
            assert(!is_digit(digits[i - start]));
            return None;
        }
        proof {
            assert(digits.take(i - start + 1).drop_last() =~= digits.take(i - start));
            assert forall|j: int| 0 <= j < i - start + 1 implies is_digit(
                #[trigger] digits.take(i - start + 1)[j],
            ) by {
                if j < i - start {
                    assert(digits.take(i - start)[j] == digits[j]);
                }
            }
        }
        if acc < EXPONENT_CAP {
            acc = acc * 10 + (b - DIGIT_ZERO) as i128;
            if acc > EXPONENT_CAP {
                acc = EXPONENT_CAP;
            }
        }
        i = i + 1;
    }
    proof {
        assert(digits.take(i - start) =~= digits);
    }
    if text[0] == MINUS {
        Some(-acc)
    } else {
        Some(acc)
    }
}

/// Whether a byte other than `0` stands in `s` at or after `from`.
fn any_nonzero(s: &[u8], from: usize) -> (r: bool)
    requires
        from <= s@.len(),
    ensures
        r == !all_zeros(s@.skip(from as int)),
{
    let ghost rest = s@.skip(from as int);
    let mut k: usize = from;
    while k < s.len()
        invariant
            from <= k <= s.len(),
            rest == s@.skip(from as int),
            forall|m: int| 0 <= m < k - from ==> #[trigger] rest[m] == DIGIT_ZERO,
        decreases s.len() - k,
    {
        if s[k] != DIGIT_ZERO {
            assert(rest[k - from] == s@[k as int]);
            return true;
        }
        assert(rest[k - from] == s@[k as int]);
        k = k + 1;
    }
    false
}

/// The first six significant digits as one number, and whether the digits
/// after them round it up.
fn round_six(s: &[u8]) -> (r: (u32, bool))
    requires
        s@.len() > 0,
        all_digits(s@),
        s@[0] != DIGIT_ZERO,
    ensures
        r.0 == head_value(s@),
        r.1 == rounds_up(s@),
        100000 <= r.0 <= 999999,
{
    let n: usize = s.len();
    let ghost six = first_six(s@);
    proof {
        assert(six.len() == 6);
        assert forall|j: int| 0 <= j < 6 implies is_digit(#[trigger] six[j]) by {
            if j < n {
                assert(six[j] == s@[j]);
            }
        }
        assert(six[0] == s@[0]);
    }
    let mut head: u32 = 0;
    let mut i: usize = 0;
    while i < 6
        invariant
            0 <= i <= 6,
            n == s@.len(),
            six == first_six(s@),
            all_digits(six),
            head == digits_value(six.take(i as int)),
            head < pow10(i as nat),
            pow10(i as nat) <= 1000000,
        decreases 6 - i,
    {
        let d: u8 = if i < n { s[i] } else { DIGIT_ZERO };
        proof {
            assert(six[i as int] == d);
            assert(six.take(i + 1).drop_last() =~= six.take(i as int));
            assert(is_digit(six[i as int]));
            reveal_with_fuel(pow10, 8);
        }
        head = head * 10 + (d - DIGIT_ZERO) as u32;
        i = i + 1;
    }
    proof {
        assert(six.take(6) =~= six);
        lemma_value_bounds(six);
        reveal_with_fuel(pow10, 8);
    }
    let up: bool = if n > 6 {
        let r: u8 = s[6];
        r > DIGIT_FIVE || (r == DIGIT_FIVE && (any_nonzero(s, 7) || head % 2 == 1))
    } else {
        false
    };
    (head, up)
}

/// Splits a decimal literal into its sign, the digits before the point, the
/// digits after it, and its exponent cut off at `EXPONENT_CAP`.
fn read_literal<'a>(text: &'a [u8]) -> (r: Option<(bool, &'a [u8], &'a [u8], i128)>)
    ensures
        r is Some <==> literal(text@) is Some,
        r matches Some(parts) ==> {
            let l = literal(text@)->Some_0;
            &&& parts.0 == l.negative
            &&& parts.1@ == l.whole
            &&& parts.2@ == l.fraction
            &&& parts.3 == capped(l.exponent)
        },
{
    let n: usize = text.len();
    let start: usize = if n > 0 && (text[0] == MINUS || text[0] == PLUS) { 1 } else { 0 };
    let negative: bool = n > 0 && text[0] == MINUS;
    let ghost body = text@.skip(start as int);
    assert(text@.subrange(start as int, n as int) =~= body);
    let e: usize = find(text, start, n, LOWER_E, UPPER_E);
    let ghost mantissa = body.take(e - start);
    assert(text@.subrange(start as int, e as int) =~= mantissa);
    let p: usize = find(text, start, e, POINT, POINT);
    let whole = &text[start..p];
    let fraction = if p < e { &text[p + 1..e] } else { &text[e..e] };
    proof {
        assert(whole@ =~= mantissa.take(p - start));
        if p < e {
            assert(fraction@ =~= mantissa.skip(p - start + 1));
        } else {
            assert(fraction@ =~= Seq::<u8>::empty());
        }
    }
    let exponent: Option<i128> = if e < n {
        assert(text@.subrange(e + 1, n as int) =~= body.skip(e - start + 1));
        parse_exponent(&text[e + 1..n])
    } else {
        Some(0)
    };
    if !digits_only(whole) || !digits_only(fraction) || whole.len() + fraction.len() == 0 {
        return None;
    }
    match exponent {
        Some(v) => Some((negative, whole, fraction, v)),
        None => None,
    }
}

/// Reads a decimal literal and rounds it to six significant digits.
pub fn parse_float(text: &[u8]) -> (r: Option<Float>)
    ensures
        r == float_value(text@),
{
    let (negative, whole, fraction, power) = match read_literal(text) {
        Some(parts) => parts,
        None => {
            return None;
        },
    };
    let ghost l = literal(text@)->Some_0;
    let mut all: Vec<u8> = Vec::new();
    append(&mut all, whole);
    append(&mut all, fraction);
    assert(all@ =~= l.whole + l.fraction);
    let mut z: usize = 0;
    while z < all.len() && all[z] == DIGIT_ZERO
        invariant
            0 <= z <= all.len(),
            zeros_end(all@, 0) == zeros_end(all@, z as int),
        decreases all.len() - z,
    {
        z = z + 1;
    }
    if z == all.len() {
        let zero = Float::from_parts(negative, 0, 0);
        proof {
            crate::float::lemma_float_parts(zero->Some_0);
        }
        return zero;
    }
    let significant = &all[z..all.len()];
    proof {
        assert(significant@ =~= all@.skip(z as int));
        assert forall|j: int| 0 <= j < significant@.len() implies is_digit(
            #[trigger] significant@[j],
        ) by {
            assert(significant@[j] == all@[z + j]);
            if z + j < whole@.len() {
                assert(all@[z + j] == whole@[z + j]);
            } else {
                assert(all@[z + j] == fraction@[z + j - whole@.len()]);
            }
        }
    }
    let (head, up) = round_six(significant);
    let first: i128 = whole.len() as i128 - 1 - z as i128 + power;
    let bumped: u32 = if up { head + 1 } else { head };
    let digits: u32 = if bumped == 1000000 { 100000 } else { bumped };
    let place: i128 = if bumped == 1000000 { first + 1 } else { first };
    if place < MIN_EXPONENT as i128 || place > MAX_EXPONENT as i128 {
        return None;
    }
    let made = Float::from_parts(negative, digits, place as i16);
    proof {
        crate::float::lemma_float_parts(made->Some_0);
    }
    made
}

} // verus!
