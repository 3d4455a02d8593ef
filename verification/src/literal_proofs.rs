//! The text of a number is read back as that number.

use vstd::prelude::*;
use crate::ascii::{DIGIT_ZERO, LOWER_E, MINUS, PLUS, POINT, UPPER_E};
use crate::digits::{all_digits, decimal, digits_value, is_digit, lemma_decimal_canonical};
use crate::float::{
    exponent_text, float_text, lemma_float_new, lemma_float_parts, lemma_six_digits,
    mantissa_text, strip_zeros, zeros, Float, MAX_EXPONENT, MIN_EXPONENT,
};
use crate::literal::{
    exponent_value, find_byte, first_six, float_value, head_value, literal, rounded, rounds_up,
    sign_len, zeros_end, Literal,
};

verus! {

/// What `strip_zeros` leaves is the start of `s`, and what it takes away are
/// zeros.
pub proof fn lemma_strip_zeros(s: Seq<u8>)
    ensures
        strip_zeros(s).len() <= s.len(),
        strip_zeros(s) == s.take(strip_zeros(s).len() as int),
        forall|i: int| strip_zeros(s).len() <= i < s.len() ==> #[trigger] s[i] == DIGIT_ZERO,
        strip_zeros(s).len() > 0 ==> strip_zeros(s).last() != DIGIT_ZERO,
    decreases s.len(),
{
    if s.len() > 0 && s.last() == DIGIT_ZERO {
        let t = s.drop_last();
        lemma_strip_zeros(t);
        let k = strip_zeros(t).len() as int;
        assert(t.take(k) =~= s.take(k));
        assert forall|i: int| strip_zeros(s).len() <= i < s.len() implies #[trigger] s[i]
            == DIGIT_ZERO by {
            if i < t.len() {
                assert(t[i] == s[i]);
            }
        }
    } else {
        assert(s.take(s.len() as int) =~= s);
    }
}

/// Only zeros at the end of `s` are taken away, so none of what stands up to
/// a byte that is not zero.
pub proof fn lemma_strip_zeros_keeps(s: Seq<u8>, i: int)
    requires
        0 <= i < s.len(),
        s[i] != DIGIT_ZERO,
    ensures
        strip_zeros(s).len() > i,
{
    lemma_strip_zeros(s);
}

/// `find_byte` stops at the first of the two bytes.
pub proof fn lemma_find_byte_at(s: Seq<u8>, a: u8, b: u8, from: int, end: int)
    requires
        0 <= from <= end <= s.len(),
        forall|i: int| from <= i < end ==> #[trigger] s[i] != a && s[i] != b,
        end < s.len() ==> s[end] == a || s[end] == b,
    ensures
        find_byte(s, a, b, from) == end,
    decreases end - from,
{
    if from < end {
        lemma_find_byte_at(s, a, b, from + 1, end);
    }
}

/// `zeros_end` stops at the first byte that is not zero.
pub proof fn lemma_zeros_end_at(s: Seq<u8>, from: int, end: int)
    requires
        0 <= from <= end <= s.len(),
        forall|i: int| from <= i < end ==> #[trigger] s[i] == DIGIT_ZERO,
        end < s.len() ==> s[end] != DIGIT_ZERO,
    ensures
        zeros_end(s, from) == end,
    decreases end - from,
{
    if from < end {
        lemma_zeros_end_at(s, from + 1, end);
    }
}

/// A zero before some digits does not change the number that they denote.
pub proof fn lemma_leading_zero(s: Seq<u8>)
    ensures
        digits_value(seq![DIGIT_ZERO] + s) == digits_value(s),
    decreases s.len(),
{
    let t = seq![DIGIT_ZERO] + s;
    if s.len() == 0 {
        assert(t.drop_last() =~= Seq::<u8>::empty());
        assert(digits_value(t.drop_last()) == 0);
    } else {
        lemma_leading_zero(s.drop_last());
        assert(t.drop_last() =~= seq![DIGIT_ZERO] + s.drop_last());
    }
}

/// The sign that a text starts with: a minus sign or nothing.
pub open spec fn sign_text(negative: bool) -> Seq<u8> {
    if negative {
        seq![MINUS]
    } else {
        Seq::<u8>::empty()
    }
}

/// What an exponent part is read as, or zero where there is none.
pub open spec fn tail_value(tail: Seq<u8>) -> Option<int> {
    if tail.len() == 0 {
        Some(0int)
    } else {
        exponent_value(tail.skip(1))
    }
}

/// A text that is made of a sign, digits around a point and an exponent part
/// is read as a literal with these parts.
pub proof fn lemma_literal_of_parts(
    negative: bool,
    whole: Seq<u8>,
    fraction: Seq<u8>,
    tail: Seq<u8>,
)
    requires
        whole.len() > 0,
        all_digits(whole),
        all_digits(fraction),
        tail.len() > 0 ==> tail[0] == LOWER_E,
    ensures
        literal(sign_text(negative) + mantissa_text(whole, fraction) + tail) == match tail_value(
            tail,
        ) {
            Some(e) => Some(
                Literal { negative, whole, fraction: strip_zeros(fraction), exponent: e },
            ),
            None => None,
        },
        all_digits(strip_zeros(fraction)),
{
    let m = mantissa_text(whole, fraction);
    let shown = strip_zeros(fraction);
    let text = sign_text(negative) + m + tail;
    lemma_strip_zeros(fraction);
    assert forall|i: int| 0 <= i < shown.len() implies is_digit(#[trigger] shown[i]) by {
        assert(shown[i] == fraction[i]);
    }
    assert(is_digit(whole[0]));
    assert(m[0] == whole[0]);
    assert(text[0] == if negative { MINUS } else { whole[0] });
    let body = text.skip(sign_len(text));
    assert(body =~= m + tail);
    assert forall|i: int| 0 <= i < m.len() implies #[trigger] body[i] != LOWER_E && body[i]
        != UPPER_E by {
        assert(body[i] == m[i]);
        if i < whole.len() {
            assert(is_digit(whole[i]));
        } else if i > whole.len() {
            assert(m[i] == shown[i - whole.len() - 1]);
            assert(is_digit(shown[i - whole.len() - 1]));
        }
    }
    if tail.len() > 0 {
        assert(body[m.len() as int] == tail[0]);
    }
    lemma_find_byte_at(body, LOWER_E, UPPER_E, 0, m.len() as int);
    let e = find_byte(body, LOWER_E, UPPER_E, 0);
    assert(body.take(e) =~= m);
    assert forall|i: int| 0 <= i < whole.len() implies #[trigger] m[i] != POINT by {
        assert(m[i] == whole[i]);
        assert(is_digit(whole[i]));
    }
    lemma_find_byte_at(m, POINT, POINT, 0, whole.len() as int);
    let p = find_byte(m, POINT, POINT, 0);
    assert(m.take(p) =~= whole);
    if p < m.len() {
        assert(m.skip(p + 1) =~= shown);
    } else {
        assert(shown =~= Seq::<u8>::empty());
    }
    if e < body.len() {
        assert(body.skip(e + 1) =~= tail.skip(1));
    }
}

/// A literal with at most six significant digits denotes the number with
/// these digits.
pub proof fn lemma_value_of_literal(
    text: Seq<u8>,
    l: Literal,
    leading: int,
    digits: nat,
    place: int,
)
    requires
        literal(text) == Some(l),
        0 <= leading < (l.whole + l.fraction).len(),
        forall|i: int| 0 <= i < leading ==> #[trigger] (l.whole + l.fraction)[i] == DIGIT_ZERO,
        (l.whole + l.fraction)[leading] != DIGIT_ZERO,
        (l.whole + l.fraction).len() - leading <= 6,
        first_six((l.whole + l.fraction).skip(leading)) == decimal(digits),
        100000 <= digits <= 999999,
        l.whole.len() - 1 - leading + l.exponent == place,
        MIN_EXPONENT <= place <= MAX_EXPONENT,
    ensures
        float_value(text) == Some(Float::spec_new(l.negative, digits as int, place)),
{
    let all = l.whole + l.fraction;
    lemma_zeros_end_at(all, 0, leading);
    lemma_six_digits(digits);
    let s = all.skip(leading);
    assert(!rounds_up(s));
    assert(head_value(s) == digits);
    assert(rounded(l.negative, s, place) == Some(Float::spec_new(l.negative, digits as int, place)));
}

/// Digits whose trailing zeros were taken away are, with zeros put back, the
/// digits that they were.
pub proof fn lemma_first_six_of_stripped(before: Seq<u8>, after: Seq<u8>)
    requires
        before.len() + after.len() == 6,
    ensures
        first_six(before + strip_zeros(after)) == before + after,
{
    lemma_strip_zeros(after);
    let shown = strip_zeros(after);
    let padded = (before + shown + zeros(6)).take(6);
    assert forall|j: int| 0 <= j < 6 implies padded[j] == (before + after)[j] by {
        if j < before.len() {
        } else if j < before.len() + shown.len() {
            assert(shown[j - before.len()] == after[j - before.len()]);
        } else {
            assert(after[j - before.len()] == DIGIT_ZERO);
        }
    }
    assert(padded =~= before + after);
}

/// The text of zero is read back as zero, with its sign.
proof fn lemma_round_trip_zero(f: Float)
    requires
        f.wf(),
        f.spec_digits() == 0,
    ensures
        float_value(float_text(f)) == Some(f),
{
    lemma_float_parts(f);
    let whole = decimal(0);
    let none = Seq::<u8>::empty();
    assert(whole =~= seq![DIGIT_ZERO]);
    assert(strip_zeros(none) =~= none);
    assert(mantissa_text(whole, none) == whole);
    lemma_literal_of_parts(f.spec_negative(), whole, none, none);
    let text = sign_text(f.spec_negative()) + whole + none;
    assert(text =~= float_text(f));
    let all = whole + none;
    assert(all =~= whole);
    lemma_zeros_end_at(all, 0, 1);
}

/// The text of a number that is written out with its point after the first
/// digit or later is read back as that number.
proof fn lemma_round_trip_plain(f: Float)
    requires
        f.wf(),
        f.spec_digits() != 0,
        0 <= f.spec_exponent() < 6,
    ensures
        float_value(float_text(f)) == Some(f),
{
    lemma_float_parts(f);
    let digits = f.spec_digits() as nat;
    let x = f.spec_exponent();
    let d = decimal(digits);
    lemma_six_digits(digits);
    let whole = d.take(x + 1);
    let fraction = d.skip(x + 1);
    let none = Seq::<u8>::empty();
    assert forall|i: int| 0 <= i < whole.len() implies is_digit(#[trigger] whole[i]) by {
        assert(whole[i] == d[i]);
    }
    assert forall|i: int| 0 <= i < fraction.len() implies is_digit(#[trigger] fraction[i]) by {
        assert(fraction[i] == d[i + x + 1]);
    }
    lemma_literal_of_parts(f.spec_negative(), whole, fraction, none);
    let text = sign_text(f.spec_negative()) + mantissa_text(whole, fraction) + none;
    assert(text =~= float_text(f));
    let l = literal(text)->Some_0;
    lemma_first_six_of_stripped(whole, fraction);
    assert(whole + fraction =~= d);
    let all = l.whole + l.fraction;
    assert(all.skip(0) =~= all);
    assert(all[0] == d[0]);
    lemma_strip_zeros(fraction);
    lemma_value_of_literal(text, l, 0, digits, x);
}

/// The text of a number below one that is written out is read back as that
/// number.
proof fn lemma_round_trip_small(f: Float)
    requires
        f.wf(),
        f.spec_digits() != 0,
        -4 <= f.spec_exponent() < 0,
    ensures
        float_value(float_text(f)) == Some(f),
{
    lemma_float_parts(f);
    let digits = f.spec_digits() as nat;
    let x = f.spec_exponent();
    let d = decimal(digits);
    lemma_six_digits(digits);
    let whole = seq![DIGIT_ZERO];
    let gap = -x - 1;
    let fraction = zeros(gap as nat) + d;
    let none = Seq::<u8>::empty();
    assert forall|i: int| 0 <= i < fraction.len() implies is_digit(#[trigger] fraction[i]) by {
        if i >= gap {
            assert(fraction[i] == d[i - gap]);
        }
    }
    lemma_literal_of_parts(f.spec_negative(), whole, fraction, none);
    let text = sign_text(f.spec_negative()) + mantissa_text(whole, fraction) + none;
    assert(text =~= float_text(f));
    let l = literal(text)->Some_0;
    let shown = strip_zeros(fraction);
    lemma_strip_zeros(fraction);
    assert(fraction[gap] == d[0]);
    lemma_strip_zeros_keeps(fraction, gap);
    let all = l.whole + l.fraction;
    let leading = -x;
    assert forall|i: int| 0 <= i < leading implies #[trigger] all[i] == DIGIT_ZERO by {
        if i > 0 {
            assert(all[i] == shown[i - 1]);
            assert(shown[i - 1] == fraction[i - 1]);
        }
    }
    assert(all[leading] == shown[gap]);
    assert(shown[gap] == fraction[gap]);
    let s = all.skip(leading);
    let padded = (s + zeros(6)).take(6);
    assert forall|j: int| 0 <= j < 6 implies padded[j] == d[j] by {
        if j < s.len() {
            assert(s[j] == shown[j + gap]);
            assert(shown[j + gap] == fraction[j + gap]);
        } else {
            assert(fraction[j + gap] == DIGIT_ZERO);
            assert(fraction[j + gap] == d[j]);
        }
    }
    assert(padded =~= d);
    lemma_value_of_literal(text, l, leading, digits, x);
}

/// An exponent part is read as the exponent that it was written for.
proof fn lemma_exponent_round_trip(x: int)
    ensures
        exponent_text(x).len() > 0,
        exponent_text(x)[0] == LOWER_E,
        tail_value(exponent_text(x)) == Some(x),
{
    let size = (if x < 0 { -x } else { x }) as nat;
    let sign = if x < 0 { MINUS } else { PLUS };
    let pad = if size < 10 { seq![DIGIT_ZERO] } else { Seq::<u8>::empty() };
    let tail = exponent_text(x);
    assert(tail =~= seq![LOWER_E, sign] + pad + decimal(size));
    let after = tail.skip(1);
    assert(after =~= seq![sign] + pad + decimal(size));
    assert(after[0] == sign);
    let shown = after.skip(sign_len(after));
    assert(shown =~= pad + decimal(size));
    lemma_decimal_canonical(size);
    assert forall|i: int| 0 <= i < shown.len() implies is_digit(#[trigger] shown[i]) by {
        if size < 10 {
            if i > 0 {
                assert(shown[i] == decimal(size)[i - 1]);
            }
        } else {
            assert(shown[i] == decimal(size)[i]);
        }
    }
    if size < 10 {
        lemma_leading_zero(decimal(size));
    } else {
        assert(shown =~= decimal(size));
    }
}

/// The text of a number that is written with an exponent is read back as
/// that number.
proof fn lemma_round_trip_scientific(f: Float)
    requires
        f.wf(),
        f.spec_digits() != 0,
        f.spec_exponent() < -4 || f.spec_exponent() >= 6,
    ensures
        float_value(float_text(f)) == Some(f),
{
    lemma_float_parts(f);
    let digits = f.spec_digits() as nat;
    let x = f.spec_exponent();
    let d = decimal(digits);
    lemma_six_digits(digits);
    let whole = d.take(1);
    let fraction = d.skip(1);
    let tail = exponent_text(x);
    lemma_exponent_round_trip(x);
    assert forall|i: int| 0 <= i < whole.len() implies is_digit(#[trigger] whole[i]) by {
        assert(whole[i] == d[i]);
    }
    assert forall|i: int| 0 <= i < fraction.len() implies is_digit(#[trigger] fraction[i]) by {
        assert(fraction[i] == d[i + 1]);
    }
    lemma_literal_of_parts(f.spec_negative(), whole, fraction, tail);
    let text = sign_text(f.spec_negative()) + mantissa_text(whole, fraction) + tail;
    assert(text =~= float_text(f));
    let l = literal(text)->Some_0;
    lemma_first_six_of_stripped(whole, fraction);
    assert(whole + fraction =~= d);
    let all = l.whole + l.fraction;
    assert(all.skip(0) =~= all);
    assert(all[0] == d[0]);
    lemma_strip_zeros(fraction);
    lemma_value_of_literal(text, l, 0, digits, x);
}

/// The text of a number is read back as that number.
pub proof fn lemma_float_round_trip(f: Float)
    requires
        f.wf(),
    ensures
        float_value(float_text(f)) == Some(f),
{
    lemma_float_parts(f);
    let x = f.spec_exponent();
    if f.spec_digits() == 0 {
        lemma_round_trip_zero(f);
    } else if 0 <= x < 6 {
        lemma_round_trip_plain(f);
    } else if -4 <= x < 0 {
        lemma_round_trip_small(f);
    } else {
        lemma_round_trip_scientific(f);
    }
}

/// Every number that a text is read as is in its accepted form.
pub proof fn lemma_float_value_wf(text: Seq<u8>)
    requires
        float_value(text) is Some,
    ensures
        float_value(text)->Some_0.wf(),
{
    let l = literal(text)->Some_0;
    let all = l.whole + l.fraction;
    let z = zeros_end(all, 0);
    crate::literal::lemma_zeros_end(all, 0);
    if z == all.len() {
        lemma_float_new(l.negative, 0, 0);
    } else {
        let s = all.skip(z);
        let six = first_six(s);
        assert forall|j: int| 0 <= j < six.len() implies is_digit(#[trigger] six[j]) by {
            if j < s.len() {
                assert(six[j] == all[z + j]);
                if z + j < l.whole.len() {
                    assert(all[z + j] == l.whole[z + j]);
                } else {
                    assert(all[z + j] == l.fraction[z + j - l.whole.len()]);
                }
            }
        }
        assert(six[0] == all[z]);
        crate::literal::lemma_value_bounds(six);
        reveal_with_fuel(crate::literal::pow10, 8);
        let head = head_value(s) + if rounds_up(s) { 1int } else { 0int };
        let digits = if head == 1000000 { 100000int } else { head };
        let power = if head == 1000000 {
            l.whole.len() - 1 - z + l.exponent + 1
        } else {
            l.whole.len() - 1 - z + l.exponent
        };
        lemma_float_new(l.negative, digits, power);
    }
}

} // verus!
