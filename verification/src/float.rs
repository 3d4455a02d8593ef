//! Floating-point numbers as the format writes them: six significant decimal
//! digits and a power of ten.

use vstd::prelude::*;
use crate::ascii::{DIGIT_ZERO, LOWER_E, MINUS, PLUS, POINT};
use crate::bytes::append;
use crate::digits::{all_digits, decimal, digits_value};

verus! {

/// The least power of ten that a number's first digit can stand for.
pub const MIN_EXPONENT: i16 = -324;

/// The greatest power of ten that a number's first digit can stand for.
pub const MAX_EXPONENT: i16 = 308;

/// A number of six significant decimal digits: zero, or
/// `digits * 10^(exponent - 5)` with `digits` between 100000 and 999999,
/// taken negative where `negative` is set.
#[derive(Debug, Clone, Copy)]
pub struct Float {
    negative: bool,
    digits: u32,
    exponent: i16,
}

/// Whether the three parts make up a number in its one accepted form.
pub open spec fn is_normal(digits: int, exponent: int) -> bool {
    if digits == 0 {
        exponent == 0
    } else {
        100000 <= digits <= 999999 && MIN_EXPONENT <= exponent <= MAX_EXPONENT
    }
}

impl Float {
    /// The number with the given parts.
    pub closed spec fn spec_new(negative: bool, digits: int, exponent: int) -> Float {
        Float { negative, digits: digits as u32, exponent: exponent as i16 }
    }

    /// Whether the number is in its one accepted form. Every `Float` that
    /// executable code holds is.
    #[verifier::type_invariant]
    pub closed spec fn wf(self) -> bool {
        is_normal(self.digits as int, self.exponent as int)
    }

    /// Whether the sign is set; it can be set on zero.
    pub closed spec fn spec_negative(self) -> bool {
        self.negative
    }

    /// The six significant digits as one number, or zero.
    pub closed spec fn spec_digits(self) -> int {
        self.digits as int
    }

    /// The power of ten of the first significant digit.
    pub closed spec fn spec_exponent(self) -> int {
        self.exponent as int
    }

    /// The number with the given parts, where they are in the accepted form.
    pub fn from_parts(negative: bool, digits: u32, exponent: i16) -> (r: Option<Float>)
        ensures
            r is Some <==> is_normal(digits as int, exponent as int),
            r matches Some(f) ==> f.wf() && f.spec_negative() == negative && f.spec_digits()
                == digits && f.spec_exponent() == exponent,
    {
        if digits == 0 {
            if exponent == 0 {
                Some(Float { negative, digits, exponent })
            } else {
                None
            }
        } else if 100000 <= digits && digits <= 999999 && MIN_EXPONENT <= exponent && exponent
            <= MAX_EXPONENT {
            Some(Float { negative, digits, exponent })
        } else {
            None
        }
    }

    /// Whether the sign is set.
    pub fn negative(self) -> (r: bool)
        ensures
            r == self.spec_negative(),
    {
        self.negative
    }

    /// The six significant digits as one number, or zero.
    pub fn digits(self) -> (r: u32)
        ensures
            r == self.spec_digits(),
            self.wf(),
    {
        proof {
            use_type_invariant(self);
        }
        self.digits
    }

    /// The power of ten of the first significant digit.
    pub fn exponent(self) -> (r: i16)
        ensures
            r == self.spec_exponent(),
            self.wf(),
    {
        proof {
            use_type_invariant(self);
        }
        self.exponent
    }
}

/// Two numbers are the same number: zero equals zero whatever its sign.
pub open spec fn same_number(a: Float, b: Float) -> bool {
    if a.spec_digits() == 0 {
        b.spec_digits() == 0
    } else {
        a == b
    }
}

/// A number is its three parts and nothing more.
pub proof fn lemma_float_parts(f: Float)
    ensures
        f == Float::spec_new(f.spec_negative(), f.spec_digits(), f.spec_exponent()),
        f.wf() == is_normal(f.spec_digits(), f.spec_exponent()),
{
}

/// The parts of a number that was made of parts in the accepted form.
pub proof fn lemma_float_new(negative: bool, digits: int, exponent: int)
    requires
        is_normal(digits, exponent),
    ensures
        Float::spec_new(negative, digits, exponent).wf(),
        Float::spec_new(negative, digits, exponent).spec_negative() == negative,
        Float::spec_new(negative, digits, exponent).spec_digits() == digits,
        Float::spec_new(negative, digits, exponent).spec_exponent() == exponent,
{
}

/// `n` zeros.
pub open spec fn zeros(n: nat) -> Seq<u8> {
    Seq::new(n, |i: int| DIGIT_ZERO)
}

/// `s` without the zeros at its end.
pub open spec fn strip_zeros(s: Seq<u8>) -> Seq<u8>
    decreases s.len(),
{
    if s.len() > 0 && s.last() == DIGIT_ZERO {
        strip_zeros(s.drop_last())
    } else {
        s
    }
}

/// The digits before the point, then the point and the digits after it
/// without their trailing zeros; no point where nothing would follow it.
pub open spec fn mantissa_text(whole: Seq<u8>, fraction: Seq<u8>) -> Seq<u8> {
    let shown = strip_zeros(fraction);
    if shown.len() == 0 {
        whole
    } else {
        whole + seq![POINT] + shown
    }
}

/// The exponent part: `e`, a sign, and at least two digits.
pub open spec fn exponent_text(exponent: int) -> Seq<u8> {
    let size = (if exponent < 0 { -exponent } else { exponent }) as nat;
    let sign = if exponent < 0 { MINUS } else { PLUS };
    let pad = if size < 10 { seq![DIGIT_ZERO] } else { Seq::<u8>::empty() };
    seq![LOWER_E, sign] + pad + decimal(size)
}

/// The text of a number without its sign. Where the first digit stands for
/// a power of ten from -4 to 5 the number is written out, else it is written
/// with one digit before the point and an exponent.
pub open spec fn magnitude_text(digits: nat, exponent: int) -> Seq<u8> {
    let d = decimal(digits);
    if digits == 0 {
        d
    } else if 0 <= exponent < 6 {
        mantissa_text(d.take(exponent + 1), d.skip(exponent + 1))
    } else if -4 <= exponent < 0 {
        mantissa_text(seq![DIGIT_ZERO], zeros((-exponent - 1) as nat) + d)
    } else {
        mantissa_text(d.take(1), d.skip(1)) + exponent_text(exponent)
    }
}

/// The text of a number: its six digits without trailing zeros, after a
/// minus sign where the sign is set.
pub open spec fn float_text(f: Float) -> Seq<u8> {
    let sign = if f.spec_negative() { seq![MINUS] } else { Seq::<u8>::empty() };
    sign + magnitude_text(f.spec_digits() as nat, f.spec_exponent())
}

/// A number of six digits has a text of six digits.
pub proof fn lemma_six_digits(n: nat)
    requires
        100000 <= n <= 999999,
    ensures
        decimal(n).len() == 6,
        decimal(n)[0] != DIGIT_ZERO,
        all_digits(decimal(n)),
        digits_value(decimal(n)) == n,
{
    reveal_with_fuel(decimal, 7);
    crate::digits::lemma_decimal_canonical(n);
}

/// Appends the digits before the point, and the point and the digits after
/// it where any of these is not zero.
fn write_mantissa(out: &mut Vec<u8>, whole: &[u8], fraction: &[u8])
    ensures
        final(out)@ == old(out)@ + mantissa_text(whole@, fraction@),
{
    let mut end: usize = fraction.len();
    assert(fraction@.take(end as int) =~= fraction@);
    while end > 0 && fraction[end - 1] == DIGIT_ZERO
        invariant
            0 <= end <= fraction.len(),
            strip_zeros(fraction@) == strip_zeros(fraction@.take(end as int)),
        decreases end,
    {
        proof {
            assert(fraction@.take(end as int).drop_last() =~= fraction@.take(end - 1));
        }
        end = end - 1;
    }
    append(out, whole);
    if end > 0 {
        out.push(POINT);
        append(out, &fraction[0..end]);
        assert(fraction@.subrange(0, end as int) =~= fraction@.take(end as int));
    }
    assert(final(out)@ =~= old(out)@ + mantissa_text(whole@, fraction@));
}

/// Appends the exponent part.
fn write_exponent(out: &mut Vec<u8>, exponent: i16)
    ensures
        final(out)@ == old(out)@ + exponent_text(exponent as int),
{
    out.push(LOWER_E);
    let size: u64 = if exponent < 0 {
        out.push(MINUS);
        (-(exponent as i32)) as u64
    } else {
        out.push(PLUS);
        exponent as u64
    };
    if size < 10 {
        out.push(DIGIT_ZERO);
    }
    crate::digits::write_decimal(out, size);
    assert(final(out)@ =~= old(out)@ + exponent_text(exponent as int));
}

/// Appends a number below one that is written out: `0.`, the zeros that
/// the exponent asks for, and the digits.
fn write_small(out: &mut Vec<u8>, six: &[u8], exponent: i16)
    requires
        -4 <= exponent < 0,
    ensures
        final(out)@ == old(out)@ + mantissa_text(
            seq![DIGIT_ZERO],
            zeros((-exponent - 1) as nat) + six@,
        ),
{
    let mut fraction: Vec<u8> = Vec::new();
    let count: usize = (-exponent - 1) as usize;
    let mut i: usize = 0;
    while i < count
        invariant
            0 <= i <= count,
            fraction@ == zeros(i as nat),
        decreases count - i,
    {
        fraction.push(DIGIT_ZERO);
        i = i + 1;
        assert(fraction@ =~= zeros(i as nat));
    }
    append(&mut fraction, six);
    let zero: [u8; 1] = [DIGIT_ZERO];
    assert(zero@ =~= seq![DIGIT_ZERO]);
    write_mantissa(out, zero.as_slice(), fraction.as_slice());
}

/// Appends the digits `six` with the point after the first `cut` of them.
fn write_split(out: &mut Vec<u8>, six: &[u8], cut: usize)
    requires
        cut <= six@.len(),
    ensures
        final(out)@ == old(out)@ + mantissa_text(six@.take(cut as int), six@.skip(cut as int)),
{
    let whole = &six[0..cut];
    let fraction = &six[cut..six.len()];
    assert(whole@ =~= six@.take(cut as int));
    assert(fraction@ =~= six@.skip(cut as int));
    write_mantissa(out, whole, fraction);
}

/// Appends the text of `f` to `out`.
pub fn write_float(out: &mut Vec<u8>, f: Float)
    ensures
        final(out)@ == old(out)@ + float_text(f),
{
    let digits: u32 = f.digits();
    let exponent: i16 = f.exponent();
    if f.negative() {
        out.push(MINUS);
    }
    let ghost signed = out@;
    assert(signed =~= old(out)@ + if f.spec_negative() {
        seq![MINUS]
    } else {
        Seq::<u8>::empty()
    });
    let mut six: Vec<u8> = Vec::new();
    crate::digits::write_decimal(&mut six, digits as u64);
    assert(six@ =~= decimal(digits as nat));
    if digits == 0 {
        append(out, six.as_slice());
    } else {
        proof {
            lemma_six_digits(digits as nat);
        }
        if 0 <= exponent && exponent < 6 {
            write_split(out, six.as_slice(), (exponent + 1) as usize);
        } else if -4 <= exponent && exponent < 0 {
            write_small(out, six.as_slice(), exponent);
        } else {
            write_split(out, six.as_slice(), 1);
            write_exponent(out, exponent);
        }
    }
    assert(out@ =~= signed + magnitude_text(digits as nat, exponent as int));
    assert(final(out)@ =~= old(out)@ + float_text(f));
}

} // verus!
