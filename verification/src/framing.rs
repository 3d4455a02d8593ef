//! The frame: a decimal length, `:`, that many bytes of payload, and a type tag.

use vstd::prelude::*;
use crate::ascii::{COLON, DIGIT_ZERO};
use crate::digits::{
    all_digits, decimal, digit, digits_value, is_canonical, is_digit, lemma_decimal_canonical,
};
use crate::error::Error;

verus! {

/// The parts of the first frame of some bytes.
pub ghost struct Frame {
    /// The bytes between the `:` and the type tag.
    pub payload: Seq<u8>,
    /// The byte after the payload.
    pub tag: u8,
    /// What follows the type tag.
    pub rest: Seq<u8>,
}

/// The index of the first byte at or after `from` that is no digit; the
/// length of `bytes` where only digits follow.
pub open spec fn digits_end(bytes: Seq<u8>, from: int) -> int
    decreases bytes.len() - from,
{
    if 0 <= from < bytes.len() && is_digit(bytes[from]) {
        digits_end(bytes, from + 1)
    } else {
        from
    }
}

/// The number of bytes at the start of `bytes` that are read as the length:
/// a leading `0` alone, else the leading digits.
pub open spec fn length_field(bytes: Seq<u8>) -> int {
    if bytes.len() > 0 && bytes[0] == DIGIT_ZERO {
        1
    } else {
        digits_end(bytes, 0)
    }
}

/// Splits `bytes` into its first frame and what follows, or says what is
/// wrong with the frame.
pub open spec fn frame(bytes: Seq<u8>) -> Result<Frame, Error> {
    let k = length_field(bytes);
    if k == 0 || k >= bytes.len() || bytes[k] != COLON {
        Err(Error::MissingLengthPrefix)
    } else {
        let n = digits_value(bytes.take(k)) as int;
        let body = bytes.skip(k + 1);
        if body.len() < n {
            Err(Error::TruncatedPayload)
        } else if body.len() == n {
            Err(Error::MissingTypeTag)
        } else {
            Ok(Frame { payload: body.take(n), tag: body[n], rest: body.skip(n + 1) })
        }
    }
}

/// The bytes of a frame with the given payload and type tag.
pub open spec fn framed(payload: Seq<u8>, tag: u8) -> Seq<u8> {
    decimal(payload.len()) + seq![COLON] + payload + seq![tag]
}

/// `digits_end` stops at the first byte that is no digit.
pub proof fn lemma_digits_end(bytes: Seq<u8>, from: int, end: int)
    requires
        0 <= from <= end <= bytes.len(),
        forall|i: int| from <= i < end ==> is_digit(#[trigger] bytes[i]),
        end < bytes.len() ==> !is_digit(bytes[end]),
    ensures
        digits_end(bytes, from) == end,
    decreases end - from,
{
    if from < end {
        lemma_digits_end(bytes, from + 1, end);
    }
}

/// The length field holds digits only, and the byte after it is none unless
/// the field is a lone `0`.
pub proof fn lemma_length_field(bytes: Seq<u8>)
    ensures
        0 <= length_field(bytes) <= bytes.len(),
        all_digits(bytes.take(length_field(bytes))),
        length_field(bytes) > 0 ==> is_canonical(bytes.take(length_field(bytes))),
{
    lemma_digits_end_range(bytes, 0);
    let k = length_field(bytes);
    assert forall|i: int| 0 <= i < k implies is_digit(#[trigger] bytes.take(k)[i]) by {
        assert(bytes.take(k)[i] == bytes[i]);
    }
}

/// Between `from` and `digits_end` there are digits only.
pub proof fn lemma_digits_end_range(bytes: Seq<u8>, from: int)
    requires
        0 <= from <= bytes.len(),
    ensures
        from <= digits_end(bytes, from) <= bytes.len(),
        forall|i: int| from <= i < digits_end(bytes, from) ==> is_digit(#[trigger] bytes[i]),
        digits_end(bytes, from) < bytes.len() ==> !is_digit(bytes[digits_end(bytes, from)]),
    decreases bytes.len() - from,
{
    if from < bytes.len() && is_digit(bytes[from]) {
        lemma_digits_end_range(bytes, from + 1);
    }
}

/// What a frame is made of: its parts, in order, make up the input again,
/// and each part is shorter than the input.
pub proof fn lemma_frame_parts(bytes: Seq<u8>)
    requires
        frame(bytes) is Ok,
    ensures
        ({
            let f = frame(bytes)->Ok_0;
            &&& bytes == framed(f.payload, f.tag) + f.rest
            &&& f.payload.len() + 3 + f.rest.len() <= bytes.len()
        }),
{
    let f = frame(bytes)->Ok_0;
    let k = length_field(bytes);
    lemma_length_field(bytes);
    let head = bytes.take(k);
    crate::digits::lemma_canonical_unique(head);
    let n = digits_value(head);
    assert(decimal(n) == head);
    assert(bytes =~= head + seq![COLON] + f.payload + seq![f.tag] + f.rest);
}

/// A frame that was written is read back as it was, whatever follows it.
pub proof fn lemma_frame_of_framed(payload: Seq<u8>, tag: u8, rest: Seq<u8>)
    ensures
        frame(framed(payload, tag) + rest) == Ok::<Frame, Error>(Frame { payload, tag, rest }),
{
    let n = payload.len() as int;
    let head = decimal(n as nat);
    let bytes = framed(payload, tag) + rest;
    lemma_decimal_canonical(n as nat);
    let k = head.len() as int;
    assert(bytes =~= head + (seq![COLON] + payload + seq![tag] + rest));
    assert(bytes[k] == COLON);
    assert forall|i: int| 0 <= i < k implies is_digit(#[trigger] bytes[i]) by {
        assert(bytes[i] == head[i]);
    }
    assert(bytes[0] == head[0]);
    if bytes[0] == DIGIT_ZERO {
        assert(k == 1);
    } else {
        lemma_digits_end(bytes, 0, k);
    }
    assert(length_field(bytes) == k);
    assert(bytes.take(k) =~= head);
    let body = bytes.skip(k + 1);
    assert(body =~= payload + seq![tag] + rest);
    assert(body.take(n) =~= payload);
    assert(body.skip(n + 1) =~= rest);
}

/// Reads the first frame of `data`: its payload, its type tag and the bytes
/// after it.
pub fn read_frame<'a>(data: &'a [u8]) -> (r: Result<(&'a [u8], u8, &'a [u8]), Error>)
    ensures
        match frame(data@) {
            Ok(f) => r is Ok && r->Ok_0.0@ == f.payload && r->Ok_0.1 == f.tag && r->Ok_0.2@
                == f.rest,
            Err(e) => r == Err::<(&[u8], u8, &[u8]), Error>(e),
        },
{
    let total: usize = data.len();
    if total == 0 || !digit(data[0]) {
        return Err(Error::MissingLengthPrefix);
    }
    let mut k: usize = 1;
    let mut len: usize = 0;
    let mut too_long: bool = false;
    if data[0] != DIGIT_ZERO {
        len = (data[0] - DIGIT_ZERO) as usize;
        proof {
            assert(data@.take(1).drop_last() =~= Seq::<u8>::empty());
            assert(digits_value(data@.take(1).drop_last()) == 0);
        }
        if len > total {
            too_long = true;
        }
        while k < total && digit(data[k])
            invariant
                1 <= k <= total,
                total == data@.len(),
                data@[0] != DIGIT_ZERO,
                forall|i: int| 0 <= i < k ==> is_digit(#[trigger] data@[i]),
                !too_long ==> len == digits_value(data@.take(k as int)) && len <= total,
                too_long ==> digits_value(data@.take(k as int)) > total,
            decreases total - k,
        {
            let d: u8 = data[k] - DIGIT_ZERO;
            proof {
                assert(data@.take(k + 1).drop_last() =~= data@.take(k as int));
            }
            if !too_long {
                let next: u128 = (len as u128) * 10 + (d as u128);
                if next > total as u128 {
                    too_long = true;
                } else {
                    len = next as usize;
                }
            }
            k = k + 1;
        }
        proof {
            lemma_digits_end(data@, 0, k as int);
        }
    } else {
        proof {
            assert(data@.take(1).drop_last() =~= Seq::<u8>::empty());
            assert(digits_value(data@.take(1).drop_last()) == 0);
        }
    }
    assert(length_field(data@) == k);
    if k >= total || data[k] != COLON {
        return Err(Error::MissingLengthPrefix);
    }
    let body: usize = total - k - 1;
    assert(data@.skip(k + 1).len() == body);
    if too_long || len > body {
        return Err(Error::TruncatedPayload);
    }
    if len == body {
        return Err(Error::MissingTypeTag);
    }
    let payload = &data[k + 1..k + 1 + len];
    let tag: u8 = data[k + 1 + len];
    let rest = &data[k + 2 + len..total];
    proof {
        let b = data@.skip(k + 1);
        assert(payload@ =~= b.take(len as int));
        assert(rest@ =~= b.skip(len + 1));
        assert(tag == b[len as int]);
    }
    Ok((payload, tag, rest))
}

} // verus!
