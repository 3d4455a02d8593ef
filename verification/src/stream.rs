//! Reading a frame from a source that hands out its bytes one by one.
//!
//! The reader of such a source cannot look at all the bytes at once. It
//! feeds the bytes of the length to `read_prefix` until it is told how long
//! the payload is, fetches that many bytes and one more, and hands them to
//! `from_body`.

use vstd::prelude::*;
use crate::ascii::{COLON, DIGIT_ZERO};
use crate::decode::{decoding, decoding_within, lemma_decoding_wf, limit_of, payload_value};
use crate::digits::{
    all_digits, decimal, digit, digits_value, is_digit, lemma_decimal_canonical,
    lemma_digits_value_push,
};
use crate::error::Error;
use crate::framing::{frame, lemma_digits_end, length_field};
use crate::value::TNetString;

verus! {

/// How much of a length was read.
#[derive(Debug, Clone, Copy, PartialEq, Eq, Structural)]
pub enum Progress {
    /// Nothing.
    Start,
    /// A `0`, which must be the whole length.
    Zero,
    /// Digits that do not start with `0`, and the number that they denote.
    Digits(usize),
    /// Digits that denote a number above every length of the machine.
    TooLong,
}

/// What the reader of a length does next.
#[derive(Debug, Clone, Copy, PartialEq, Eq, Structural)]
pub enum Step {
    /// The source ended before a frame began: there is no value to read.
    End,
    /// It reads one more byte.
    More(Progress),
    /// The length is read, with its `:`; so many bytes of payload follow.
    Payload(usize),
}

/// What follows from reading `input`, a byte or the end of the source,
/// after `progress`.
pub open spec fn step(progress: Progress, input: Option<u8>) -> Result<Step, Error> {
    match input {
        None => match progress {
            Progress::Start => Ok(Step::End),
            _ => Err(Error::MissingLengthPrefix),
        },
        Some(byte) => match progress {
            Progress::Start => if byte == DIGIT_ZERO {
                Ok(Step::More(Progress::Zero))
            } else if is_digit(byte) {
                Ok(Step::More(Progress::Digits((byte - DIGIT_ZERO) as usize)))
            } else {
                Err(Error::MissingLengthPrefix)
            },
            Progress::Zero => if byte == COLON {
                Ok(Step::Payload(0))
            } else {
                Err(Error::MissingLengthPrefix)
            },
            Progress::Digits(n) => if byte == COLON {
                Ok(Step::Payload(n))
            } else if is_digit(byte) {
                if n * 10 + (byte - DIGIT_ZERO) <= usize::MAX {
                    Ok(Step::More(Progress::Digits((n * 10 + (byte - DIGIT_ZERO)) as usize)))
                } else {
                    Ok(Step::More(Progress::TooLong))
                }
            } else {
                Err(Error::MissingLengthPrefix)
            },
            Progress::TooLong => if byte == COLON {
                Err(Error::TruncatedPayload)
            } else if is_digit(byte) {
                Ok(Step::More(Progress::TooLong))
            } else {
                Err(Error::MissingLengthPrefix)
            },
        },
    }
}

/// Takes one byte of a length, or the end of the source, and says what the
/// reader does next.
pub fn read_prefix(progress: Progress, input: Option<u8>) -> (r: Result<Step, Error>)
    ensures
        r == step(progress, input),
{
    let byte: u8 = match input {
        Some(byte) => byte,
        None => {
            return match progress {
                Progress::Start => Ok(Step::End),
                _ => Err(Error::MissingLengthPrefix),
            };
        },
    };
    match progress {
        Progress::Start => {
            if byte == DIGIT_ZERO {
                Ok(Step::More(Progress::Zero))
            } else if digit(byte) {
                Ok(Step::More(Progress::Digits((byte - DIGIT_ZERO) as usize)))
            } else {
                Err(Error::MissingLengthPrefix)
            }
        },
        Progress::Zero => {
            if byte == COLON {
                Ok(Step::Payload(0))
            } else {
                Err(Error::MissingLengthPrefix)
            }
        },
        Progress::Digits(n) => {
            if byte == COLON {
                Ok(Step::Payload(n))
            } else if digit(byte) {
                let next: u128 = (n as u128) * 10 + ((byte - DIGIT_ZERO) as u128);
                if next <= usize::MAX as u128 {
                    Ok(Step::More(Progress::Digits(next as usize)))
                } else {
                    Ok(Step::More(Progress::TooLong))
                }
            } else {
                Err(Error::MissingLengthPrefix)
            }
        },
        Progress::TooLong => {
            if byte == COLON {
                Err(Error::TruncatedPayload)
            } else if digit(byte) {
                Ok(Step::More(Progress::TooLong))
            } else {
                Err(Error::MissingLengthPrefix)
            }
        },
    }
}

/// The value of a frame whose length was read as `length`, from the bytes
/// `body` that were fetched after its `:`. The reader fetches `length + 1`
/// bytes, or as many of them as the source has.
pub fn from_body(length: usize, body: &[u8]) -> (r: Result<TNetString, Error>)
    ensures
        match decoding(decimal(length as nat) + seq![COLON] + body@) {
            Ok((value, _)) => r is Ok && Some(r->Ok_0@) == value && r->Ok_0@.wf(),
            Err(e) => r is Err && r->Err_0 == e,
        },
{
    body_value(length, body, None)
}

/// The value of a frame as `from_body` gives it, where no list or map
/// stands deeper than `max_depth` lists and maps.
pub fn from_body_within(length: usize, body: &[u8], max_depth: usize) -> (r: Result<
    TNetString,
    Error,
>)
    ensures
        match decoding_within(
            decimal(length as nat) + seq![COLON] + body@,
            Some(max_depth as nat),
        ) {
            Ok((value, _)) => r is Ok && Some(r->Ok_0@) == value && r->Ok_0@.wf()
                && r->Ok_0@.nests_within(max_depth as nat),
            Err(e) => r is Err && r->Err_0 == e,
        },
{
    proof {
        lemma_decoding_wf(decimal(length as nat) + seq![COLON] + body@, Some(max_depth as nat));
    }
    body_value(length, body, Some(max_depth))
}

/// The value of a frame from its length and the bytes after its `:`, in
/// which lists and maps may nest `limit` levels deep.
fn body_value(length: usize, body: &[u8], limit: Option<usize>) -> (r: Result<TNetString, Error>)
    ensures
        match decoding_within(decimal(length as nat) + seq![COLON] + body@, limit_of(limit)) {
            Ok((value, _)) => r is Ok && Some(r->Ok_0@) == value && r->Ok_0@.wf(),
            Err(e) => r is Err && r->Err_0 == e,
        },
{
    proof {
        lemma_body_frame(length as nat, body@);
    }
    if body.len() < length {
        Err(Error::TruncatedPayload)
    } else if body.len() == length {
        Err(Error::MissingTypeTag)
    } else {
        let payload = &body[0..length];
        assert(payload@ =~= body@.take(length as int));
        payload_value(body[length], payload, limit)
    }
}

/// How the bytes after the `:` of a frame are split, where the length
/// before it is the text of a number.
pub proof fn lemma_body_frame(length: nat, body: Seq<u8>)
    ensures
        ({
            let bytes = decimal(length) + seq![COLON] + body;
            &&& bytes.len() > 0
            &&& body.len() < length ==> frame(bytes) == Err::<crate::framing::Frame, Error>(
                Error::TruncatedPayload,
            )
            &&& body.len() == length ==> frame(bytes) == Err::<crate::framing::Frame, Error>(
                Error::MissingTypeTag,
            )
            &&& body.len() > length ==> frame(bytes) == Ok::<crate::framing::Frame, Error>(
                crate::framing::Frame {
                    payload: body.take(length as int),
                    tag: body[length as int],
                    rest: body.skip(length as int + 1),
                },
            )
        }),
{
    let head = decimal(length);
    let bytes = head + seq![COLON] + body;
    lemma_decimal_canonical(length);
    let k = head.len() as int;
    assert(bytes[k] == COLON);
    assert forall|i: int| 0 <= i < k implies is_digit(#[trigger] bytes[i]) by {
        assert(bytes[i] == head[i]);
    }
    assert(bytes[0] == head[0]);
    if bytes[0] != DIGIT_ZERO {
        lemma_digits_end(bytes, 0, k);
    }
    assert(length_field(bytes) == k);
    assert(bytes.take(k) =~= head);
    assert(bytes.skip(k + 1) =~= body);
}

/// How much of a length was read after the bytes `read`, where each of them
/// asked for one more.
pub open spec fn progress_after(read: Seq<u8>) -> Option<Progress>
    decreases read.len(),
{
    if read.len() == 0 {
        Some(Progress::Start)
    } else {
        match progress_after(read.drop_last()) {
            Some(before) => match step(before, Some(read.last())) {
                Ok(Step::More(after)) => Some(after),
                _ => None,
            },
            None => None,
        }
    }
}

/// What each state of the reader says of the bytes that were read.
pub proof fn lemma_progress(read: Seq<u8>)
    requires
        progress_after(read) is Some,
    ensures
        match progress_after(read)->Some_0 {
            Progress::Start => read.len() == 0,
            Progress::Zero => read == seq![DIGIT_ZERO],
            Progress::Digits(n) => read.len() > 0 && all_digits(read) && read[0] != DIGIT_ZERO
                && digits_value(read) == n,
            Progress::TooLong => read.len() > 0 && all_digits(read) && read[0] != DIGIT_ZERO
                && digits_value(read) > usize::MAX,
        },
    decreases read.len(),
{
    if read.len() > 0 {
        let before = read.drop_last();
        let byte = read.last();
        lemma_progress(before);
        assert(read =~= before.push(byte));
        lemma_digits_value_push(before, byte);
        match progress_after(before)->Some_0 {
            Progress::Start => {
                assert(read =~= seq![byte]);
            },
            Progress::Zero => {},
            _ => {
                assert forall|i: int| 0 <= i < read.len() implies is_digit(#[trigger] read[i]) by {
                    if i < before.len() {
                        assert(read[i] == before[i]);
                    }
                }
                assert(read[0] == before[0]);
            },
        }
    }
}

/// The reader of a length and the decoder of whole inputs agree. Where the
/// reader, fed the bytes of an input one by one, stops at a byte, it stops
/// with the decoder's error or with the length of the decoder's frame; where
/// it is fed the end of an input, it stops as the decoder does.
pub proof fn lemma_reader_agrees(bytes: Seq<u8>, at: int)
    requires
        bytes.len() <= usize::MAX,
        0 <= at <= bytes.len(),
        progress_after(bytes.take(at)) is Some,
    ensures
        ({
            let progress = progress_after(bytes.take(at))->Some_0;
            let input = if at < bytes.len() { Some(bytes[at]) } else { None };
            match step(progress, input) {
                Ok(Step::End) => bytes.len() == 0,
                Ok(Step::More(after)) => at < bytes.len() && progress_after(bytes.take(at + 1))
                    == Some(after),
                Ok(Step::Payload(n)) => at < bytes.len() && bytes == decimal(n as nat)
                    + seq![COLON] + bytes.skip(at + 1),
                Err(e) => frame(bytes) == Err::<crate::framing::Frame, Error>(e),
            }
        }),
{
    let read = bytes.take(at);
    lemma_progress(read);
    let progress = progress_after(read)->Some_0;
    assert forall|i: int| 0 <= i < at implies bytes[i] == #[trigger] read[i] by {}
    if at < bytes.len() {
        assert(bytes.take(at + 1).drop_last() =~= read);
    } else {
        assert(read =~= bytes);
    }
    match progress {
        Progress::Start => {},
        Progress::Zero => {
            assert(bytes[0] == read[0]);
            if at < bytes.len() && bytes[at] == COLON {
                assert(decimal(0) =~= seq![DIGIT_ZERO]);
                assert(bytes =~= decimal(0) + seq![COLON] + bytes.skip(at + 1));
            }
        },
        _ => {
            assert(bytes[0] == read[0]);
            assert forall|i: int| 0 <= i < at implies is_digit(#[trigger] bytes[i]) by {
                assert(bytes[i] == read[i]);
            }
            if at == bytes.len() || !is_digit(bytes[at]) {
                lemma_digits_end(bytes, 0, at);
                if at < bytes.len() && bytes[at] == COLON {
                    if progress is Digits {
                        crate::digits::lemma_canonical_unique(read);
                        assert(bytes =~= read + seq![COLON] + bytes.skip(at + 1));
                    }
                }
            }
        },
    }
}

} // verus!
