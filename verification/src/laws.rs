//! What holds of encoding and decoding together.

use vstd::prelude::*;
use crate::ascii::{COLON, DIGIT_ZERO, TAG_DICT, TAG_LIST, TAG_STR};
use crate::decode::{
    decode_entries, decode_items, decode_payload, decode_payload_within, decoding, decoding_pair,
    decoding_within, entries_fit, inside, items_fit, lemma_decode_entries_step,
    lemma_decode_items_step, lemma_decoding_wf,
};
use crate::digits::{decimal, is_digit, lemma_decimal_canonical, lemma_int_round_trip};
use crate::encode::{
    bool_text, encoding, encoding_of_entries, encoding_of_items, payload_of, tag_of,
};
use crate::equality::{equal, lemma_equal_reflexive};
use crate::error::Error;
use crate::framing::{
    frame, framed, lemma_digits_end, lemma_frame_of_framed, lemma_frame_parts, length_field, Frame,
};
use crate::literal_proofs::lemma_float_round_trip;
use crate::value::{insert_entry, lemma_insert_fresh, Value};

verus! {

/// What holds of the items of a list that the library can hold and that
/// nests no deeper than a limit.
pub proof fn lemma_list_fits(items: Seq<Value>, limit: Option<nat>)
    requires
        Value::List(items).wf(),
        limit matches Some(depth) ==> Value::List(items).nests_within(depth),
    ensures
        limit != Some(0nat),
        items_fit(items, inside(limit)),
{
    assert(Value::List(items)->List_0 == items);
}

/// What holds of the entries of a map that the library can hold and that
/// nests no deeper than a limit.
pub proof fn lemma_dict_fits(entries: Seq<(Seq<u8>, Value)>, limit: Option<nat>)
    requires
        Value::Dict(entries).wf(),
        limit matches Some(depth) ==> Value::Dict(entries).nests_within(depth),
    ensures
        limit != Some(0nat),
        entries_fit(entries, inside(limit)),
{
    assert(Value::Dict(entries)->Dict_0 == entries);
}

/// Decoding undoes encoding, whatever follows the frame and whatever the
/// limit that the value keeps: the bytes of a value, with any bytes after
/// them, decode to that value and leave exactly the bytes after them.
pub proof fn lemma_round_trip_within(value: Value, rest: Seq<u8>, limit: Option<nat>)
    requires
        value.wf(),
        limit matches Some(depth) ==> value.nests_within(depth),
    ensures
        decoding_within(encoding(value) + rest, limit) == Ok::<(Option<Value>, Seq<u8>), Error>(
            (Some(value), rest),
        ),
        frame(encoding(value) + rest) == Ok::<Frame, Error>(
            Frame { payload: payload_of(value), tag: tag_of(value), rest },
        ),
        decode_payload_within(tag_of(value), payload_of(value), limit) == Ok::<Value, Error>(
            value,
        ),
    decreases value, 0nat,
{
    lemma_frame_of_framed(payload_of(value), tag_of(value), rest);
    match value {
        Value::Str(_) => {},
        Value::Int(i) => {
            lemma_int_round_trip(i);
        },
        Value::Float(f) => {
            lemma_float_round_trip(f);
        },
        Value::Bool(_) => {
            assert(bool_text(true).len() != bool_text(false).len());
        },
        Value::Null => {},
        Value::Dict(entries) => {
            let none = Seq::<u8>::empty();
            lemma_dict_fits(entries, limit);
            lemma_entries_round_trip(entries, 0, none, inside(limit));
            assert(encoding_of_entries(entries, 0) + none =~= encoding_of_entries(entries, 0));
            assert(entries.take(0) =~= Seq::<(Seq<u8>, Value)>::empty());
        },
        Value::List(items) => {
            let none = Seq::<u8>::empty();
            lemma_list_fits(items, limit);
            lemma_items_round_trip(items, 0, none, inside(limit));
            assert(encoding_of_items(items, 0) + none =~= encoding_of_items(items, 0));
            assert(items.take(0) =~= Seq::<Value>::empty());
        },
    }
}

/// The frames of the items of a list, from one of them on, are decoded to
/// these items; the decoder then goes on with what follows them.
pub proof fn lemma_items_round_trip(
    items: Seq<Value>,
    from: int,
    tail: Seq<u8>,
    limit: Option<nat>,
)
    requires
        0 <= from <= items.len(),
        items_fit(items, limit),
    ensures
        decode_items(encoding_of_items(items, from) + tail, items.take(from), limit)
            == decode_items(tail, items, limit),
    decreases items, items.len() - from,
{
    if from == items.len() {
        assert(encoding_of_items(items, from) + tail =~= tail);
        assert(items.take(from) =~= items);
    } else {
        let item = items[from];
        let after = encoding_of_items(items, from + 1) + tail;
        let payload = encoding_of_items(items, from) + tail;
        assert(payload =~= encoding(item) + after);
        lemma_round_trip_within(item, after, limit);
        lemma_decode_items_step(payload, items.take(from), limit);
        assert(items.take(from).push(item) =~= items.take(from + 1));
        lemma_items_round_trip(items, from + 1, tail, limit);
    }
}

/// The frame of a key and, after it, the bytes of a value that decode to
/// that value are decoded as the pair of the two.
pub proof fn lemma_pair_round_trip(
    key: Seq<u8>,
    value: Value,
    after: Seq<u8>,
    limit: Option<nat>,
)
    requires
        decoding_within(encoding(value) + after, limit) == Ok::<(Option<Value>, Seq<u8>), Error>(
            (Some(value), after),
        ),
    ensures
        decoding_pair(framed(key, TAG_STR) + (encoding(value) + after), limit) == Ok::<
            Option<((Seq<u8>, Value), Seq<u8>)>,
            Error,
        >(Some(((key, value), after))),
{
    lemma_frame_of_framed(key, TAG_STR, encoding(value) + after);
}

/// The frames of the entries of a map, from one of them on, are decoded to
/// these entries; the decoder then goes on with what follows them.
pub proof fn lemma_entries_round_trip(
    entries: Seq<(Seq<u8>, Value)>,
    from: int,
    tail: Seq<u8>,
    limit: Option<nat>,
)
    requires
        0 <= from <= entries.len(),
        entries_fit(entries, limit),
    ensures
        decode_entries(encoding_of_entries(entries, from) + tail, entries.take(from), limit)
            == decode_entries(tail, entries, limit),
    decreases entries, entries.len() - from,
{
    if from == entries.len() {
        assert(encoding_of_entries(entries, from) + tail =~= tail);
        assert(entries.take(from) =~= entries);
    } else {
        let key = entries[from].0;
        let value = entries[from].1;
        let done = entries.take(from);
        let after = encoding_of_entries(entries, from + 1) + tail;
        let second = encoding(value) + after;
        let payload = encoding_of_entries(entries, from) + tail;
        assert(payload =~= framed(key, TAG_STR) + second);
        lemma_round_trip_within(value, after, limit);
        lemma_pair_round_trip(key, value, after, limit);
        lemma_decode_entries_step(payload, done, limit);
        assert forall|i: int| 0 <= i < done.len() implies (#[trigger] done[i]).0 != key by {
            assert(done[i] == entries[i]);
        }
        lemma_insert_fresh(done, key, value);
        assert(done.push((key, value)) =~= entries.take(from + 1));
        lemma_entries_round_trip(entries, from + 1, tail, limit);
    }
}

/// Decoding undoes encoding, whatever follows the frame: the bytes of a
/// value, with any bytes after them, decode to that value and leave exactly
/// the bytes after them.
pub proof fn lemma_round_trip(value: Value, rest: Seq<u8>)
    requires
        value.wf(),
    ensures
        decoding(encoding(value) + rest) == Ok::<(Option<Value>, Seq<u8>), Error>(
            (Some(value), rest),
        ),
{
    lemma_round_trip_within(value, rest, None);
}

/// A value that was encoded and decoded is the same value as before, and
/// nothing is left of its bytes.
pub proof fn lemma_round_trip_equal(value: Value)
    requires
        value.wf(),
    ensures
        decoding(encoding(value)) matches Ok((Some(decoded), rest)) && equal(value, decoded)
            && rest.len() == 0,
{
    let none = Seq::<u8>::empty();
    lemma_round_trip(value, none);
    assert(encoding(value) + none =~= encoding(value));
    lemma_equal_reflexive(value);
}

/// A limit on nesting changes nothing but to refuse: a payload decodes
/// within a limit as it decodes without one, or is refused as too deep.
pub proof fn lemma_limit_only_refuses(tag: u8, payload: Seq<u8>, depth: nat)
    ensures
        decode_payload_within(tag, payload, Some(depth)) == decode_payload(tag, payload)
            || decode_payload_within(tag, payload, Some(depth)) == Err::<Value, Error>(
            Error::NestingTooDeep,
        ),
    decreases payload.len(), 1nat,
{
    if depth > 0 {
        if tag == TAG_DICT {
            lemma_limit_only_refuses_entries(payload, Seq::empty(), (depth - 1) as nat);
        } else if tag == TAG_LIST {
            lemma_limit_only_refuses_items(payload, Seq::empty(), (depth - 1) as nat);
        }
    }
}

/// The items of a list's payload decode within a limit as they decode
/// without one, or are refused as too deep.
pub proof fn lemma_limit_only_refuses_items(payload: Seq<u8>, done: Seq<Value>, depth: nat)
    ensures
        decode_items(payload, done, Some(depth)) == decode_items(payload, done, None)
            || decode_items(payload, done, Some(depth)) == Err::<Seq<Value>, Error>(
            Error::NestingTooDeep,
        ),
    decreases payload.len(), 0nat,
{
    if payload.len() > 0 && frame(payload) is Ok {
        lemma_frame_parts(payload);
        let f = frame(payload)->Ok_0;
        lemma_limit_only_refuses(f.tag, f.payload, depth);
        let first = decode_payload_within(f.tag, f.payload, Some(depth));
        if first is Ok {
            lemma_limit_only_refuses_items(f.rest, done.push(first->Ok_0), depth);
        }
    }
}

/// The entries of a map's payload decode within a limit as they decode
/// without one, or are refused as too deep.
pub proof fn lemma_limit_only_refuses_entries(
    payload: Seq<u8>,
    done: Seq<(Seq<u8>, Value)>,
    depth: nat,
)
    ensures
        decode_entries(payload, done, Some(depth)) == decode_entries(payload, done, None)
            || decode_entries(payload, done, Some(depth)) == Err::<
            Seq<(Seq<u8>, Value)>,
            Error,
        >(Error::NestingTooDeep),
    decreases payload.len(), 0nat,
{
    if payload.len() > 0 && frame(payload) is Ok {
        lemma_frame_parts(payload);
        let kf = frame(payload)->Ok_0;
        lemma_limit_only_refuses(kf.tag, kf.payload, depth);
        let first = decode_payload_within(kf.tag, kf.payload, Some(depth));
        if first is Ok && first->Ok_0 is Str && kf.rest.len() > 0 && frame(kf.rest) is Ok {
            lemma_frame_parts(kf.rest);
            let vf = frame(kf.rest)->Ok_0;
            lemma_limit_only_refuses(vf.tag, vf.payload, depth);
            let second = decode_payload_within(vf.tag, vf.payload, Some(depth));
            if second is Ok {
                lemma_limit_only_refuses_entries(
                    vf.rest,
                    insert_entry(done, first->Ok_0->Str_0, second->Ok_0),
                    depth,
                );
            }
        }
    }
}

/// A limit on nesting changes nothing but to refuse: bytes decode within a
/// limit as they decode without one, or are refused as too deep; and a value
/// that is returned nests no deeper than the limit.
pub proof fn lemma_limited_decoding(bytes: Seq<u8>, depth: nat)
    ensures
        decoding_within(bytes, Some(depth)) == decoding(bytes) || decoding_within(
            bytes,
            Some(depth),
        ) == Err::<(Option<Value>, Seq<u8>), Error>(Error::NestingTooDeep),
        decoding_within(bytes, Some(depth)) matches Ok((Some(value), _)) ==> value.nests_within(depth),
{
    if bytes.len() > 0 && frame(bytes) is Ok {
        let f = frame(bytes)->Ok_0;
        lemma_limit_only_refuses(f.tag, f.payload, depth);
    }
    lemma_decoding_wf(bytes, Some(depth));
}

/// Without a limit nothing is refused as too deep.
pub proof fn lemma_never_too_deep(tag: u8, payload: Seq<u8>)
    ensures
        decode_payload(tag, payload) != Err::<Value, Error>(Error::NestingTooDeep),
    decreases payload.len(), 1nat,
{
    if tag == TAG_DICT {
        lemma_never_too_deep_entries(payload, Seq::empty());
    } else if tag == TAG_LIST {
        lemma_never_too_deep_items(payload, Seq::empty());
    }
}

/// Without a limit no item of a list is refused as too deep.
pub proof fn lemma_never_too_deep_items(payload: Seq<u8>, done: Seq<Value>)
    ensures
        decode_items(payload, done, None) != Err::<Seq<Value>, Error>(Error::NestingTooDeep),
    decreases payload.len(), 0nat,
{
    if payload.len() > 0 && frame(payload) is Ok {
        lemma_frame_parts(payload);
        let f = frame(payload)->Ok_0;
        lemma_never_too_deep(f.tag, f.payload);
        let first = decode_payload(f.tag, f.payload);
        if first is Ok {
            lemma_never_too_deep_items(f.rest, done.push(first->Ok_0));
        }
    }
}

/// Without a limit no entry of a map is refused as too deep.
pub proof fn lemma_never_too_deep_entries(payload: Seq<u8>, done: Seq<(Seq<u8>, Value)>)
    ensures
        decode_entries(payload, done, None) != Err::<Seq<(Seq<u8>, Value)>, Error>(
            Error::NestingTooDeep,
        ),
    decreases payload.len(), 0nat,
{
    if payload.len() > 0 && frame(payload) is Ok {
        lemma_frame_parts(payload);
        let kf = frame(payload)->Ok_0;
        lemma_never_too_deep(kf.tag, kf.payload);
        let first = decode_payload(kf.tag, kf.payload);
        if first is Ok && first->Ok_0 is Str && kf.rest.len() > 0 && frame(kf.rest) is Ok {
            lemma_frame_parts(kf.rest);
            let vf = frame(kf.rest)->Ok_0;
            lemma_never_too_deep(vf.tag, vf.payload);
            let second = decode_payload(vf.tag, vf.payload);
            if second is Ok {
                lemma_never_too_deep_entries(
                    vf.rest,
                    insert_entry(done, first->Ok_0->Str_0, second->Ok_0),
                );
            }
        }
    }
}

/// Without a limit no bytes are refused as too deep.
pub proof fn lemma_decoding_never_too_deep(bytes: Seq<u8>)
    ensures
        decoding(bytes) != Err::<(Option<Value>, Seq<u8>), Error>(Error::NestingTooDeep),
{
    if bytes.len() > 0 && frame(bytes) is Ok {
        let f = frame(bytes)->Ok_0;
        lemma_never_too_deep(f.tag, f.payload);
    }
}

/// Nothing to decode is no error: of no bytes a decoder makes no value, and
/// no bytes are left.
pub proof fn lemma_clean_end(bytes: Seq<u8>)
    ensures
        bytes.len() == 0 ==> decoding(bytes) == Ok::<(Option<Value>, Seq<u8>), Error>(
            (None, Seq::empty()),
        ),
        decoding(bytes) matches Ok((None, _)) ==> bytes.len() == 0,
{
    if bytes.len() == 0 {
        assert(bytes =~= Seq::<u8>::empty());
    }
}

/// The length of a frame counts its payload exactly: the frame of a value is
/// the decimal text of the payload's length, `:`, the payload and the tag,
/// and a decoder reads the payload back whole.
pub proof fn lemma_exact_framing(value: Value, rest: Seq<u8>)
    ensures
        encoding(value) == decimal(payload_of(value).len()) + seq![COLON] + payload_of(value)
            + seq![tag_of(value)],
        frame(encoding(value) + rest) == Ok::<Frame, Error>(
            Frame { payload: payload_of(value), tag: tag_of(value), rest },
        ),
{
    lemma_frame_of_framed(payload_of(value), tag_of(value), rest);
}

/// The error that is owed to the first `keep` bytes of a frame with a payload
/// of `length` bytes, whose length is written with `width` digits.
pub open spec fn cut_error(width: int, length: int, keep: int) -> Error {
    if keep <= width {
        Error::MissingLengthPrefix
    } else if keep < width + 1 + length {
        Error::TruncatedPayload
    } else {
        Error::MissingTypeTag
    }
}

/// A frame that lost bytes at its end is no frame. Cut within its length or
/// before the `:`, it has no length prefix; cut within its payload, its
/// payload is truncated; cut before the tag, its tag is missing.
pub proof fn lemma_truncated_frame(payload: Seq<u8>, tag: u8, keep: int)
    requires
        0 < keep < framed(payload, tag).len(),
    ensures
        frame(framed(payload, tag).take(keep)) == Err::<Frame, Error>(
            cut_error(decimal(payload.len()).len() as int, payload.len() as int, keep),
        ),
{
    let head = decimal(payload.len());
    let width = head.len() as int;
    let whole = framed(payload, tag);
    let bytes = whole.take(keep);
    lemma_decimal_canonical(payload.len());
    assert forall|i: int| 0 <= i < width && i < keep implies is_digit(#[trigger] bytes[i]) by {
        assert(bytes[i] == head[i]);
    }
    assert(bytes[0] == head[0]);
    if keep <= width {
        if bytes[0] != DIGIT_ZERO {
            lemma_digits_end(bytes, 0, keep);
        }
    } else {
        assert(bytes[width] == COLON);
        if bytes[0] != DIGIT_ZERO {
            lemma_digits_end(bytes, 0, width);
        }
        assert(length_field(bytes) == width);
        assert(bytes.take(width) =~= head);
    }
}

/// The bytes of a value that lost bytes at their end decode to no value:
/// they give the error that `cut_error` names.
pub proof fn lemma_truncation(value: Value, keep: int)
    requires
        0 < keep < encoding(value).len(),
    ensures
        decoding(encoding(value).take(keep)) == Err::<(Option<Value>, Seq<u8>), Error>(
            cut_error(
                decimal(payload_of(value).len()).len() as int,
                payload_of(value).len() as int,
                keep,
            ),
        ),
{
    lemma_truncated_frame(payload_of(value), tag_of(value), keep);
}

/// The bytes of a value without their last byte have lost their type tag.
pub proof fn lemma_missing_tag(value: Value)
    ensures
        decoding(encoding(value).drop_last()) == Err::<(Option<Value>, Seq<u8>), Error>(
            Error::MissingTypeTag,
        ),
{
    lemma_decimal_canonical(payload_of(value).len());
    let keep = encoding(value).len() - 1;
    lemma_truncation(value, keep);
    assert(encoding(value).drop_last() =~= encoding(value).take(keep));
}

/// The bytes of a value without their tag and without the last byte of
/// their payload, or more of it, have a truncated payload.
pub proof fn lemma_truncated_payload(value: Value, lost: int)
    requires
        0 < lost <= payload_of(value).len(),
    ensures
        decoding(encoding(value).take(encoding(value).len() - 1 - lost)) == Err::<
            (Option<Value>, Seq<u8>),
            Error,
        >(Error::TruncatedPayload),
{
    lemma_decimal_canonical(payload_of(value).len());
    lemma_truncation(value, encoding(value).len() - 1 - lost);
}

/// A length that starts with `0` is that `0` alone: bytes that start with
/// `0` and go on with anything but `:` have no length prefix.
pub proof fn lemma_zero_padding(bytes: Seq<u8>)
    requires
        bytes.len() >= 2,
        bytes[0] == DIGIT_ZERO,
        bytes[1] != COLON,
    ensures
        decoding(bytes) == Err::<(Option<Value>, Seq<u8>), Error>(Error::MissingLengthPrefix),
{
}

/// Only byte strings are keys: a map's payload in which a value of another
/// kind stands where a key is due is refused for that, wherever in the
/// payload it stands.
pub proof fn lemma_key_must_be_string(
    entries: Seq<(Seq<u8>, Value)>,
    key: Value,
    tail: Seq<u8>,
    rest: Seq<u8>,
)
    requires
        Value::Dict(entries).wf(),
        key.wf(),
        !(key is Str),
    ensures
        decoding(framed(encoding_of_entries(entries, 0) + encoding(key) + tail, TAG_DICT) + rest)
            == Err::<(Option<Value>, Seq<u8>), Error>(Error::KeysCanOnlyBeStrings),
{
    let payload = encoding_of_entries(entries, 0) + encoding(key) + tail;
    lemma_frame_of_framed(payload, TAG_DICT, rest);
    assert(payload =~= encoding_of_entries(entries, 0) + (encoding(key) + tail));
    lemma_dict_fits(entries, None);
    lemma_entries_round_trip(entries, 0, encoding(key) + tail, None);
    assert(entries.take(0) =~= Seq::<(Seq<u8>, Value)>::empty());
    lemma_round_trip_within(key, tail, None);
}

/// What follows a frame does not change how the frame is read: where some
/// bytes decode to a value, the bytes that were read for it decode to the
/// same value before any other bytes.
pub proof fn lemma_no_lookahead(bytes: Seq<u8>, other: Seq<u8>)
    requires
        decoding(bytes) matches Ok((Some(_), _)),
    ensures
        ({
            let value = decoding(bytes)->Ok_0.0;
            let rest = decoding(bytes)->Ok_0.1;
            let read = bytes.take(bytes.len() - rest.len());
            &&& rest.len() < bytes.len()
            &&& bytes == read + rest
            &&& decoding(read + other) == Ok::<(Option<Value>, Seq<u8>), Error>((value, other))
        }),
{
    lemma_frame_parts(bytes);
    let f = frame(bytes)->Ok_0;
    let read = bytes.take(bytes.len() - f.rest.len());
    assert(read =~= framed(f.payload, f.tag));
    lemma_frame_of_framed(f.payload, f.tag, other);
}

/// Two values with the same bytes are one value.
pub proof fn lemma_encoding_injective(a: Value, b: Value)
    requires
        a.wf(),
        b.wf(),
        encoding(a) == encoding(b),
    ensures
        a == b,
{
    lemma_round_trip(a, Seq::empty());
    lemma_round_trip(b, Seq::empty());
}

/// The bytes of no value are the start of the bytes of another: a reader
/// knows from the bytes of a value alone where they end.
pub proof fn lemma_prefix_free(a: Value, b: Value)
    requires
        a.wf(),
        encoding(a).is_prefix_of(encoding(b)),
    ensures
        encoding(a) == encoding(b),
{
    let short = encoding(a);
    let long = encoding(b);
    lemma_decimal_canonical(payload_of(a).len());
    if short.len() < long.len() {
        assert(long.take(short.len() as int) =~= short);
        lemma_truncation(b, short.len() as int);
        lemma_round_trip(a, Seq::empty());
        assert(short + Seq::<u8>::empty() =~= short);
    } else {
        assert(short =~= long);
    }
}

} // verus!
