//! From bytes to the value that they hold.

use vstd::prelude::*;
use vstd::slice::slice_to_vec;
use vstd::string::StringSliceAdditionalSpecFns;
use crate::bytes::same_bytes;
use crate::ascii::{TAG_BOOL, TAG_DICT, TAG_FLOAT, TAG_INT, TAG_LIST, TAG_NULL, TAG_STR};
use crate::digits::{int_value, parse_int};
use crate::encode::bool_text;
use crate::error::Error;
use crate::framing::{frame, lemma_frame_parts, read_frame};
use crate::literal::{float_value, parse_float};
use crate::literal_proofs::lemma_float_value_wf;
use crate::value::{
    distinct_keys, insert_entry, key_index, lemma_insert_distinct, lemma_key_index, view_of, views,
    Dict, TNetString, Value,
};

verus! {

/// The limit that holds inside a list or a map, where `limit` holds around
/// it: one level less, or none where there is none.
pub open spec fn inside(limit: Option<nat>) -> Option<nat> {
    match limit {
        Some(depth) => Some((depth - 1) as nat),
        None => None,
    }
}

/// The value that a frame with the given type tag and payload holds, where
/// lists and maps may nest `limit` levels deep. A list or a map that stands
/// deeper is refused before its payload is looked at.
pub open spec fn decode_payload_within(tag: u8, payload: Seq<u8>, limit: Option<nat>) -> Result<
    Value,
    Error,
>
    decreases payload.len(), 1nat,
{
    if tag == TAG_STR {
        Ok(Value::Str(payload))
    } else if tag == TAG_INT {
        match int_value(payload) {
            Some(i) => Ok(Value::Int(i as int)),
            None => Err(Error::InvalidInteger),
        }
    } else if tag == TAG_FLOAT {
        match float_value(payload) {
            Some(f) => Ok(Value::Float(f)),
            None => Err(Error::InvalidFloat),
        }
    } else if tag == TAG_BOOL {
        if payload == bool_text(true) {
            Ok(Value::Bool(true))
        } else if payload == bool_text(false) {
            Ok(Value::Bool(false))
        } else {
            Err(Error::InvalidBool)
        }
    } else if tag == TAG_NULL {
        if payload.len() == 0 {
            Ok(Value::Null)
        } else {
            Err(Error::InvalidNull)
        }
    } else if tag == TAG_DICT {
        if limit == Some(0nat) {
            Err(Error::NestingTooDeep)
        } else {
            match decode_entries(payload, Seq::empty(), inside(limit)) {
                Ok(entries) => Ok(Value::Dict(entries)),
                Err(e) => Err(e),
            }
        }
    } else if tag == TAG_LIST {
        if limit == Some(0nat) {
            Err(Error::NestingTooDeep)
        } else {
            match decode_items(payload, Seq::empty(), inside(limit)) {
                Ok(items) => Ok(Value::List(items)),
                Err(e) => Err(e),
            }
        }
    } else {
        Err(Error::InvalidPayloadType(tag))
    }
}

/// The items `done`, and after them the values of the frames that make up
/// `payload`, in their order.
pub open spec fn decode_items(payload: Seq<u8>, done: Seq<Value>, limit: Option<nat>) -> Result<
    Seq<Value>,
    Error,
>
    decreases payload.len(), 0nat,
{
    if payload.len() == 0 {
        Ok(done)
    } else {
        match frame(payload) {
            Err(e) => Err(e),
            Ok(f) => {
                proof {
                    lemma_frame_parts(payload);
                }
                match decode_payload_within(f.tag, f.payload, limit) {
                    Err(e) => Err(e),
                    Ok(item) => decode_items(f.rest, done.push(item), limit),
                }
            },
        }
    }
}

/// The entries `done` after each pair of frames of `payload`, a key and then
/// its value, was inserted in turn. A key that comes again keeps its place
/// and takes the later value. The frame of a key is decoded before it is
/// asked to be a byte string.
pub open spec fn decode_entries(
    payload: Seq<u8>,
    done: Seq<(Seq<u8>, Value)>,
    limit: Option<nat>,
) -> Result<Seq<(Seq<u8>, Value)>, Error>
    decreases payload.len(), 0nat,
{
    if payload.len() == 0 {
        Ok(done)
    } else {
        match frame(payload) {
            Err(e) => Err(e),
            Ok(kf) => {
                proof {
                    lemma_frame_parts(payload);
                }
                match decode_payload_within(kf.tag, kf.payload, limit) {
                    Err(e) => Err(e),
                    Ok(Value::Str(key)) => if kf.rest.len() == 0 {
                        Err(Error::InvalidMap)
                    } else {
                        match frame(kf.rest) {
                            Err(e) => Err(e),
                            Ok(vf) => {
                                proof {
                                    lemma_frame_parts(kf.rest);
                                }
                                match decode_payload_within(vf.tag, vf.payload, limit) {
                                    Err(e) => Err(e),
                                    Ok(value) => decode_entries(
                                        vf.rest,
                                        insert_entry(done, key, value),
                                        limit,
                                    ),
                                }
                            },
                        }
                    },
                    Ok(_) => Err(Error::KeysCanOnlyBeStrings),
                }
            },
        }
    }
}

/// What a decoder makes of `bytes` where lists and maps may nest `limit`
/// levels deep: of no bytes, no value; else the value of the first frame and
/// the bytes after that frame, or the reason for which the frame is refused.
pub open spec fn decoding_within(bytes: Seq<u8>, limit: Option<nat>) -> Result<
    (Option<Value>, Seq<u8>),
    Error,
> {
    if bytes.len() == 0 {
        Ok((None, bytes))
    } else {
        match frame(bytes) {
            Err(e) => Err(e),
            Ok(f) => match decode_payload_within(f.tag, f.payload, limit) {
                Err(e) => Err(e),
                Ok(value) => Ok((Some(value), f.rest)),
            },
        }
    }
}

/// The value that a frame with the given type tag and payload holds.
pub open spec fn decode_payload(tag: u8, payload: Seq<u8>) -> Result<Value, Error> {
    decode_payload_within(tag, payload, None)
}

/// What a decoder makes of `bytes`: of no bytes, no value; else the value of
/// the first frame and the bytes after that frame, or the reason for which
/// the frame is refused.
pub open spec fn decoding(bytes: Seq<u8>) -> Result<(Option<Value>, Seq<u8>), Error> {
    decoding_within(bytes, None)
}

/// What a decoder makes of the start of a map's payload: of no bytes, no
/// entry; else a key, its value, and the bytes after the two frames.
pub open spec fn decoding_pair(bytes: Seq<u8>, limit: Option<nat>) -> Result<
    Option<((Seq<u8>, Value), Seq<u8>)>,
    Error,
> {
    match decoding_within(bytes, limit) {
        Err(e) => Err(e),
        Ok((None, _)) => Ok(None),
        Ok((Some(Value::Str(key)), rest)) => match decoding_within(rest, limit) {
            Err(e) => Err(e),
            Ok((None, _)) => Err(Error::InvalidMap),
            Ok((Some(value), after)) => Ok(Some(((key, value), after))),
        },
        Ok((Some(_), _)) => Err(Error::KeysCanOnlyBeStrings),
    }
}

/// A decoder that returns a value has read at least its frame.
pub proof fn lemma_rest_shorter(bytes: Seq<u8>, limit: Option<nat>)
    ensures
        decoding_within(bytes, limit) matches Ok((Some(_), rest)) ==> rest.len() + 3
            <= bytes.len(),
{
    if frame(bytes) is Ok {
        lemma_frame_parts(bytes);
    }
}

/// The items of a list's payload are what a decoder makes of it, one call
/// after the other.
pub proof fn lemma_decode_items_step(payload: Seq<u8>, done: Seq<Value>, limit: Option<nat>)
    ensures
        decode_items(payload, done, limit) == match decoding_within(payload, limit) {
            Err(e) => Err(e),
            Ok((None, _)) => Ok(done),
            Ok((Some(item), rest)) => decode_items(rest, done.push(item), limit),
        },
{
}

/// The entries of a map's payload are what a decoder makes of it, one pair
/// after the other.
pub proof fn lemma_decode_entries_step(
    payload: Seq<u8>,
    done: Seq<(Seq<u8>, Value)>,
    limit: Option<nat>,
)
    ensures
        decode_entries(payload, done, limit) == match decoding_pair(payload, limit) {
            Err(e) => Err(e),
            Ok(None) => Ok(done),
            Ok(Some((entry, rest))) => decode_entries(
                rest,
                insert_entry(done, entry.0, entry.1),
                limit,
            ),
        },
        decoding_pair(payload, limit) matches Ok(Some((_, rest))) ==> rest.len() < payload.len(),
{
    if frame(payload) is Ok {
        lemma_frame_parts(payload);
        let kf = frame(payload)->Ok_0;
        if frame(kf.rest) is Ok {
            lemma_frame_parts(kf.rest);
        }
    }
}

/// Every value that a payload decodes to is one that the library can hold,
/// and nests no deeper than the limit.
pub proof fn lemma_decoded_wf(tag: u8, payload: Seq<u8>, limit: Option<nat>)
    requires
        decode_payload_within(tag, payload, limit) is Ok,
    ensures
        decode_payload_within(tag, payload, limit)->Ok_0.wf(),
        limit matches Some(depth) ==> decode_payload_within(tag, payload, limit)->Ok_0.nests_within(
            depth,
        ),
    decreases payload.len(), 1nat,
{
    if tag == TAG_FLOAT {
        lemma_float_value_wf(payload);
    } else if tag == TAG_DICT {
        lemma_decoded_entries_wf(payload, Seq::empty(), inside(limit));
        let entries = decode_entries(payload, Seq::empty(), inside(limit))->Ok_0;
        assert(Value::Dict(entries)->Dict_0 == entries);
    } else if tag == TAG_LIST {
        lemma_decoded_items_wf(payload, Seq::empty(), inside(limit));
        let items = decode_items(payload, Seq::empty(), inside(limit))->Ok_0;
        assert(Value::List(items)->List_0 == items);
    }
}

/// Whether each of the items is one that the library can hold and nests no
/// deeper than the limit.
pub open spec fn items_fit(items: Seq<Value>, limit: Option<nat>) -> bool {
    forall|i: int|
        0 <= i < items.len() ==> (#[trigger] items[i]).wf() && (limit matches Some(depth)
            ==> items[i].nests_within(depth))
}

/// Whether the entries have distinct keys, and each of their values is one
/// that the library can hold and nests no deeper than the limit.
pub open spec fn entries_fit(entries: Seq<(Seq<u8>, Value)>, limit: Option<nat>) -> bool {
    &&& distinct_keys(entries)
    &&& forall|i: int|
        0 <= i < entries.len() ==> (#[trigger] entries[i]).1.wf() && (limit matches Some(depth)
            ==> entries[i].1.nests_within(depth))
}

/// The items that a list's payload decodes to are ones that the library can
/// hold, where those before them are.
pub proof fn lemma_decoded_items_wf(payload: Seq<u8>, done: Seq<Value>, limit: Option<nat>)
    requires
        decode_items(payload, done, limit) is Ok,
        items_fit(done, limit),
    ensures
        items_fit(decode_items(payload, done, limit)->Ok_0, limit),
    decreases payload.len(), 0nat,
{
    if payload.len() > 0 {
        lemma_frame_parts(payload);
        let f = frame(payload)->Ok_0;
        lemma_decoded_wf(f.tag, f.payload, limit);
        let item = decode_payload_within(f.tag, f.payload, limit)->Ok_0;
        let next = done.push(item);
        assert forall|i: int| 0 <= i < next.len() implies (#[trigger] next[i]).wf() && (
        limit matches Some(depth) ==> next[i].nests_within(depth)) by {
            if i < done.len() {
                assert(next[i] == done[i]);
            }
        }
        lemma_decoded_items_wf(f.rest, next, limit);
    }
}

/// The entries that a map's payload decodes to have distinct keys and
/// values that the library can hold, where those before them have.
pub proof fn lemma_decoded_entries_wf(
    payload: Seq<u8>,
    done: Seq<(Seq<u8>, Value)>,
    limit: Option<nat>,
)
    requires
        decode_entries(payload, done, limit) is Ok,
        entries_fit(done, limit),
    ensures
        entries_fit(decode_entries(payload, done, limit)->Ok_0, limit),
    decreases payload.len(), 0nat,
{
    if payload.len() > 0 {
        lemma_frame_parts(payload);
        let kf = frame(payload)->Ok_0;
        let key = decode_payload_within(kf.tag, kf.payload, limit)->Ok_0->Str_0;
        lemma_frame_parts(kf.rest);
        let vf = frame(kf.rest)->Ok_0;
        lemma_decoded_wf(vf.tag, vf.payload, limit);
        let value = decode_payload_within(vf.tag, vf.payload, limit)->Ok_0;
        let next = insert_entry(done, key, value);
        lemma_insert_distinct(done, key, value);
        lemma_key_index(done, key, 0);
        assert forall|i: int| 0 <= i < next.len() implies (#[trigger] next[i]).1.wf() && (
        limit matches Some(depth) ==> next[i].1.nests_within(depth)) by {
            if i < done.len() && i != key_index(done, key, 0) {
                assert(next[i] == done[i]);
            }
        }
        lemma_decoded_entries_wf(vf.rest, next, limit);
    }
}

/// Every value that bytes decode to is one that the library can hold, and
/// nests no deeper than the limit.
pub proof fn lemma_decoding_wf(bytes: Seq<u8>, limit: Option<nat>)
    ensures
        decoding_within(bytes, limit) matches Ok((Some(value), _)) ==> value.wf() && (
        limit matches Some(depth) ==> value.nests_within(depth)),
{
    if decoding_within(bytes, limit) matches Ok((Some(value), _)) {
        let f = frame(bytes)->Ok_0;
        lemma_decoded_wf(f.tag, f.payload, limit);
    }
}

/// A place in some bytes from which values are read one after the other.
pub struct Reader<'a> {
    data: &'a [u8],
}

impl<'a> View for Reader<'a> {
    type V = Seq<u8>;

    /// The bytes that were not read yet.
    closed spec fn view(&self) -> Seq<u8> {
        self.data@
    }
}

impl<'a> Reader<'a> {
    /// A reader at the start of `data`.
    pub fn new(data: &'a [u8]) -> (rdr: Reader<'a>)
        ensures
            rdr@ == data@,
    {
        Reader { data }
    }

    /// Whether every byte was read.
    pub fn eof(&self) -> (r: bool)
        ensures
            r == (self@.len() == 0),
    {
        self.data.len() == 0
    }

    /// The bytes that were not read yet.
    pub fn remaining(&self) -> (rest: &'a [u8])
        ensures
            rest@ == self@,
    {
        self.data
    }
}

/// The limit as the contracts see it.
pub open spec fn limit_of(limit: Option<usize>) -> Option<nat> {
    match limit {
        Some(depth) => Some(depth as nat),
        None => None,
    }
}

/// Reads one value from `rdr`, in which lists and maps may nest `limit`
/// levels deep, and leaves `rdr` after the value's frame; reads nothing and
/// returns `None` where no bytes are left. A reader whose next frame is
/// refused is left where it was.
pub fn read_value<'a>(rdr: &mut Reader<'a>, limit: Option<usize>) -> (r: Result<
    Option<TNetString>,
    Error,
>)
    ensures
        match decoding_within(old(rdr)@, limit_of(limit)) {
            Ok((value, rest)) => r is Ok && view_of(r->Ok_0) == value && final(rdr)@ == rest,
            Err(e) => r is Err && r->Err_0 == e && final(rdr)@ == old(rdr)@,
        },
        r matches Ok(Some(value)) ==> value@.wf(),
    decreases old(rdr)@.len(), 0nat,
{
    let data: &'a [u8] = rdr.data;
    if data.len() == 0 {
        return Ok(None);
    }
    let (payload, tag, rest) = match read_frame(data) {
        Ok(parts) => parts,
        Err(e) => {
            return Err(e);
        },
    };
    proof {
        lemma_frame_parts(data@);
    }
    let value = match payload_value(tag, payload, limit) {
        Ok(value) => value,
        Err(e) => {
            return Err(e);
        },
    };
    rdr.data = rest;
    Ok(Some(value))
}

/// The value of a frame with the given type tag and payload, in which lists
/// and maps may nest `limit` levels deep.
pub fn payload_value(tag: u8, payload: &[u8], limit: Option<usize>) -> (r: Result<
    TNetString,
    Error,
>)
    ensures
        match decode_payload_within(tag, payload@, limit_of(limit)) {
            Ok(value) => r is Ok && r->Ok_0@ == value && value.wf(),
            Err(e) => r is Err && r->Err_0 == e,
        },
    decreases payload@.len(), 3nat,
{
    proof {
        if decode_payload_within(tag, payload@, limit_of(limit)) is Ok {
            lemma_decoded_wf(tag, payload@, limit_of(limit));
        }
    }
    if tag == TAG_STR {
        Ok(TNetString::Str(slice_to_vec(payload)))
    } else if tag == TAG_INT {
        match parse_int(payload) {
            Some(i) => Ok(TNetString::Int(i)),
            None => Err(Error::InvalidInteger),
        }
    } else if tag == TAG_FLOAT {
        match parse_float(payload) {
            Some(f) => Ok(TNetString::Float(f)),
            None => Err(Error::InvalidFloat),
        }
    } else if tag == TAG_BOOL {
        let yes: [u8; 4] = [116u8, 114u8, 117u8, 101u8];
        let no: [u8; 5] = [102u8, 97u8, 108u8, 115u8, 101u8];
        assert(yes@ =~= bool_text(true));
        assert(no@ =~= bool_text(false));
        if same_bytes(payload, yes.as_slice()) {
            Ok(TNetString::Bool(true))
        } else if same_bytes(payload, no.as_slice()) {
            Ok(TNetString::Bool(false))
        } else {
            Err(Error::InvalidBool)
        }
    } else if tag == TAG_NULL {
        if payload.len() == 0 {
            Ok(TNetString::Null)
        } else {
            Err(Error::InvalidNull)
        }
    } else if tag == TAG_DICT || tag == TAG_LIST {
        let deeper: Option<usize> = match limit {
            Some(depth) => {
                if depth == 0 {
                    return Err(Error::NestingTooDeep);
                }
                Some(depth - 1)
            },
            None => None,
        };
        assert(limit_of(deeper) == inside(limit_of(limit)));
        if tag == TAG_DICT {
            match parse_map(payload, deeper) {
                Ok(entries) => Ok(TNetString::Dict(entries)),
                Err(e) => Err(e),
            }
        } else {
            match parse_vec(payload, deeper) {
                Ok(items) => {
                    proof {
                        crate::value::lemma_view_of_list(items);
                    }
                    Ok(TNetString::Vec(items))
                },
                Err(e) => Err(e),
            }
        }
    } else {
        Err(Error::InvalidPayloadType(tag))
    }
}

/// The items of a list's payload.
pub fn parse_vec(data: &[u8], limit: Option<usize>) -> (r: Result<Vec<TNetString>, Error>)
    ensures
        match decode_items(data@, Seq::empty(), limit_of(limit)) {
            Ok(items) => r is Ok && views(r->Ok_0@) == items,
            Err(e) => r is Err && r->Err_0 == e,
        },
    decreases data@.len(), 2nat,
{
    let mut result: Vec<TNetString> = Vec::new();
    let mut rdr = Reader::new(data);
    assert(views(result@) =~= Seq::<Value>::empty());
    loop
        invariant
            rdr@.len() <= data@.len(),
            decode_items(data@, Seq::empty(), limit_of(limit)) == decode_items(
                rdr@,
                views(result@),
                limit_of(limit),
            ),
        decreases rdr@.len(),
    {
        proof {
            lemma_decode_items_step(rdr@, views(result@), limit_of(limit));
            lemma_rest_shorter(rdr@, limit_of(limit));
        }
        let ghost before = views(result@);
        match read_value(&mut rdr, limit) {
            Err(e) => {
                return Err(e);
            },
            Ok(None) => {
                return Ok(result);
            },
            Ok(Some(value)) => {
                result.push(value);
                assert(views(result@) =~= before.push(value@));
            },
        }
    }
}

/// Reads a key and its value from `rdr`; reads nothing and returns `None`
/// where no bytes are left. A reader whose next two frames are refused is
/// left where it was.
pub fn parse_pair<'a>(rdr: &mut Reader<'a>, limit: Option<usize>) -> (r: Result<
    Option<(Vec<u8>, TNetString)>,
    Error,
>)
    ensures
        match decoding_pair(old(rdr)@, limit_of(limit)) {
            Ok(Some((entry, rest))) => r is Ok && r->Ok_0 is Some && r->Ok_0->Some_0.0@ == entry.0
                && r->Ok_0->Some_0.1@ == entry.1 && final(rdr)@ == rest,
            Ok(None) => r is Ok && r->Ok_0 is None && final(rdr)@ == old(rdr)@,
            Err(e) => r is Err && r->Err_0 == e && final(rdr)@ == old(rdr)@,
        },
    decreases old(rdr)@.len(), 1nat,
{
    let start: &'a [u8] = rdr.data;
    proof {
        lemma_rest_shorter(start@, limit_of(limit));
    }
    match read_value(rdr, limit) {
        Err(e) => Err(e),
        Ok(None) => Ok(None),
        Ok(Some(TNetString::Str(key))) => {
            match read_value(rdr, limit) {
                Err(e) => {
                    rdr.data = start;
                    Err(e)
                },
                Ok(None) => {
                    rdr.data = start;
                    Err(Error::InvalidMap)
                },
                Ok(Some(value)) => Ok(Some((key, value))),
            }
        },
        Ok(Some(_)) => {
            rdr.data = start;
            Err(Error::KeysCanOnlyBeStrings)
        },
    }
}

/// The entries of a map's payload.
pub fn parse_map(data: &[u8], limit: Option<usize>) -> (r: Result<Dict, Error>)
    ensures
        match decode_entries(data@, Seq::empty(), limit_of(limit)) {
            Ok(entries) => r is Ok && r->Ok_0@ == entries,
            Err(e) => r is Err && r->Err_0 == e,
        },
    decreases data@.len(), 2nat,
{
    let mut result = Dict::new();
    let mut rdr = Reader::new(data);
    loop
        invariant
            rdr@.len() <= data@.len(),
            decode_entries(data@, Seq::empty(), limit_of(limit)) == decode_entries(
                rdr@,
                result@,
                limit_of(limit),
            ),
        decreases rdr@.len(),
    {
        proof {
            lemma_decode_entries_step(rdr@, result@, limit_of(limit));
        }
        match parse_pair(&mut rdr, limit) {
            Err(e) => {
                return Err(e);
            },
            Ok(None) => {
                return Ok(result);
            },
            Ok(Some((key, value))) => {
                result.insert(key, value);
            },
        }
    }
}

/// Reads one value from `rdr` and leaves it after the value's frame; reads
/// nothing and returns `None` where no bytes are left. A reader whose next
/// frame is refused is left where it was.
pub fn from_reader<'a>(rdr: &mut Reader<'a>) -> (r: Result<Option<TNetString>, Error>)
    ensures
        match decoding(old(rdr)@) {
            Ok((value, rest)) => r is Ok && view_of(r->Ok_0) == value && final(rdr)@ == rest,
            Err(e) => r is Err && r->Err_0 == e && final(rdr)@ == old(rdr)@,
        },
        r matches Ok(Some(value)) ==> value@.wf(),
{
    read_value(rdr, None)
}

/// Reads one value as `from_reader` does, and refuses a list or a map that
/// stands deeper than `max_depth` lists and maps: a value that is returned
/// nests no deeper.
pub fn from_reader_within<'a>(rdr: &mut Reader<'a>, max_depth: usize) -> (r: Result<
    Option<TNetString>,
    Error,
>)
    ensures
        match decoding_within(old(rdr)@, Some(max_depth as nat)) {
            Ok((value, rest)) => r is Ok && view_of(r->Ok_0) == value && final(rdr)@ == rest,
            Err(e) => r is Err && r->Err_0 == e && final(rdr)@ == old(rdr)@,
        },
        r matches Ok(Some(value)) ==> value@.wf() && value@.nests_within(max_depth as nat),
{
    proof {
        lemma_decoding_wf(rdr@, Some(max_depth as nat));
    }
    read_value(rdr, Some(max_depth))
}

/// The value of a frame with the given type tag and payload.
pub fn from_payload(tag: u8, payload: &[u8]) -> (r: Result<TNetString, Error>)
    ensures
        match decode_payload(tag, payload@) {
            Ok(value) => r is Ok && r->Ok_0@ == value && value.wf(),
            Err(e) => r is Err && r->Err_0 == e,
        },
{
    payload_value(tag, payload, None)
}

/// Reads the first value of `data`. Returns it with a reader of the bytes
/// after its frame; of no bytes, no value.
pub fn from_bytes<'a>(data: &'a [u8]) -> (r: Result<(Option<TNetString>, Reader<'a>), Error>)
    ensures
        match decoding(data@) {
            Ok((value, rest)) => r is Ok && view_of(r->Ok_0.0) == value && r->Ok_0.1@ == rest,
            Err(e) => r is Err && r->Err_0 == e,
        },
        r matches Ok((Some(value), _)) ==> value@.wf(),
{
    let mut rdr = Reader::new(data);
    match from_reader(&mut rdr) {
        Ok(value) => Ok((value, rdr)),
        Err(e) => Err(e),
    }
}

/// Reads the first value of `data` as `from_bytes` does, and refuses a list
/// or a map that stands deeper than `max_depth` lists and maps.
pub fn from_bytes_within<'a>(data: &'a [u8], max_depth: usize) -> (r: Result<
    (Option<TNetString>, Reader<'a>),
    Error,
>)
    ensures
        match decoding_within(data@, Some(max_depth as nat)) {
            Ok((value, rest)) => r is Ok && view_of(r->Ok_0.0) == value && r->Ok_0.1@ == rest,
            Err(e) => r is Err && r->Err_0 == e,
        },
        r matches Ok((Some(value), _)) ==> value@.wf() && value@.nests_within(max_depth as nat),
{
    let mut rdr = Reader::new(data);
    match from_reader_within(&mut rdr, max_depth) {
        Ok(value) => Ok((value, rdr)),
        Err(e) => Err(e),
    }
}

/// Reads the first value of the bytes of `data`.
pub fn from_str<'a>(data: &'a str) -> (r: Result<(Option<TNetString>, Reader<'a>), Error>)
    ensures
        match decoding(data.spec_bytes()) {
            Ok((value, rest)) => r is Ok && view_of(r->Ok_0.0) == value && r->Ok_0.1@ == rest,
            Err(e) => r is Err && r->Err_0 == e,
        },
        r matches Ok((Some(value), _)) ==> value@.wf(),
{
    from_bytes(data.as_bytes())
}

} // verus!
