//! From a value to its bytes.

use vstd::prelude::*;
use vstd::utf8::{decode_utf8, valid_utf8};
use crate::ascii::{TAG_BOOL, TAG_DICT, TAG_FLOAT, TAG_INT, TAG_LIST, TAG_NULL, TAG_STR};
use crate::digits::{signed_decimal, write_decimal, write_int};
use crate::bytes::append;
use crate::error::Error;
use crate::float::{float_text, write_float};
use crate::framing::framed;
use crate::value::{TNetString, Value};

verus! {

/// The payload of a boolean: the text `true` or the text `false`.
pub open spec fn bool_text(b: bool) -> Seq<u8> {
    if b {
        seq![116u8, 114u8, 117u8, 101u8]
    } else {
        seq![102u8, 97u8, 108u8, 115u8, 101u8]
    }
}

/// The type tag that ends the frame of `value`.
pub open spec fn tag_of(value: Value) -> u8 {
    match value {
        Value::Str(_) => TAG_STR,
        Value::Int(_) => TAG_INT,
        Value::Float(_) => TAG_FLOAT,
        Value::Bool(_) => TAG_BOOL,
        Value::Null => TAG_NULL,
        Value::Dict(_) => TAG_DICT,
        Value::List(_) => TAG_LIST,
    }
}

/// The payload of the frame of `value`. That of a list is the frames of its
/// items, one after the other; that of a map is, for each entry in order,
/// the frame of the key as a byte string and then the frame of the value.
pub open spec fn payload_of(value: Value) -> Seq<u8>
    decreases value, 0nat,
{
    match value {
        Value::Str(s) => s,
        Value::Int(i) => signed_decimal(i),
        Value::Float(f) => float_text(f),
        Value::Bool(b) => bool_text(b),
        Value::Null => Seq::empty(),
        Value::Dict(entries) => encoding_of_entries(entries, 0),
        Value::List(items) => encoding_of_items(items, 0),
    }
}

/// The bytes of `value`: its frame.
pub open spec fn encoding(value: Value) -> Seq<u8>
    decreases value, 1nat,
{
    framed(payload_of(value), tag_of(value))
}

/// The frames of the items from index `from` on, one after the other.
pub open spec fn encoding_of_items(items: Seq<Value>, from: int) -> Seq<u8>
    decreases items, items.len() - from,
{
    if 0 <= from < items.len() {
        encoding(items[from]) + encoding_of_items(items, from + 1)
    } else {
        Seq::empty()
    }
}

/// The frames of the entries from index `from` on: key, value, key, value.
pub open spec fn encoding_of_entries(entries: Seq<(Seq<u8>, Value)>, from: int) -> Seq<u8>
    decreases entries, entries.len() - from,
{
    if 0 <= from < entries.len() {
        framed(entries[from].0, TAG_STR) + encoding(entries[from].1) + encoding_of_entries(
            entries,
            from + 1,
        )
    } else {
        Seq::empty()
    }
}

/// The frames of the first `count` items, one after the other.
pub open spec fn encoding_of_first_items(items: Seq<Value>, count: int) -> Seq<u8>
    decreases count,
{
    if 0 < count <= items.len() {
        encoding_of_first_items(items, count - 1) + encoding(items[count - 1])
    } else {
        Seq::empty()
    }
}

/// The frames of the first `count` entries.
pub open spec fn encoding_of_first_entries(entries: Seq<(Seq<u8>, Value)>, count: int) -> Seq<u8>
    decreases count,
{
    if 0 < count <= entries.len() {
        encoding_of_first_entries(entries, count - 1) + framed(entries[count - 1].0, TAG_STR)
            + encoding(entries[count - 1].1)
    } else {
        Seq::empty()
    }
}

/// The frames of the first items and those of the others make up the frames
/// of all.
pub proof fn lemma_items_split(items: Seq<Value>, count: int)
    requires
        0 <= count <= items.len(),
    ensures
        encoding_of_first_items(items, count) + encoding_of_items(items, count)
            == encoding_of_items(items, 0),
    decreases count,
{
    if count > 0 {
        lemma_items_split(items, count - 1);
        assert(encoding_of_first_items(items, count) + encoding_of_items(items, count)
            =~= encoding_of_first_items(items, count - 1) + encoding_of_items(items, count - 1));
    } else {
        assert(encoding_of_first_items(items, 0) + encoding_of_items(items, 0)
            =~= encoding_of_items(items, 0));
    }
}

/// The frames of the first entries and those of the others make up the
/// frames of all.
pub proof fn lemma_entries_split(entries: Seq<(Seq<u8>, Value)>, count: int)
    requires
        0 <= count <= entries.len(),
    ensures
        encoding_of_first_entries(entries, count) + encoding_of_entries(entries, count)
            == encoding_of_entries(entries, 0),
    decreases count,
{
    if count > 0 {
        lemma_entries_split(entries, count - 1);
        assert(encoding_of_first_entries(entries, count) + encoding_of_entries(entries, count)
            =~= encoding_of_first_entries(entries, count - 1) + encoding_of_entries(
            entries,
            count - 1,
        ));
    } else {
        assert(encoding_of_first_entries(entries, 0) + encoding_of_entries(entries, 0)
            =~= encoding_of_entries(entries, 0));
    }
}

/// Appends a frame with the given payload and type tag to `out`.
pub fn write_frame(out: &mut Vec<u8>, payload: &[u8], tag: u8)
    ensures
        final(out)@ == old(out)@ + framed(payload@, tag),
{
    write_decimal(out, payload.len() as u64);
    out.push(crate::ascii::COLON);
    append(out, payload);
    out.push(tag);
    assert(final(out)@ =~= old(out)@ + framed(payload@, tag));
}

/// Appends the bytes of `tnetstring` to `writer`.
pub fn to_writer(writer: &mut Vec<u8>, tnetstring: &TNetString)
    ensures
        final(writer)@ == old(writer)@ + encoding(tnetstring@),
    decreases tnetstring@,
{
    let mut payload: Vec<u8> = Vec::new();
    let tag: u8;
    match tnetstring {
        TNetString::Str(s) => {
            write_frame(writer, s.as_slice(), TAG_STR);
            return ;
        },
        TNetString::Int(i) => {
            write_int(&mut payload, *i);
            tag = TAG_INT;
        },
        TNetString::Float(f) => {
            write_float(&mut payload, *f);
            tag = TAG_FLOAT;
        },
        TNetString::Bool(b) => {
            if *b {
                payload.push(116u8);
                payload.push(114u8);
                payload.push(117u8);
                payload.push(101u8);
            } else {
                payload.push(102u8);
                payload.push(97u8);
                payload.push(108u8);
                payload.push(115u8);
                payload.push(101u8);
            }
            assert(payload@ =~= bool_text(*b));
            tag = TAG_BOOL;
        },
        TNetString::Null => {
            tag = TAG_NULL;
        },
        TNetString::Dict(d) => {
            let ghost entries = d@;
            let n: usize = d.len();
            let mut i: usize = 0;
            while i < n
                invariant
                    0 <= i <= n,
                    n == entries.len(),
                    entries == d@,
                    tnetstring@ == Value::Dict(entries),
                    payload@ == encoding_of_first_entries(entries, i as int),
                decreases n - i,
            {
                match d.entry(i) {
                    Some((key, value)) => {
                        write_frame(&mut payload, key.as_slice(), TAG_STR);
                        proof {
                            assert(decreases_to!(tnetstring@ => tnetstring@->Dict_0));
                            assert(decreases_to!(entries => entries[i as int]));
                            assert(decreases_to!(entries[i as int] => entries[i as int].1));
                        }
                        to_writer(&mut payload, value);
                    },
                    None => {},
                }
                i = i + 1;
            }
            proof {
                lemma_entries_split(entries, n as int);
                assert(payload@ =~= encoding_of_entries(entries, 0));
            }
            tag = TAG_DICT;
        },
        TNetString::Vec(items) => {
            let ghost values = tnetstring@->List_0;
            let n: usize = items.len();
            let mut i: usize = 0;
            while i < n
                invariant
                    0 <= i <= n,
                    n == items.len(),
                    tnetstring@ == Value::List(values),
                    values.len() == n,
                    forall|j: int| 0 <= j < n ==> values[j] == (#[trigger] items[j])@,
                    payload@ == encoding_of_first_items(values, i as int),
                decreases n - i,
            {
                proof {
                    assert(decreases_to!(tnetstring@ => tnetstring@->List_0));
                    assert(decreases_to!(values => values[i as int]));
                }
                to_writer(&mut payload, &items[i]);
                i = i + 1;
            }
            proof {
                lemma_items_split(values, n as int);
                assert(payload@ =~= encoding_of_items(values, 0));
            }
            tag = TAG_LIST;
        },
    }
    write_frame(writer, payload.as_slice(), tag);
}

/// The bytes of `tnetstring`.
pub fn to_bytes(tnetstring: &TNetString) -> (bytes: Vec<u8>)
    ensures
        bytes@ == encoding(tnetstring@),
{
    let mut bytes: Vec<u8> = Vec::new();
    to_writer(&mut bytes, tnetstring);
    assert(bytes@ =~= encoding(tnetstring@));
    bytes
}

/// Appends the bytes of `tnetstring` to `writer` where its lists and maps
/// nest at most `max_depth` levels deep; else leaves `writer` as it is and
/// says that the value nests too deep.
pub fn to_writer_within(writer: &mut Vec<u8>, tnetstring: &TNetString, max_depth: usize) -> (r:
    Result<(), Error>)
    ensures
        match r {
            Ok(_) => tnetstring@.nests_within(max_depth as nat) && final(writer)@ == old(writer)@
                + encoding(tnetstring@),
            Err(e) => e == Error::NestingTooDeep && !tnetstring@.nests_within(max_depth as nat)
                && final(writer)@ == old(writer)@,
        },
    decreases tnetstring@,
{
    let mut payload: Vec<u8> = Vec::new();
    match tnetstring {
        TNetString::Dict(d) => {
            if max_depth == 0 {
                return Err(Error::NestingTooDeep);
            }
            let ghost entries = d@;
            let n: usize = d.len();
            let mut i: usize = 0;
            while i < n
                invariant
                    0 <= i <= n,
                    n == entries.len(),
                    entries == d@,
                    max_depth > 0,
                    tnetstring@ == Value::Dict(entries),
                    payload@ == encoding_of_first_entries(entries, i as int),
                    forall|j: int|
                        0 <= j < i ==> (#[trigger] entries[j]).1.nests_within((max_depth - 1) as nat),
                decreases n - i,
            {
                match d.entry(i) {
                    Some((key, value)) => {
                        write_frame(&mut payload, key.as_slice(), TAG_STR);
                        proof {
                            assert(decreases_to!(tnetstring@ => tnetstring@->Dict_0));
                            assert(decreases_to!(entries => entries[i as int]));
                            assert(decreases_to!(entries[i as int] => entries[i as int].1));
                        }
                        match to_writer_within(&mut payload, value, max_depth - 1) {
                            Ok(_) => {},
                            Err(e) => {
                                assert(!entries[i as int].1.nests_within((max_depth - 1) as nat));
                                return Err(e);
                            },
                        }
                    },
                    None => {},
                }
                i = i + 1;
            }
            proof {
                lemma_entries_split(entries, n as int);
                assert(payload@ =~= encoding_of_entries(entries, 0));
            }
            write_frame(writer, payload.as_slice(), TAG_DICT);
            Ok(())
        },
        TNetString::Vec(items) => {
            if max_depth == 0 {
                return Err(Error::NestingTooDeep);
            }
            let ghost values = tnetstring@->List_0;
            let n: usize = items.len();
            let mut i: usize = 0;
            while i < n
                invariant
                    0 <= i <= n,
                    n == items.len(),
                    max_depth > 0,
                    tnetstring@ == Value::List(values),
                    values.len() == n,
                    forall|j: int| 0 <= j < n ==> values[j] == (#[trigger] items[j])@,
                    payload@ == encoding_of_first_items(values, i as int),
                    forall|j: int|
                        0 <= j < i ==> (#[trigger] values[j]).nests_within((max_depth - 1) as nat),
                decreases n - i,
            {
                proof {
                    assert(decreases_to!(tnetstring@ => tnetstring@->List_0));
                    assert(decreases_to!(values => values[i as int]));
                }
                match to_writer_within(&mut payload, &items[i], max_depth - 1) {
                    Ok(_) => {},
                    Err(e) => {
                        assert(!values[i as int].nests_within((max_depth - 1) as nat));
                        return Err(e);
                    },
                }
                i = i + 1;
            }
            proof {
                lemma_items_split(values, n as int);
                assert(payload@ =~= encoding_of_items(values, 0));
            }
            write_frame(writer, payload.as_slice(), TAG_LIST);
            Ok(())
        },
        _ => {
            to_writer(writer, tnetstring);
            Ok(())
        },
    }
}

/// The bytes of `tnetstring` where its lists and maps nest at most
/// `max_depth` levels deep.
pub fn to_bytes_within(tnetstring: &TNetString, max_depth: usize) -> (r: Result<Vec<u8>, Error>)
    ensures
        match r {
            Ok(bytes) => tnetstring@.nests_within(max_depth as nat) && bytes@ == encoding(tnetstring@),
            Err(e) => e == Error::NestingTooDeep && !tnetstring@.nests_within(max_depth as nat),
        },
{
    let mut bytes: Vec<u8> = Vec::new();
    match to_writer_within(&mut bytes, tnetstring, max_depth) {
        Ok(_) => {
            assert(bytes@ =~= encoding(tnetstring@));
            Ok(bytes)
        },
        Err(e) => Err(e),
    }
}

/// `String::from_utf8` of std: the text that the bytes are when they are
/// UTF-8, and nothing when they are not.
#[verifier::external_body]
fn utf8_text(bytes: Vec<u8>) -> (r: Option<String>)
    ensures
        r is Some <==> valid_utf8(bytes@),
        r matches Some(text) ==> text@ == decode_utf8(bytes@),
{
    String::from_utf8(bytes).ok()
}

impl TNetString {
    /// The bytes of the value as text, where they are UTF-8.
    pub fn to_str(&self) -> (r: Option<String>)
        ensures
            r is Some <==> valid_utf8(encoding(self@)),
            r matches Some(text) ==> text@ == decode_utf8(encoding(self@)),
    {
        utf8_text(to_bytes(self))
    }
}

} // verus!
