use tnetstring::{
    from_bytes, from_bytes_within, from_payload, from_reader, from_reader_within, from_str,
    to_bytes, to_bytes_within, to_writer, to_writer_within, Dict, Error, Reader, TNetString,
};

fn string(bytes: &[u8]) -> TNetString {
    TNetString::Str(bytes.to_vec())
}

fn decode_one(data: &[u8]) -> (TNetString, Vec<u8>) {
    let (value, rest) = from_bytes(data).unwrap();
    (value.unwrap(), rest.remaining().to_vec())
}

fn error_of(data: &[u8]) -> Error {
    match from_bytes(data) {
        Ok(_) => panic!("decoded"),
        Err(e) => e,
    }
}

#[test]
fn null_decodes() {
    let (value, rest) = decode_one(b"0:~");
    assert_eq!(value, TNetString::Null);
    assert!(rest.is_empty());
}

#[test]
fn integer_decodes() {
    let (value, rest) = decode_one(b"5:12345#");
    assert_eq!(value, TNetString::Int(12345));
    assert!(rest.is_empty());
}

#[test]
fn byte_string_decodes() {
    let (value, rest) = decode_one(b"11:hello world,");
    assert_eq!(value, string(b"hello world"));
    assert!(rest.is_empty());
}

#[test]
fn empty_map_decodes_and_encodes() {
    let (value, rest) = decode_one(b"0:}");
    assert_eq!(value, TNetString::Dict(Dict::new()));
    assert!(rest.is_empty());
    assert_eq!(to_bytes(&TNetString::Dict(Dict::new())), b"0:}".to_vec());
}

#[test]
fn list_decodes_in_order() {
    let (value, rest) = decode_one(b"24:5:12345#5:67890#5:xxxxx,]");
    assert_eq!(
        value,
        TNetString::Vec(vec![
            TNetString::Int(12345),
            TNetString::Int(67890),
            string(b"xxxxx"),
        ])
    );
    assert!(rest.is_empty());
}

#[test]
fn trailing_bytes_are_handed_back() {
    let (value, rest) = decode_one(b"4:true!5:xtra!");
    assert_eq!(value, TNetString::Bool(true));
    assert_eq!(rest, b"5:xtra!".to_vec());
    // What is left announces five bytes of payload, has them, and ends.
    assert_eq!(error_of(&rest), Error::MissingTypeTag);
    let (value, rest) = decode_one(b"4:true!4:xtra!");
    assert_eq!(value, TNetString::Bool(true));
    assert_eq!(error_of(&rest), Error::InvalidBool);
}

#[test]
fn no_bytes_are_no_value() {
    let (value, rest) = from_bytes(b"").unwrap();
    assert!(value.is_none());
    assert!(rest.eof());
    assert!(rest.remaining().is_empty());
    let (value, rest) = from_str("").unwrap();
    assert!(value.is_none());
    assert!(rest.eof());
}

#[test]
fn zero_padded_length_is_refused() {
    assert_eq!(error_of(b"007:abcdefg,"), Error::MissingLengthPrefix);
    assert_eq!(error_of(b"00:,"), Error::MissingLengthPrefix);
    assert_eq!(error_of(b"03:abc,"), Error::MissingLengthPrefix);
    assert_eq!(error_of(b"0x"), Error::MissingLengthPrefix);
    assert_eq!(error_of(b"0"), Error::MissingLengthPrefix);
}

#[test]
fn keys_must_be_byte_strings() {
    assert_eq!(error_of(b"8:1:1#1:2#}"), Error::KeysCanOnlyBeStrings);
    assert_eq!(error_of(b"7:0:]1:2#}"), Error::KeysCanOnlyBeStrings);
    assert_eq!(error_of(b"7:0:~1:2#}"), Error::KeysCanOnlyBeStrings);
    assert_eq!(error_of(b"16:1:a,1:1#1:2#1:3#}"), Error::KeysCanOnlyBeStrings);
    // The frame in key position is decoded before its kind is asked for.
    assert_eq!(error_of(b"8:1:x#1:2#}"), Error::InvalidInteger);
}

#[test]
fn every_cut_of_a_frame_is_refused() {
    let whole = b"5:12345#";
    assert_eq!(error_of(&whole[..1]), Error::MissingLengthPrefix);
    for keep in 2..7 {
        assert_eq!(error_of(&whole[..keep]), Error::TruncatedPayload);
    }
    assert_eq!(error_of(&whole[..7]), Error::MissingTypeTag);

    let list = b"24:5:12345#5:67890#5:xxxxx,]";
    assert_eq!(error_of(&list[..1]), Error::MissingLengthPrefix);
    assert_eq!(error_of(&list[..2]), Error::MissingLengthPrefix);
    for keep in 3..list.len() - 1 {
        assert_eq!(error_of(&list[..keep]), Error::TruncatedPayload);
    }
    assert_eq!(error_of(&list[..list.len() - 1]), Error::MissingTypeTag);
    assert_eq!(error_of(b"0:"), Error::MissingTypeTag);
}

#[test]
fn a_cut_inside_a_list_is_reported_from_inside() {
    assert_eq!(error_of(b"7:5:12345]"), Error::MissingTypeTag);
    assert_eq!(error_of(b"6:5:1234]"), Error::TruncatedPayload);
    assert_eq!(error_of(b"1:5]"), Error::MissingLengthPrefix);
}

fn sample() -> TNetString {
    let mut inner = Dict::new();
    inner.insert(b"k".to_vec(), TNetString::Vec(vec![TNetString::Null, TNetString::Bool(false)]));
    inner.insert(b"".to_vec(), TNetString::Int(-7));
    let mut outer = Dict::new();
    outer.insert(b"inner".to_vec(), TNetString::Dict(inner));
    outer.insert(b"\xff\x00".to_vec(), string(b"\xfe"));
    outer.insert(b"n".to_vec(), TNetString::Int(i64::MIN));
    TNetString::Vec(vec![TNetString::Dict(outer), TNetString::Int(i64::MAX), string(b"")])
}

#[test]
fn encoding_then_decoding_gives_the_value_back() {
    let value = sample();
    let bytes = to_bytes(&value);
    let (decoded, rest) = decode_one(&bytes);
    assert_eq!(decoded, value);
    assert!(rest.is_empty());
    assert_eq!(to_bytes(&decoded), bytes);
}

#[test]
fn what_follows_a_frame_is_left_alone() {
    let mut bytes = to_bytes(&sample());
    bytes.extend_from_slice(b"anything at all");
    let (decoded, rest) = decode_one(&bytes);
    assert_eq!(decoded, sample());
    assert_eq!(rest, b"anything at all".to_vec());
}

#[test]
fn exact_bytes_of_a_nested_value() {
    let mut d = Dict::new();
    d.insert(b"a".to_vec(), TNetString::Int(1));
    d.insert(b"bc".to_vec(), TNetString::Vec(vec![TNetString::Bool(true), TNetString::Null]));
    assert_eq!(
        to_bytes(&TNetString::Dict(d)),
        b"27:1:a,1:1#2:bc,10:4:true!0:~]}".to_vec()
    );
    assert_eq!(to_bytes(&TNetString::Null), b"0:~".to_vec());
    assert_eq!(to_bytes(&TNetString::Bool(false)), b"5:false!".to_vec());
    assert_eq!(to_bytes(&TNetString::Int(-42)), b"3:-42#".to_vec());
    assert_eq!(to_bytes(&string(b"0123456789")), b"10:0123456789,".to_vec());
    assert_eq!(to_bytes(&TNetString::Vec(vec![])), b"0:]".to_vec());
}

#[test]
fn the_length_counts_bytes() {
    let text = "h\u{e9}llo \u{4e16}\u{754c}";
    let value = string(text.as_bytes());
    let bytes = to_bytes(&value);
    assert_eq!(&bytes[..3], b"13:");
    assert_eq!(bytes.len(), 3 + 13 + 1);
    assert_eq!(value.to_str().unwrap(), format!("13:{},", text));
}

#[test]
fn a_length_of_many_digits() {
    let payload = vec![b'x'; 1234];
    let bytes = to_bytes(&TNetString::Str(payload.clone()));
    assert_eq!(&bytes[..5], b"1234:");
    let (decoded, rest) = decode_one(&bytes);
    assert_eq!(decoded, TNetString::Str(payload));
    assert!(rest.is_empty());
}

#[test]
fn a_length_beyond_the_machine_is_a_truncated_payload() {
    assert_eq!(
        error_of(b"99999999999999999999999999999999999999999:abc,"),
        Error::TruncatedPayload
    );
    assert_eq!(
        error_of(b"99999999999999999999999999999999999999999abc,"),
        Error::MissingLengthPrefix
    );
    assert_eq!(error_of(b"18446744073709551616:,"), Error::TruncatedPayload);
}

#[test]
fn missing_length_prefix() {
    assert_eq!(error_of(b"x"), Error::MissingLengthPrefix);
    assert_eq!(error_of(b":abc,"), Error::MissingLengthPrefix);
    assert_eq!(error_of(b"5x12345#"), Error::MissingLengthPrefix);
    assert_eq!(error_of(b"5"), Error::MissingLengthPrefix);
    assert_eq!(error_of(b"-1:a,"), Error::MissingLengthPrefix);
    assert_eq!(error_of(b" 1:a,"), Error::MissingLengthPrefix);
}

#[test]
fn truncated_payload() {
    assert_eq!(error_of(b"5:ab"), Error::TruncatedPayload);
    assert_eq!(error_of(b"1:"), Error::TruncatedPayload);
}

#[test]
fn missing_type_tag() {
    assert_eq!(error_of(b"2:ab"), Error::MissingTypeTag);
    assert_eq!(error_of(b"0:"), Error::MissingTypeTag);
}

#[test]
fn invalid_payload_type() {
    assert_eq!(error_of(b"0:?"), Error::InvalidPayloadType(b'?'));
    assert_eq!(error_of(b"2:ab0"), Error::InvalidPayloadType(b'0'));
    assert_eq!(error_of(b"1:a\x00"), Error::InvalidPayloadType(0));
}

#[test]
fn invalid_integer() {
    assert_eq!(error_of(b"3:abc#"), Error::InvalidInteger);
    assert_eq!(error_of(b"0:#"), Error::InvalidInteger);
    assert_eq!(error_of(b"1:-#"), Error::InvalidInteger);
    assert_eq!(error_of(b"2:+5#"), Error::InvalidInteger);
    assert_eq!(error_of(b"3:1 2#"), Error::InvalidInteger);
    assert_eq!(error_of(b"3:--1#"), Error::InvalidInteger);
    assert_eq!(error_of(b"2:\xff\xfe#"), Error::InvalidInteger);
    assert_eq!(error_of(b"19:9223372036854775808#"), Error::InvalidInteger);
    assert_eq!(error_of(b"20:-9223372036854775809#"), Error::InvalidInteger);
    assert_eq!(error_of(b"20:99999999999999999999#"), Error::InvalidInteger);
}

#[test]
fn integers_at_the_edges() {
    assert_eq!(decode_one(b"19:9223372036854775807#").0, TNetString::Int(i64::MAX));
    assert_eq!(decode_one(b"20:-9223372036854775808#").0, TNetString::Int(i64::MIN));
    assert_eq!(to_bytes(&TNetString::Int(i64::MAX)), b"19:9223372036854775807#".to_vec());
    assert_eq!(to_bytes(&TNetString::Int(i64::MIN)), b"20:-9223372036854775808#".to_vec());
    assert_eq!(to_bytes(&TNetString::Int(0)), b"1:0#".to_vec());
    assert_eq!(decode_one(b"2:-0#").0, TNetString::Int(0));
    assert_eq!(decode_one(b"3:007#").0, TNetString::Int(7));
    assert_eq!(
        decode_one(b"25:0000009223372036854775807#").0,
        TNetString::Int(i64::MAX)
    );
}

#[test]
fn invalid_bool() {
    assert_eq!(error_of(b"4:TRUE!"), Error::InvalidBool);
    assert_eq!(error_of(b"0:!"), Error::InvalidBool);
    assert_eq!(error_of(b"1:1!"), Error::InvalidBool);
    assert_eq!(error_of(b"5:true !"), Error::InvalidBool);
    assert_eq!(error_of(b"4:fals!"), Error::InvalidBool);
}

#[test]
fn invalid_null() {
    assert_eq!(error_of(b"1:x~"), Error::InvalidNull);
    assert_eq!(error_of(b"4:null~"), Error::InvalidNull);
}

#[test]
fn invalid_map() {
    assert_eq!(error_of(b"4:1:a,}"), Error::InvalidMap);
    assert_eq!(error_of(b"12:1:a,1:1#1:b,}"), Error::InvalidMap);
}

#[test]
fn errors_inside_a_map_come_out() {
    assert_eq!(error_of(b"8:1:a,1:x#}"), Error::InvalidInteger);
    assert_eq!(error_of(b"7:1:a,1:x}"), Error::MissingTypeTag);
    assert_eq!(error_of(b"7:1:a,5:x}"), Error::TruncatedPayload);
    assert_eq!(error_of(b"3:abc}"), Error::MissingLengthPrefix);
}

#[test]
fn error_messages() {
    assert_eq!(Error::MissingLengthPrefix.to_string(), "missing length prefix");
    assert_eq!(Error::TruncatedPayload.to_string(), "truncated payload");
    assert_eq!(Error::MissingTypeTag.to_string(), "missing type tag");
    assert_eq!(Error::InvalidPayloadType(b'?').to_string(), "invalid payload type '?'");
    assert_eq!(Error::InvalidPayloadType(0xe9).to_string(), "invalid payload type '\u{e9}'");
    assert_eq!(Error::InvalidInteger.to_string(), "invalid integer");
    assert_eq!(Error::InvalidFloat.to_string(), "invalid float");
    assert_eq!(Error::InvalidBool.to_string(), "invalid bool");
    assert_eq!(Error::InvalidNull.to_string(), "invalid null");
    assert_eq!(Error::InvalidMap.to_string(), "invalid map");
    assert_eq!(Error::KeysCanOnlyBeStrings.to_string(), "keys can only be strings");
    assert_eq!(Error::NestingTooDeep.to_string(), "nesting too deep");
}

#[test]
fn a_repeated_key_takes_the_later_value() {
    let (value, _) = decode_one(b"24:1:a,1:1#1:b,1:2#1:a,1:3#}");
    let mut expected = Dict::new();
    expected.insert(b"a".to_vec(), TNetString::Int(3));
    expected.insert(b"b".to_vec(), TNetString::Int(2));
    assert_eq!(value, TNetString::Dict(expected));
    // The key keeps the place in which it first came.
    assert_eq!(to_bytes(&value), b"16:1:a,1:3#1:b,1:2#}".to_vec());
}

#[test]
fn map_operations() {
    let mut d = Dict::new();
    assert!(d.is_empty());
    assert_eq!(d.len(), 0);
    assert!(d.get(b"a").is_none());
    assert!(d.entry(0).is_none());
    d.insert(b"a".to_vec(), TNetString::Int(1));
    d.insert(b"b".to_vec(), TNetString::Int(2));
    d.insert(b"a".to_vec(), TNetString::Int(3));
    assert!(!d.is_empty());
    assert_eq!(d.len(), 2);
    assert_eq!(d.get(b"a"), Some(&TNetString::Int(3)));
    assert_eq!(d.get(b"b"), Some(&TNetString::Int(2)));
    assert!(d.get(b"c").is_none());
    assert!(d.get(b"").is_none());
    let (key, value) = d.entry(0).unwrap();
    assert_eq!(key, &b"a".to_vec());
    assert_eq!(value, &TNetString::Int(3));
    let (key, value) = d.entry(1).unwrap();
    assert_eq!(key, &b"b".to_vec());
    assert_eq!(value, &TNetString::Int(2));
    assert!(d.entry(2).is_none());
}

#[test]
fn maps_are_equal_in_any_order() {
    let mut x = Dict::new();
    x.insert(b"a".to_vec(), TNetString::Int(1));
    x.insert(b"b".to_vec(), TNetString::Int(2));
    let mut y = Dict::new();
    y.insert(b"b".to_vec(), TNetString::Int(2));
    y.insert(b"a".to_vec(), TNetString::Int(1));
    assert!(x == y);
    assert!(y == x);
    assert!(x == x.clone());
    assert!(TNetString::Dict(x) == TNetString::Dict(y));

    let mut x = Dict::new();
    x.insert(b"a".to_vec(), TNetString::Int(1));
    let mut y = Dict::new();
    y.insert(b"a".to_vec(), TNetString::Int(2));
    assert!(x != y);
    let mut z = Dict::new();
    z.insert(b"b".to_vec(), TNetString::Int(1));
    assert!(x != z);
    let mut more = Dict::new();
    more.insert(b"a".to_vec(), TNetString::Int(1));
    more.insert(b"b".to_vec(), TNetString::Int(1));
    assert!(x != more);
    assert!(more != x);
}

#[test]
fn lists_are_equal_in_order_only() {
    let x = TNetString::Vec(vec![TNetString::Int(1), TNetString::Int(2)]);
    let y = TNetString::Vec(vec![TNetString::Int(2), TNetString::Int(1)]);
    let z = TNetString::Vec(vec![TNetString::Int(1)]);
    assert!(x != y);
    assert!(x != z);
    assert!(x.equals(&TNetString::Vec(vec![TNetString::Int(1), TNetString::Int(2)])));
}

#[test]
fn values_of_two_kinds_are_never_equal() {
    let values = vec![
        string(b""),
        TNetString::Int(0),
        TNetString::Float(tnetstring::Float::from_parts(false, 0, 0).unwrap()),
        TNetString::Bool(false),
        TNetString::Null,
        TNetString::Dict(Dict::new()),
        TNetString::Vec(vec![]),
    ];
    for (i, a) in values.iter().enumerate() {
        for (j, b) in values.iter().enumerate() {
            assert_eq!(a == b, i == j);
        }
    }
    assert!(string(b"a") != string(b"b"));
    assert!(string(b"a") != string(b"ab"));
    assert!(TNetString::Bool(true) != TNetString::Bool(false));
    assert!(TNetString::Int(1) != TNetString::Int(-1));
}

#[test]
fn writing_appends() {
    let mut sink = b"before".to_vec();
    to_writer(&mut sink, &TNetString::Null);
    to_writer(&mut sink, &TNetString::Int(5));
    assert_eq!(sink, b"before0:~1:5#".to_vec());
}

#[test]
fn a_reader_hands_out_values_one_by_one() {
    let data = b"1:1#0:~3:abc,";
    let mut rdr = Reader::new(data);
    assert!(!rdr.eof());
    assert_eq!(from_reader(&mut rdr).unwrap(), Some(TNetString::Int(1)));
    assert_eq!(rdr.remaining(), b"0:~3:abc,");
    assert_eq!(from_reader(&mut rdr).unwrap(), Some(TNetString::Null));
    assert_eq!(from_reader(&mut rdr).unwrap(), Some(string(b"abc")));
    assert!(rdr.eof());
    assert_eq!(from_reader(&mut rdr).unwrap(), None);
    assert!(rdr.eof());
}

#[test]
fn a_refused_frame_leaves_the_reader_where_it_was() {
    let data = b"1:1#3:abc#0:~";
    let mut rdr = Reader::new(data);
    assert_eq!(from_reader(&mut rdr).unwrap(), Some(TNetString::Int(1)));
    assert_eq!(from_reader(&mut rdr), Err(Error::InvalidInteger));
    assert_eq!(rdr.remaining(), b"3:abc#0:~");
}

#[test]
fn a_payload_with_its_tag() {
    assert_eq!(from_payload(b',', b"abc"), Ok(string(b"abc")));
    assert_eq!(from_payload(b'#', b"-12"), Ok(TNetString::Int(-12)));
    assert_eq!(from_payload(b'!', b"true"), Ok(TNetString::Bool(true)));
    assert_eq!(from_payload(b'!', b"false"), Ok(TNetString::Bool(false)));
    assert_eq!(from_payload(b'~', b""), Ok(TNetString::Null));
    assert_eq!(from_payload(b']', b""), Ok(TNetString::Vec(vec![])));
    assert_eq!(from_payload(b'}', b""), Ok(TNetString::Dict(Dict::new())));
    assert_eq!(from_payload(b'$', b""), Err(Error::InvalidPayloadType(b'$')));
}

#[test]
fn text_of_a_value() {
    assert_eq!(TNetString::Int(5).to_str(), Some("1:5#".to_string()));
    assert_eq!(string("\u{e9}".as_bytes()).to_str(), Some("2:\u{e9},".to_string()));
    assert_eq!(string(b"\xff").to_str(), None);
    assert_eq!(string(b"\xc3").to_str(), None);
}

#[test]
fn from_str_reads_the_bytes_of_the_text() {
    let (value, rest) = from_str("2:\u{e9},1:x,").unwrap();
    assert_eq!(value, Some(string("\u{e9}".as_bytes())));
    assert_eq!(rest.remaining(), b"1:x,");
    assert_eq!(from_str("3:\u{e9},").err(), Some(Error::MissingTypeTag));
    assert_eq!(from_str("4:\u{e9},").err(), Some(Error::TruncatedPayload));
}

#[test]
fn deep_nesting() {
    let mut value = TNetString::Null;
    for _ in 0..200 {
        value = TNetString::Vec(vec![value]);
    }
    let bytes = to_bytes(&value);
    let (decoded, rest) = decode_one(&bytes);
    assert!(decoded == value);
    assert!(rest.is_empty());
}

fn nested_lists(depth: usize) -> TNetString {
    let mut value = TNetString::Int(1);
    for _ in 0..depth {
        value = TNetString::Vec(vec![value]);
    }
    value
}

fn nested_maps(depth: usize) -> TNetString {
    let mut value = TNetString::Null;
    for _ in 0..depth {
        let mut d = Dict::new();
        d.insert(b"k".to_vec(), value);
        value = TNetString::Dict(d);
    }
    value
}

#[test]
fn a_limit_refuses_what_nests_deeper() {
    for depth in 0..6 {
        for value in [nested_lists(depth), nested_maps(depth)] {
            let bytes = to_bytes(&value);
            for limit in 0..8 {
                let decoded = from_bytes_within(&bytes, limit);
                let encoded = to_bytes_within(&value, limit);
                if depth <= limit {
                    let (decoded, rest) = decoded.unwrap();
                    assert!(rest.eof());
                    assert_eq!(decoded, Some(nested_value(&value)));
                    assert_eq!(encoded, Ok(bytes.clone()));
                } else {
                    assert_eq!(decoded.err(), Some(Error::NestingTooDeep));
                    assert_eq!(encoded, Err(Error::NestingTooDeep));
                }
            }
        }
    }
}

fn nested_value(value: &TNetString) -> TNetString {
    from_bytes(&to_bytes(value)).unwrap().0.unwrap()
}

#[test]
fn values_that_are_no_list_and_no_map_need_no_depth() {
    for data in [&b"0:~"[..], b"1:5#", b"3:abc,", b"4:true!", b"3:1.5^"] {
        let (value, rest) = from_bytes_within(data, 0).unwrap();
        assert!(rest.eof());
        assert_eq!(to_bytes_within(&value.unwrap(), 0), Ok(data.to_vec()));
    }
    assert_eq!(from_bytes_within(b"0:]", 0).err(), Some(Error::NestingTooDeep));
    assert_eq!(from_bytes_within(b"0:}", 0).err(), Some(Error::NestingTooDeep));
    assert!(from_bytes_within(b"", 0).unwrap().0.is_none());
}

#[test]
fn a_limit_counts_the_deepest_place() {
    // A list of a number, a list of a list, and a map.
    let data = b"24:1:1#7:4:1:2#]]7:1:a,0:~}]";
    assert_eq!(from_bytes_within(data, 2).err(), Some(Error::NestingTooDeep));
    let (value, _) = from_bytes_within(data, 3).unwrap();
    assert_eq!(value, from_bytes(data).unwrap().0);
    assert_eq!(to_bytes_within(value.as_ref().unwrap(), 2), Err(Error::NestingTooDeep));
    assert_eq!(to_bytes_within(value.as_ref().unwrap(), 3), Ok(data.to_vec()));
}

#[test]
fn what_comes_first_is_reported_within_a_limit() {
    // The list that is too deep comes before the integer that is none.
    assert_eq!(from_bytes_within(b"9:0:]3:abc#]", 1).err(), Some(Error::NestingTooDeep));
    assert_eq!(from_bytes_within(b"9:3:abc#0:]]", 1).err(), Some(Error::InvalidInteger));
    assert_eq!(from_bytes_within(b"9:0:]3:abc#]", 2).err(), Some(Error::InvalidInteger));
    // The frame is looked at before its kind.
    assert_eq!(from_bytes_within(b"5:abc]", 0).err(), Some(Error::TruncatedPayload));
    assert_eq!(from_bytes_within(b"3:abc?", 0).err(), Some(Error::InvalidPayloadType(b'?')));
}

#[test]
fn a_limited_writer_writes_all_or_nothing() {
    let mut sink = b"before".to_vec();
    assert_eq!(to_writer_within(&mut sink, &nested_lists(3), 2), Err(Error::NestingTooDeep));
    assert_eq!(sink, b"before".to_vec());
    assert_eq!(to_writer_within(&mut sink, &nested_lists(2), 2), Ok(()));
    assert_eq!(sink, b"before7:4:1:1#]]".to_vec());
}

#[test]
fn a_limited_reader_stays_at_a_frame_that_it_refuses() {
    let data = b"1:1#3:0:]]0:~";
    let mut rdr = Reader::new(data);
    assert_eq!(from_reader_within(&mut rdr, 1), Ok(Some(TNetString::Int(1))));
    assert_eq!(from_reader_within(&mut rdr, 1), Err(Error::NestingTooDeep));
    assert_eq!(rdr.remaining(), b"3:0:]]0:~");
    assert_eq!(from_reader_within(&mut rdr, 2), Ok(Some(nested_value(&TNetString::Vec(vec![
        TNetString::Vec(vec![])
    ])))));
    assert_eq!(from_reader_within(&mut rdr, 0), Ok(Some(TNetString::Null)));
    assert_eq!(from_reader_within(&mut rdr, 0), Ok(None));
}

#[test]
fn a_copy_is_the_same_value() {
    let value = sample();
    let copy = value.clone();
    assert_eq!(copy, value);
    assert_eq!(to_bytes(&copy), to_bytes(&value));
    let deep = nested_maps(5);
    assert_eq!(deep.clone(), deep);
}

#[test]
fn equal_values_may_differ_in_their_bytes() {
    let (x, _) = decode_one(b"16:1:a,1:1#1:b,1:2#}");
    let (y, _) = decode_one(b"16:1:b,1:2#1:a,1:1#}");
    assert_eq!(x, y);
    assert_eq!(y, x);
    assert!(to_bytes(&x) != to_bytes(&y));
    let (z, _) = decode_one(b"17:1:b,2:02#1:a,1:1#}");
    assert_eq!(y, z);
    assert_eq!(x, z);
}
