use tnetstring::{from_bytes, parse_float, to_bytes, Error, Float, TNetString};

fn text_of(negative: bool, digits: u32, exponent: i16) -> String {
    let f = Float::from_parts(negative, digits, exponent).unwrap();
    let bytes = to_bytes(&TNetString::Float(f));
    let text = String::from_utf8(bytes).unwrap();
    let colon = text.find(':').unwrap();
    assert_eq!(text[..colon].parse::<usize>().unwrap(), text.len() - colon - 2);
    assert!(text.ends_with('^'));
    text[colon + 1..text.len() - 1].to_string()
}

fn parts_of(text: &str) -> Option<(bool, u32, i16)> {
    parse_float(text.as_bytes()).map(|f| (f.negative(), f.digits(), f.exponent()))
}

#[test]
fn numbers_are_written_out_between_a_ten_thousandth_and_a_million() {
    assert_eq!(text_of(false, 100000, -1), "0.1");
    assert_eq!(text_of(false, 123456, 0), "1.23456");
    assert_eq!(text_of(false, 100000, 0), "1");
    assert_eq!(text_of(false, 100000, 5), "100000");
    assert_eq!(text_of(false, 123456, 5), "123456");
    assert_eq!(text_of(false, 999999, 5), "999999");
    assert_eq!(text_of(false, 123400, 2), "123.4");
    assert_eq!(text_of(false, 120000, 3), "1200");
    assert_eq!(text_of(false, 100001, 3), "1000.01");
    assert_eq!(text_of(false, 100000, -4), "0.0001");
    assert_eq!(text_of(false, 123456, -4), "0.000123456");
    assert_eq!(text_of(false, 250000, -2), "0.025");
    assert_eq!(text_of(true, 250000, 0), "-2.5");
}

#[test]
fn other_numbers_are_written_with_an_exponent() {
    assert_eq!(text_of(false, 100000, 6), "1e+06");
    assert_eq!(text_of(false, 123456, 6), "1.23456e+06");
    assert_eq!(text_of(false, 100000, -5), "1e-05");
    assert_eq!(text_of(false, 150000, -5), "1.5e-05");
    assert_eq!(text_of(false, 100000, 10), "1e+10");
    assert_eq!(text_of(false, 100000, 100), "1e+100");
    assert_eq!(text_of(false, 999999, 308), "9.99999e+308");
    assert_eq!(text_of(false, 100000, -324), "1e-324");
    assert_eq!(text_of(true, 120000, -99), "-1.2e-99");
}

#[test]
fn zero_is_written_with_its_sign() {
    assert_eq!(text_of(false, 0, 0), "0");
    assert_eq!(text_of(true, 0, 0), "-0");
}

#[test]
fn parts_out_of_form_are_no_number() {
    assert!(Float::from_parts(false, 0, 1).is_none());
    assert!(Float::from_parts(false, 99999, 0).is_none());
    assert!(Float::from_parts(false, 1000000, 0).is_none());
    assert!(Float::from_parts(false, 1, 0).is_none());
    assert!(Float::from_parts(false, 100000, 309).is_none());
    assert!(Float::from_parts(false, 100000, -325).is_none());
    assert!(Float::from_parts(true, 100000, 308).is_some());
    assert!(Float::from_parts(true, 999999, -324).is_some());
}

#[test]
fn literals_are_read() {
    assert_eq!(parts_of("0.1"), Some((false, 100000, -1)));
    assert_eq!(parts_of("1"), Some((false, 100000, 0)));
    assert_eq!(parts_of("1.0"), Some((false, 100000, 0)));
    assert_eq!(parts_of("1."), Some((false, 100000, 0)));
    assert_eq!(parts_of(".5"), Some((false, 500000, -1)));
    assert_eq!(parts_of("+1.5"), Some((false, 150000, 0)));
    assert_eq!(parts_of("-1.5"), Some((true, 150000, 0)));
    assert_eq!(parts_of("1e5"), Some((false, 100000, 5)));
    assert_eq!(parts_of("1E5"), Some((false, 100000, 5)));
    assert_eq!(parts_of("1e+05"), Some((false, 100000, 5)));
    assert_eq!(parts_of("1e-05"), Some((false, 100000, -5)));
    assert_eq!(parts_of("12.5e3"), Some((false, 125000, 4)));
    assert_eq!(parts_of("0.00125e-3"), Some((false, 125000, -6)));
    assert_eq!(parts_of("000123.4500"), Some((false, 123450, 2)));
    assert_eq!(parts_of("123456"), Some((false, 123456, 5)));
    assert_eq!(parts_of("1234560000"), Some((false, 123456, 9)));
    assert_eq!(parts_of("1e308"), Some((false, 100000, 308)));
    assert_eq!(parts_of("1e-324"), Some((false, 100000, -324)));
    assert_eq!(parts_of("100e306"), Some((false, 100000, 308)));
    assert_eq!(parts_of("0.001e311"), Some((false, 100000, 308)));
}

#[test]
fn zero_literals_are_zero_whatever_their_exponent() {
    assert_eq!(parts_of("0"), Some((false, 0, 0)));
    assert_eq!(parts_of("-0"), Some((true, 0, 0)));
    assert_eq!(parts_of("0.0"), Some((false, 0, 0)));
    assert_eq!(parts_of(".0"), Some((false, 0, 0)));
    assert_eq!(parts_of("000.000e5"), Some((false, 0, 0)));
    assert_eq!(parts_of("0e999"), Some((false, 0, 0)));
    assert_eq!(parts_of("-0e-99999999999999999999999999999999999999"), Some((true, 0, 0)));
}

#[test]
fn longer_literals_are_rounded_to_six_digits() {
    assert_eq!(parts_of("3.14159265358979"), Some((false, 314159, 0)));
    assert_eq!(parts_of("2.7182818"), Some((false, 271828, 0)));
    assert_eq!(parts_of("0.000012345678"), Some((false, 123457, -5)));
    assert_eq!(parts_of("1.2345649"), Some((false, 123456, 0)));
    assert_eq!(parts_of("1.2345651"), Some((false, 123457, 0)));
    assert_eq!(parts_of("1234567"), Some((false, 123457, 6)));
    assert_eq!(parts_of("1234564"), Some((false, 123456, 6)));
}

#[test]
fn a_tie_goes_to_the_even_digit() {
    assert_eq!(parts_of("1.000005"), Some((false, 100000, 0)));
    assert_eq!(parts_of("1.000015"), Some((false, 100002, 0)));
    assert_eq!(parts_of("1.0000050"), Some((false, 100000, 0)));
    assert_eq!(parts_of("1.00000500000001"), Some((false, 100001, 0)));
    assert_eq!(parts_of("1.000025"), Some((false, 100002, 0)));
    assert_eq!(parts_of("1.000035"), Some((false, 100004, 0)));
}

#[test]
fn rounding_can_carry_into_the_exponent() {
    assert_eq!(parts_of("9.999995"), Some((false, 100000, 1)));
    assert_eq!(parts_of("9.9999951"), Some((false, 100000, 1)));
    assert_eq!(parts_of("9.9999949"), Some((false, 999999, 0)));
    assert_eq!(parts_of("999999.5"), Some((false, 100000, 6)));
    assert_eq!(parts_of("0.9999996"), Some((false, 100000, 0)));
}

#[test]
fn what_is_no_literal_is_no_number() {
    for text in [
        "", "-", "+", ".", "-.", "e5", ".e5", "1e", "1e+", "1e-", "1ee5", "1e5.0", "1.2.3", "1..2",
        "--1", "+-1", "1-", "1 ", " 1", "1,5", "0x10", "inf", "-inf", "nan", "NaN", "infinity",
        "1e5e5", "1f", "\u{e9}",
    ] {
        assert_eq!(parts_of(text), None, "{:?}", text);
    }
}

#[test]
fn numbers_out_of_range_are_refused() {
    assert_eq!(parts_of("1e309"), None);
    assert_eq!(parts_of("1e-325"), None);
    assert_eq!(parts_of("10e308"), None);
    assert_eq!(parts_of("0.1e-324"), None);
    assert_eq!(parts_of("9.999996e308"), None);
    assert_eq!(parts_of("1e99999999999999999999999999999999999999"), None);
    assert_eq!(parts_of("1e-99999999999999999999999999999999999999"), None);
    assert_eq!(parts_of("9.999994e308"), Some((false, 999999, 308)));
}

#[test]
fn the_text_of_a_number_is_read_back_as_that_number() {
    for &negative in &[false, true] {
        for &digits in &[100000u32, 100001, 123456, 120000, 500000, 999990, 999999] {
            for exponent in -324i16..=308 {
                let f = Float::from_parts(negative, digits, exponent).unwrap();
                let text = text_of(negative, digits, exponent);
                let back = parse_float(text.as_bytes()).unwrap();
                assert!(back == f, "{}", text);
                assert_eq!(
                    (back.negative(), back.digits(), back.exponent()),
                    (negative, digits, exponent)
                );
            }
        }
        let zero = Float::from_parts(negative, 0, 0).unwrap();
        let back = parse_float(text_of(negative, 0, 0).as_bytes()).unwrap();
        assert_eq!(back.negative(), negative);
        assert!(back == zero);
    }
}

#[test]
fn zero_equals_zero_whatever_its_sign() {
    let plus = Float::from_parts(false, 0, 0).unwrap();
    let minus = Float::from_parts(true, 0, 0).unwrap();
    assert!(plus == minus);
    assert!(plus.equals(&minus));
    assert!(TNetString::Float(plus) == TNetString::Float(minus));
    let one = Float::from_parts(false, 100000, 0).unwrap();
    let minus_one = Float::from_parts(true, 100000, 0).unwrap();
    let ten = Float::from_parts(false, 100000, 1).unwrap();
    assert!(one != minus_one);
    assert!(one != ten);
    assert!(one != plus);
    assert!(one == Float::from_parts(false, 100000, 0).unwrap());
}

#[test]
fn numbers_in_frames() {
    let (value, rest) = from_bytes(b"18:3:0.1^3:0.2^3:0.4^]").unwrap();
    assert!(rest.eof());
    assert_eq!(
        value,
        Some(TNetString::Vec(vec![
            TNetString::Float(Float::from_parts(false, 100000, -1).unwrap()),
            TNetString::Float(Float::from_parts(false, 200000, -1).unwrap()),
            TNetString::Float(Float::from_parts(false, 400000, -1).unwrap()),
        ]))
    );
    let (value, _) = from_bytes(b"16:3.14159265358979^").unwrap();
    assert_eq!(to_bytes(&value.unwrap()), b"7:3.14159^".to_vec());
}

#[test]
fn invalid_float() {
    for data in [&b"3:abc^"[..], b"0:^", b"1:.^", b"5:1e999^", b"3:inf^", b"3:nan^", b"2:\xff\xfe^"] {
        assert_eq!(from_bytes(data).err(), Some(Error::InvalidFloat));
    }
}
