use tnetstring::{from_bytes, from_str, parse_float, to_bytes, Dict, Float, TNetString};

fn float(negative: bool, digits: u32, exponent: i16) -> TNetString {
    TNetString::Float(Float::from_parts(negative, digits, exponent).unwrap())
}

fn string(bytes: &[u8]) -> TNetString {
    TNetString::Str(bytes.to_vec())
}

fn nested(depth: usize, innermost: TNetString) -> TNetString {
    let mut value = innermost;
    for _ in 0..depth {
        value = TNetString::Vec(vec![value]);
    }
    value
}

fn test(s: &str, expected: &TNetString) {
    let (actual, rest) = from_str(s).unwrap();
    assert!(actual.is_some());
    assert!(rest.eof());

    let actual = actual.unwrap();
    assert_eq!(actual, *expected);
    assert_eq!(expected.to_str().unwrap(), s.to_string());
}

fn hello_map() -> TNetString {
    let mut d = Dict::new();
    d.insert(
        b"hello".to_vec(),
        TNetString::Vec(vec![
            TNetString::Int(12345678901),
            string(b"this"),
            TNetString::Bool(true),
            TNetString::Null,
            string(b"\x00\x00\x00\x00"),
        ]),
    );
    TNetString::Dict(d)
}

#[test]
fn lib_test_format() {
    test("11:hello world,", &string(b"hello world"));
    test("0:}", &TNetString::Dict(Dict::new()));
    test("0:]", &TNetString::Vec(vec![]));

    test(
        "51:5:hello,39:11:12345678901#4:this,4:true!0:~4:\x00\x00\x00\
         \x00,]}",
        &hello_map(),
    );

    test("5:12345#", &TNetString::Int(12345));
    test("12:this is cool,", &string(b"this is cool"));
    test("0:,", &string(b""));
    test("0:~", &TNetString::Null);
    test("4:true!", &TNetString::Bool(true));
    test("5:false!", &TNetString::Bool(false));
    test(
        "10:\x00\x00\x00\x00\x00\x00\x00\x00\x00\x00,",
        &string(b"\x00\x00\x00\x00\x00\x00\x00\x00\x00\x00"),
    );
    test(
        "24:5:12345#5:67890#5:xxxxx,]",
        &TNetString::Vec(vec![
            TNetString::Int(12345),
            TNetString::Int(67890),
            string(b"xxxxx"),
        ]),
    );
    test(
        "18:3:0.1^3:0.2^3:0.4^]",
        &TNetString::Vec(vec![
            float(false, 100000, -1),
            float(false, 200000, -1),
            float(false, 400000, -1),
        ]),
    );
    test(
        "243:238:233:228:223:218:213:208:203:198:193:188:183:178:173:\
         168:163:158:153:148:143:138:133:128:123:118:113:108:103:99:95:\
         91:87:83:79:75:71:67:63:59:55:51:47:43:39:35:31:27:23:19:15:\
         11:hello-there,]]]]]]]]]]]]]]]]]]]]]]]]]]]]]]]]]]]]]]]]]]]]]]]\
         ]]]]",
        &nested(51, string(b"hello-there")),
    );
}

#[test]
fn test_test_format() {
    test("11:hello world,", &string(b"hello world"));
    test("0:}", &TNetString::Dict(Dict::new()));
    test("0:]", &TNetString::Vec(vec![]));

    test(
        "51:5:hello,39:11:12345678901#4:this,4:true!0:~4:\x00\x00\x00\
         \x00,]}",
        &hello_map(),
    );

    test("5:12345#", &TNetString::Int(12345));
    test("12:this is cool,", &string(b"this is cool"));
    test("0:,", &string(b""));
    test("0:~", &TNetString::Null);
    test("4:true!", &TNetString::Bool(true));
    test("5:false!", &TNetString::Bool(false));
    test(
        "10:\x00\x00\x00\x00\x00\x00\x00\x00\x00\x00,",
        &string(b"\x00\x00\x00\x00\x00\x00\x00\x00\x00\x00"),
    );
    test(
        "24:5:12345#5:67890#5:xxxxx,]",
        &TNetString::Vec(vec![
            TNetString::Int(12345),
            TNetString::Int(67890),
            string(b"xxxxx"),
        ]),
    );
    test(
        "18:3:0.1^3:0.2^3:0.4^]",
        &TNetString::Vec(vec![
            float(false, 100000, -1),
            float(false, 200000, -1),
            float(false, 400000, -1),
        ]),
    );
    test(
        "243:238:233:228:223:218:213:208:203:198:193:188:183:178:173:\
         168:163:158:153:148:143:138:133:128:123:118:113:108:103:99:95:\
         91:87:83:79:75:71:67:63:59:55:51:47:43:39:35:31:27:23:19:15:\
         11:hello-there,]]]]]]]]]]]]]]]]]]]]]]]]]]]]]]]]]]]]]]]]]]]]]]]\
         ]]]]",
        &nested(51, string(b"hello-there")),
    );
}

#[test]
fn tnetstring_test_format() {
    test("11:hello world,", &string(b"hello world"));
    test("0:}", &TNetString::Dict(Dict::new()));
    test("0:]", &TNetString::Vec(vec![]));

    test(
        "51:5:hello,39:11:12345678901#4:this,4:true!0:~4:\x00\x00\x00\
         \x00,]}",
        &hello_map(),
    );

    test("5:12345#", &TNetString::Int(12345));
    test("12:this is cool,", &string(b"this is cool"));
    test("0:,", &string(b""));
    test("0:~", &TNetString::Null);
    test("4:true!", &TNetString::Bool(true));
    test("5:false!", &TNetString::Bool(false));
    test(
        "10:\x00\x00\x00\x00\x00\x00\x00\x00\x00\x00,",
        &string(b"\x00\x00\x00\x00\x00\x00\x00\x00\x00\x00"),
    );
    test(
        "24:5:12345#5:67890#5:xxxxx,]",
        &TNetString::Vec(vec![
            TNetString::Int(12345),
            TNetString::Int(67890),
            string(b"xxxxx"),
        ]),
    );
    test(
        "18:3:0.1^3:0.2^3:0.4^]",
        &TNetString::Vec(vec![
            float(false, 100000, -1),
            float(false, 200000, -1),
            float(false, 400000, -1),
        ]),
    );
    test(
        "243:238:233:228:223:218:213:208:203:198:193:188:183:178:173:\
         168:163:158:153:148:143:138:133:128:123:118:113:108:103:99:95:\
         91:87:83:79:75:71:67:63:59:55:51:47:43:39:35:31:27:23:19:15:\
         11:hello-there,]]]]]]]]]]]]]]]]]]]]]]]]]]]]]]]]]]]]]]]]]]]]]]]\
         ]]]]",
        &nested(51, string(b"hello-there")),
    );
}

/// A small generator of numbers that look random and are the same in every run.
struct Rng {
    state: u64,
}

impl Rng {
    fn new(seed: u64) -> Rng {
        Rng { state: seed }
    }

    fn next(&mut self) -> u64 {
        self.state ^= self.state << 13;
        self.state ^= self.state >> 7;
        self.state ^= self.state << 17;
        self.state
    }

    fn randint(&mut self, a: u32, b: u32) -> u32 {
        (self.next() % ((b - a + 1) as u64)) as u32 + a
    }

    fn bytes(&mut self, n: usize) -> Vec<u8> {
        (0..n).map(|_| self.next() as u8).collect()
    }

    fn unit(&mut self) -> f64 {
        (self.next() >> 11) as f64 / (1u64 << 53) as f64
    }
}

fn to_f64(f: &Float) -> f64 {
    let bytes = to_bytes(&TNetString::Float(*f));
    let text = String::from_utf8(bytes).unwrap();
    let payload = &text[text.find(':').unwrap() + 1..text.len() - 1];
    payload.parse::<f64>().unwrap()
}

fn get_random_object(rng: &mut Rng, depth: u32) -> TNetString {
    if rng.randint(depth, 10) <= 4 {
        if rng.randint(0, 1) == 0 {
            let n = rng.randint(0, 10);
            TNetString::Vec((0..n).map(|_| get_random_object(rng, depth + 1)).collect())
        } else {
            let mut d = Dict::new();

            let mut i = rng.randint(0, 10);
            while i != 0 {
                let n = rng.randint(0, 100) as usize;
                let s = rng.bytes(n);
                d.insert(s, get_random_object(rng, depth + 1));
                i -= 1;
            }
            TNetString::Dict(d)
        }
    } else {
        match rng.randint(0, 5) {
            0 => TNetString::Null,
            1 => TNetString::Bool(true),
            2 => TNetString::Bool(false),
            3 => {
                if rng.randint(0, 1) == 0 {
                    TNetString::Int(rng.next() as u32 as i64)
                } else {
                    TNetString::Int(-(rng.next() as u32 as i64))
                }
            }
            4 => {
                let mut f = rng.unit();

                // Find a number that its own text gives back exactly.
                let held = loop {
                    match parse_float(format!("{:.5e}", f).as_bytes()) {
                        Some(f1) => {
                            let back = to_f64(&f1);
                            if f == back {
                                break f1;
                            }
                            f = back;
                        }
                        None => panic!("invalid float"),
                    }
                };

                if rng.randint(0, 1) == 0 {
                    TNetString::Float(held)
                } else {
                    TNetString::Float(
                        Float::from_parts(!held.negative(), held.digits(), held.exponent())
                            .unwrap(),
                    )
                }
            }
            5 => {
                let n = rng.randint(0, 100) as usize;
                TNetString::Str(rng.bytes(n))
            }
            _ => panic!(),
        }
    }
}

fn random_round_trips(seed: u64) {
    let mut rng = Rng::new(seed);

    let mut i = 500;
    while i != 0 {
        let v0 = get_random_object(&mut rng, 0);
        let bytes = to_bytes(&v0);

        match from_bytes(&bytes).unwrap() {
            (Some(ref v1), rest) if rest.eof() => {
                assert!(v0 == *v1)
            }
            _ => panic!("invalid TNetString"),
        }
        i -= 1;
    }
}

#[test]
fn lib_test_random() {
    random_round_trips(0x2545F4914F6CDD1D);
}

#[test]
fn test_test_random() {
    random_round_trips(0x9E3779B97F4A7C15);
}

#[test]
fn tnetstring_test_random() {
    random_round_trips(0xD1B54A32D192ED03);
}
