use msgpackin::decode::{Decoder, LenType, Token};
use msgpackin::encode::Encoder;
use msgpackin::error::{Config, Error};
use msgpackin::num::Num;
use msgpackin::owned::{OwnedDecoder, OwnedToken};
use msgpackin::value::{Utf8Str, Utf8StrRef, Value, ValueRef};

fn s(x: &str) -> Value {
    Value::Str(Utf8Str(x.as_bytes().to_vec()))
}

fn all_tokens(d: &[u8]) -> Vec<Token<'_>> {
    let mut dec = Decoder::new();
    let mut iter = dec.parse(d);
    let mut out = Vec::new();
    while let Some(t) = iter.next() {
        out.push(t);
    }
    out
}

fn enc_num(n: Num) -> Vec<u8> {
    Encoder::new().enc_num(n).to_vec()
}

#[test]
fn scenario_array_of_two_strings() {
    let v = Value::Arr(vec![s("hello "), s("world!")]);
    let bytes = v.to_bytes().unwrap();
    assert_eq!(
        bytes,
        vec![
            0x92, 0xa6, 0x68, 0x65, 0x6c, 0x6c, 0x6f, 0x20, 0xa6, 0x77, 0x6f, 0x72, 0x6c, 0x64,
            0x21
        ]
    );
    assert_eq!(
        all_tokens(&bytes),
        vec![
            Token::Len(LenType::Arr, 2),
            Token::Len(LenType::Str, 6),
            Token::Bin(b"hello "),
            Token::Len(LenType::Str, 6),
            Token::Bin(b"world!"),
        ]
    );
}

#[test]
fn scenario_map_mixed_scalars() {
    let v = Value::Mapping(vec![
        (s("nil"), Value::Nil),
        (s("int"), Value::Num(Num::from(-42_i64))),
        (s("big"), Value::Num(Num::from(u64::MAX))),
        (s("pi"), Value::Num(Num::from_f64_bits(3.141592653589793_f64.to_bits()))),
    ]);
    let bytes = v.to_bytes().unwrap();
    let mut expect = vec![0x84, 0xa3, 0x6e, 0x69, 0x6c, 0xc0];
    expect.extend_from_slice(&[0xa3, 0x69, 0x6e, 0x74, 0xd0, 0xd6]);
    expect.extend_from_slice(&[0xa3, 0x62, 0x69, 0x67, 0xcf, 0xff, 0xff, 0xff, 0xff, 0xff, 0xff, 0xff, 0xff]);
    expect.extend_from_slice(&[0xa2, 0x70, 0x69, 0xcb, 0x40, 0x09, 0x21, 0xfb, 0x54, 0x44, 0x2d, 0x18]);
    assert_eq!(bytes, expect);
    let back = ValueRef::from_ref(&bytes).unwrap().to_owned();
    assert_eq!(back, v);
}

#[test]
fn scenario_ext_round_trip() {
    let v = Value::Ext(-42, b"hello".to_vec());
    let bytes = v.to_bytes().unwrap();
    assert_eq!(bytes, vec![0xc7, 0x05, 0xd6, 0x68, 0x65, 0x6c, 0x6c, 0x6f]);
    assert_eq!(
        all_tokens(&bytes),
        vec![Token::Len(LenType::Ext(-42), 5), Token::Bin(b"hello")]
    );
    assert_eq!(ValueRef::from_ref(&bytes).unwrap(), ValueRef::Ext(-42, b"hello"));
}

#[test]
fn scenario_zero_length_bin() {
    let bytes = [0xc4, 0x00];
    assert_eq!(all_tokens(&bytes), vec![Token::Len(LenType::Bin, 0), Token::Bin(&[])]);
    let v = ValueRef::from_ref(&bytes).unwrap();
    assert_eq!(v, ValueRef::Bin(&[]));
    assert_eq!(v.to_bytes().unwrap(), vec![0xc4, 0x00]);
}

#[test]
fn scenario_chunked_feed() {
    let bytes = [0x92, 0xa1, 0x61, 0xa1, 0x62];
    let mut dec = Decoder::new();
    let mut got = Vec::new();
    for c in 0..bytes.len() {
        let mut iter = dec.parse(&bytes[c..=c]);
        while let Some(t) = iter.next() {
            got.push(t);
        }
    }
    assert_eq!(got, all_tokens(&bytes));
    assert_eq!(
        got,
        vec![
            Token::Len(LenType::Arr, 2),
            Token::Len(LenType::Str, 1),
            Token::Bin(b"a"),
            Token::Len(LenType::Str, 1),
            Token::Bin(b"b"),
        ]
    );
}

#[test]
fn scenario_integer_normalization() {
    assert_eq!(enc_num(Num::from_f64_bits(3.0_f64.to_bits())), vec![0x03]);
    assert_eq!(enc_num(Num::F64(3.0_f64.to_bits())), vec![0x03]);
    assert_eq!(enc_num(Num::F64(0.5_f64.to_bits())), vec![0xca, 0x3f, 0x00, 0x00, 0x00]);
    assert_eq!(enc_num(Num::F32(7.0_f32.to_bits())), vec![0x07]);
    assert_eq!(enc_num(Num::F64((-300.0_f64).to_bits())), vec![0xd1, 0xfe, 0xd4]);
    assert_eq!(enc_num(Num::F64(f64::INFINITY.to_bits())), vec![0xca, 0x7f, 0x80, 0x00, 0x00]);
    assert_eq!(
        enc_num(Num::F64(0.1_f64.to_bits())),
        [vec![0xcb], 0.1_f64.to_be_bytes().to_vec()].concat()
    );
    assert_eq!(
        enc_num(Num::from(u64::MAX)),
        vec![0xcf, 0xff, 0xff, 0xff, 0xff, 0xff, 0xff, 0xff, 0xff]
    );
    assert_eq!(enc_num(Num::from(-1_i8)), vec![0xff]);
}

#[test]
fn chunk_invariance_across_splits() {
    let v = Value::Mapping(vec![
        (s("a long enough key"), Value::Bin((0..40).collect())),
        (s("n"), Value::Num(Num::from(-300_i32))),
        (s("x"), Value::Ext(7, vec![1, 2, 3])),
    ]);
    let bytes = v.to_bytes().unwrap();
    for chunk in 1..bytes.len() {
        let mut dec = OwnedDecoder::new();
        let mut toks: Vec<OwnedToken> = Vec::new();
        for part in bytes.chunks(chunk) {
            dec.feed(part, &mut toks);
        }
        assert_eq!(Value::from_owned_tokens(&toks, &Config::default()).unwrap(), v);
    }
}

#[test]
fn payload_lengths_are_conserved() {
    let bytes = [0xc4, 0x05, 1, 2, 3, 4, 5];
    let mut dec = Decoder::new();
    let mut pieces = Vec::new();
    for part in [&bytes[0..3], &bytes[3..5], &bytes[5..7]] {
        let mut iter = dec.parse(part);
        while let Some(t) = iter.next() {
            pieces.push(t);
        }
    }
    assert_eq!(
        pieces,
        vec![
            Token::Len(LenType::Bin, 5),
            Token::BinCont(&[1], 4),
            Token::BinCont(&[2, 3], 2),
            Token::Bin(&[4, 5]),
        ]
    );
}

#[test]
fn shortest_integer_forms() {
    assert_eq!(enc_num(Num::from(127_u8)).len(), 1);
    assert_eq!(enc_num(Num::from(128_u8)), vec![0xcc, 0x80]);
    assert_eq!(enc_num(Num::from(-32_i8)), vec![0xe0]);
    assert_eq!(enc_num(Num::from(-33_i8)), vec![0xd0, 0xdf]);
    assert_eq!(enc_num(Num::from(256_u16)), vec![0xcd, 0x01, 0x00]);
    assert_eq!(enc_num(Num::Signed(200)), vec![0xcc, 0xc8]);
    assert_eq!(Encoder::new().enc_ext_len(4, 1).to_vec(), vec![0xd6, 0x01]);
    assert_eq!(Encoder::new().enc_ext_len(3, 1).to_vec(), vec![0xc7, 0x03, 0x01]);
    assert_eq!(Encoder::new().enc_str_len(31).len(), 1);
    assert_eq!(Encoder::new().enc_str_len(32).len(), 2);
}

#[test]
fn reserved_marker_reads_as_nil() {
    assert_eq!(all_tokens(&[0xc1]), vec![Token::Nil]);
    assert_eq!(
        all_tokens(&[0x92, 0xc1, 0xc1]),
        vec![Token::Len(LenType::Arr, 2), Token::Nil, Token::Nil]
    );
    assert_eq!(Encoder::new().enc_nil().to_vec(), vec![0xc0]);
    assert_eq!(Value::Nil.to_bytes().unwrap(), vec![0xc0]);
}

#[test]
fn depth_bound_refuses_deeper_trees() {
    let bytes = [0x91, 0x91, 0x91, 0xc0];
    let ok = ValueRef::from_ref_config(&bytes, &Config { max_depth: 3 });
    assert!(ok.is_ok());
    let deep = ValueRef::from_ref_config(&bytes, &Config { max_depth: 2 });
    assert!(matches!(deep, Err(Error::EDecode { .. })));
    let mut dec = OwnedDecoder::new();
    let mut toks = Vec::new();
    dec.feed(&bytes, &mut toks);
    assert!(matches!(
        Value::from_owned_tokens(&toks, &Config { max_depth: 2 }),
        Err(Error::EDecode { .. })
    ));
}

#[test]
fn truncated_input_is_a_decode_error() {
    assert_eq!(
        ValueRef::from_ref(&[0x92, 0xc0]),
        Err(Error::EDecode { expected: "Marker".to_owned(), got: "UnexpectedEOF".to_owned() })
    );
    assert_eq!(
        ValueRef::from_ref(&[0xa3, 0x61]),
        Err(Error::EDecode {
            expected: "Some(Bin(3 bytes))".to_owned(),
            got: "Len(Str, 3 bytes)".to_owned()
        })
    );
    assert_eq!(
        ValueRef::from_ref(&[0xc7, 0x05, 0xd6, 0x68]),
        Err(Error::EDecode {
            expected: "Some(Bin(5 bytes))".to_owned(),
            got: "Len(Ext(-42), 5 bytes)".to_owned()
        })
    );
    assert_eq!(
        ValueRef::from_ref(&[0xc4, 0x02, 0x01]),
        Err(Error::EDecode {
            expected: "Some(Bin(2 bytes))".to_owned(),
            got: "Len(Bin, 2 bytes)".to_owned()
        })
    );
    assert_eq!(
        ValueRef::from_ref_config(&[0x91, 0xc0], &Config { max_depth: 0 }),
        Err(Error::EDecode { expected: "depth within max_depth".to_owned(), got: "Arr".to_owned() })
    );
    assert_eq!(
        ValueRef::from_ref(&[]),
        Err(Error::EDecode { expected: "Marker".to_owned(), got: "UnexpectedEOF".to_owned() })
    );
}

#[test]
fn partial_header_waits_for_more_input() {
    let mut dec = Decoder::new();
    assert_eq!(dec.next_bytes_min(), 1);
    {
        let mut iter = dec.parse(&[0xcd, 0x01]);
        assert_eq!(iter.next(), None);
    }
    assert_eq!(dec.next_bytes_min(), 1);
    let mut iter = dec.parse(&[0x02]);
    assert_eq!(iter.next(), Some(Token::Num(Num::from(0x0102_u16))));
    assert_eq!(iter.next(), None);
}

#[test]
fn fits_and_to_round_trip() {
    let big = Num::from(300_u16);
    assert!(!big.fits::<u8>());
    assert_eq!(big.to::<u8>(), 255);
    assert!(big.fits::<u16>());
    assert_eq!(big.to::<u16>(), 300);
    let neg = Num::from(-1_i8);
    assert!(!neg.fits::<u32>());
    assert_eq!(neg.to::<u32>(), 0);
    assert_eq!(neg.to::<i8>(), -1);
    let whole = Num::F64(42.0_f64.to_bits());
    assert!(whole.fits::<u8>());
    assert_eq!(whole.to::<u8>(), 42);
    let frac = Num::F32(2.5_f32.to_bits());
    assert!(!frac.fits::<i64>());
    assert_eq!(frac.to::<i64>(), 2);
    assert_eq!(Num::F64((-2.5_f64).to_bits()).to::<i32>(), -2);
    assert_eq!(Num::F64(f64::NAN.to_bits()).to::<i32>(), 0);
    assert_eq!(Num::F64(f64::INFINITY.to_bits()).to::<i16>(), i16::MAX);
    assert_eq!(Num::F64(1e300_f64.to_bits()).to::<i128>(), i128::MAX);
    for n in [big, neg, whole, frac] {
        let fits = n.fits::<u8>();
        assert_eq!(fits, Num::from(n.to::<u8>()) == n);
    }
}

#[test]
fn numbers_compare_by_value() {
    assert_eq!(Num::Signed(1), Num::Unsigned(1));
    assert_eq!(Num::Unsigned(1), Num::F32(1.0_f32.to_bits()));
    assert_eq!(Num::F32(0.5_f32.to_bits()), Num::F64(0.5_f64.to_bits()));
    assert_ne!(Num::F32(0.1_f32.to_bits()), Num::F64(0.1_f64.to_bits()));
    assert_ne!(Num::F64(f64::NAN.to_bits()), Num::F64(f64::NAN.to_bits()));
    assert_eq!(Num::F64(0.0_f64.to_bits()), Num::F64((-0.0_f64).to_bits()));
    assert_ne!(Num::Signed(-1), Num::Unsigned(1));
}

#[test]
fn float_normalization() {
    assert_eq!(Num::from_f64_bits(3.0_f64.to_bits()), Num::Unsigned(3));
    assert!(matches!(Num::from_f64_bits((-3.0_f64).to_bits()), Num::Signed(-3)));
    assert_eq!(Num::from_f64_bits(0.5_f64.to_bits()), Num::F32(0.5_f32.to_bits()));
    assert!(matches!(Num::from_f64_bits(0.5_f64.to_bits()), Num::F32(b) if b == 0.5_f32.to_bits()));
    assert!(matches!(Num::from_f64_bits(0.1_f64.to_bits()), Num::F64(_)));
    assert!(matches!(Num::from_f64_bits(f64::INFINITY.to_bits()), Num::F32(b) if b == f32::INFINITY.to_bits()));
    assert!(matches!(Num::from_f64_bits(f64::NEG_INFINITY.to_bits()), Num::F32(b) if b == f32::NEG_INFINITY.to_bits()));
    assert!(matches!(Num::from_f64_bits(f64::NAN.to_bits()), Num::F64(_)));
    let tiny = f32::from_bits(1) as f64;
    assert!(matches!(Num::from_f64_bits(tiny.to_bits()), Num::F32(1)));
    assert!(matches!(Num::from_f64_bits((tiny / 2.0).to_bits()), Num::F64(_)));
    let max = f32::MAX as f64;
    assert!(matches!(Num::from_f64_bits(max.to_bits()), Num::F32(b) if b == f32::MAX.to_bits()));
    assert!(matches!(Num::from_f64_bits((-1.5e-40_f32 as f64).to_bits()), Num::F32(b) if b == (-1.5e-40_f32).to_bits()));
    assert!(matches!(Num::from_f64_bits(1e39_f64.to_bits()), Num::F64(_)));
    assert_eq!(enc_num(Num::from_f64_bits(0.5_f64.to_bits())), vec![0xca, 0x3f, 0x00, 0x00, 0x00]);
    assert!(matches!(Num::from_f32_bits(7.0_f32.to_bits()), Num::Unsigned(7)));
    assert!(matches!(Num::from_f64_bits(1e30_f64.to_bits()), Num::F64(_)));
    assert!(matches!(Num::from(5_i32), Num::Unsigned(5)));
    assert!(matches!(Num::from(-5_i32), Num::Signed(-5)));
}

#[test]
fn strings_as_text() {
    let ok = Utf8Str(b"abc".to_vec());
    assert_eq!(ok.as_str().unwrap(), "abc");
    assert_eq!(ok.as_bytes(), b"abc");
    assert_eq!(ok.as_ref().as_str().unwrap(), "abc");
    assert_eq!(Utf8Str(b"abc".to_vec()).into_string().unwrap(), "abc".to_owned());
    let bad = Utf8Str(vec![0xff, 0xfe]);
    assert_eq!(bad.as_str(), Err(Error::EInvalidUtf8));
    assert_eq!(Utf8StrRef(&[0xc0, 0x80]).as_str(), Err(Error::EInvalidUtf8));
    assert_eq!(bad.into_string(), Err(Error::EInvalidUtf8));
}

#[test]
fn owned_tokens_join_payload_pieces() {
    let mut dec = OwnedDecoder::new();
    let mut toks = Vec::new();
    dec.feed(&[0x92, 0xa3, 0x61], &mut toks);
    assert_eq!(toks, vec![OwnedToken::Arr(2)]);
    dec.feed(&[0x62, 0x63, 0xd4, 0x05], &mut toks);
    dec.feed(&[0x09], &mut toks);
    assert_eq!(
        toks,
        vec![OwnedToken::Arr(2), OwnedToken::Str(b"abc".to_vec()), OwnedToken::Ext(5, vec![9])]
    );
}

#[test]
fn duplicate_map_keys_are_kept() {
    let v = Value::Mapping(vec![(s("k"), Value::Nil), (s("k"), Value::Bool(true))]);
    let bytes = v.to_bytes().unwrap();
    assert_eq!(bytes, vec![0x82, 0xa1, 0x6b, 0xc0, 0xa1, 0x6b, 0xc3]);
    assert_eq!(ValueRef::from_ref(&bytes).unwrap().to_owned(), v);
}

#[test]
fn to_bytes_of_a_small_array() {
    let v = Value::Arr(vec![Value::Bool(true), s("x")]);
    assert_eq!(v.to_bytes().unwrap(), vec![0x92, 0xc3, 0xa1, 0x78]);
    assert_eq!(v.as_ref().to_bytes().unwrap(), vec![0x92, 0xc3, 0xa1, 0x78]);
}
