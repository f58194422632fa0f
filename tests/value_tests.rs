use std::io::Read;

use msgpackin::error::{Config, Error};
use msgpackin::num::Num;
use msgpackin::owned::{OwnedDecoder, OwnedToken};
use msgpackin::value::{Utf8Str, Value, ValueRef};

fn s(x: &str) -> Value {
    Value::Str(Utf8Str(x.as_bytes().to_vec()))
}

fn n<T>(x: T) -> Value
where
    Num: From<T>,
{
    Value::Num(Num::from(x))
}

fn f64v(x: f64) -> Value {
    Value::Num(Num::F64(x.to_bits()))
}

/// Decodes an owned value from a reader, one read buffer at a time.
fn from_reader<R: Read>(mut r: R, chunk: usize) -> Result<Value, Error> {
    let mut dec = OwnedDecoder::new();
    let mut toks: Vec<OwnedToken> = Vec::new();
    let mut buf = vec![0u8; chunk];
    loop {
        let got = r.read(&mut buf).unwrap();
        if got == 0 {
            break;
        }
        dec.feed(&buf[..got], &mut toks);
    }
    Value::from_owned_tokens(&toks, &Config::default())
}

#[test]
fn test_value_encode_decode() {
    let arr = Value::Arr(vec![
        Value::Nil,
        Value::Bool(true),
        Value::Bool(false),
        s("hello"),
        Value::Bin(b"hello".to_vec()),
        n(-42_i8),
        f64v(3.14159_f64),
    ]);
    let map = Value::Mapping(vec![
        (s("array"), arr),
        (s("nother"), s("testing")),
    ]);
    let data = map.to_bytes().unwrap();
    let data2 = map.as_ref().to_bytes().unwrap();
    assert_eq!(data, data2);
    let dec1 = ValueRef::from_ref(data.as_slice()).unwrap();
    assert_eq!(dec1.to_owned(), map);
    let dec2 = from_reader(data.as_slice(), 4096).unwrap();
    assert_eq!(dec1.to_owned(), dec2);
    let dec3 = from_reader(data.as_slice(), 1).unwrap();
    assert_eq!(dec2, dec3);
}

#[test]
fn no_std_encode_decode_demo() {
    let expect = Value::Mapping(vec![
        (s("nil"), Value::Nil),
        (s("bool"), Value::Bool(true)),
        (s("int"), n(-42_i8)),
        (s("bigInt"), n(u64::MAX)),
        (s("float"), f64v(3.141592653589793_f64)),
        (s("str"), s("hello")),
        (s("ext"), Value::Ext(-42, b"ext-data".to_vec())),
        (s("arr"), Value::Arr(vec![s("one"), s("two")])),
    ]);
    let encoded = expect.to_bytes().unwrap();
    let decoded = ValueRef::from_ref(&encoded).unwrap();
    assert_eq!(expect, decoded.to_owned());
}

#[test]
fn std_encode_decode_demo() {
    let expect = Value::Mapping(vec![(s("foo"), s("bar"))]);
    let mut buf = Vec::new();
    {
        let writer: Box<dyn std::io::Write> = Box::new(&mut buf);
        let mut writer = writer;
        writer.write_all(&expect.to_bytes().unwrap()).unwrap();
    }
    let reader: Box<dyn std::io::Read> = Box::new(buf.as_slice());
    let decoded = from_reader(reader, 4096).unwrap();
    assert_eq!(expect, decoded);
}

#[test]
fn test_to() {
    fn all_targets(n: Num) {
        let _: u8 = n.to();
        let _: u16 = n.to();
        let _: u32 = n.to();
        let _: u64 = n.to();
        let _: u128 = n.to();
        let _: usize = n.to();
        let _: i8 = n.to();
        let _: i16 = n.to();
        let _: i32 = n.to();
        let _: i64 = n.to();
        let _: i128 = n.to();
        let _: isize = n.to();
    }
    for n in [
        Num::from(u8::MIN), Num::from(u8::MAX), Num::from(u16::MIN), Num::from(u16::MAX),
        Num::from(u32::MIN), Num::from(u32::MAX), Num::from(u64::MIN), Num::from(u64::MAX),
        Num::from(usize::MIN), Num::from(usize::MAX), Num::from(i8::MIN), Num::from(i8::MAX),
        Num::from(i16::MIN), Num::from(i16::MAX), Num::from(i32::MIN), Num::from(i32::MAX),
        Num::from(i64::MIN), Num::from(i64::MAX), Num::from(isize::MIN), Num::from(isize::MAX),
        Num::F32(f32::MIN.to_bits()), Num::F32(f32::MAX.to_bits()),
        Num::F64(f64::MIN.to_bits()), Num::F64(f64::MAX.to_bits()),
    ] {
        all_targets(n);
    }
}
