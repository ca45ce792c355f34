use cursor_api::byte_str::ByteStr;
use cursor_api::proto_value::stringify::{BigInt, BigIntError, Stringify};
use cursor_api::proto_value::{bytes_from_base64, bytes_from_decoded, is_default, Bytes, Enum, InvalidBase64};
use std::collections::{BTreeMap, HashMap};

#[derive(Debug, PartialEq)]
enum Color {
    Red,
    Green,
}

impl TryFrom<i32> for Color {
    type Error = i32;
    fn try_from(v: i32) -> Result<Color, i32> {
        match v {
            0 => Ok(Color::Red),
            1 => Ok(Color::Green),
            other => Err(other),
        }
    }
}

#[test]
fn enum_values() {
    let e = Enum::<Color>::new(1);
    assert_eq!(e.get(), 1);
    assert_eq!(e.try_get(), Ok(Color::Green));
    assert_eq!(Enum::<Color>::new(0).try_get(), Ok(Color::Red));
    assert_eq!(Enum::<Color>::new(7).try_get(), Err(7));
    assert_eq!(Enum::<Color>::from_i64(-5).map(|e| e.get()), Some(-5));
    assert!(Enum::<Color>::from_i64(i64::from(i32::MAX) + 1).is_none());
    assert!(Enum::<Color>::from_i64(i64::from(i32::MIN) - 1).is_none());
    assert_eq!(Enum::<Color>::from_u64(2).map(|e| e.get()), Some(2));
    assert!(Enum::<Color>::from_u64(1 << 31).is_none());
}

#[test]
fn defaults() {
    assert!(is_default(&false));
    assert!(!is_default(&true));
    assert!(is_default(&0i32) && is_default(&0i64) && is_default(&0u32) && is_default(&0u64));
    assert!(!is_default(&-1i64));
    assert!(is_default(&String::new()));
    assert!(!is_default(&String::from("x")));
    assert!(is_default(&ByteStr::new()));
    assert!(is_default(&Vec::<u8>::new()));
    assert!(!is_default(&vec![0u8]));
    assert!(is_default(&Enum::<Color>::new(0)));
    assert!(!is_default(&Enum::<Color>::new(3)));
    assert!(is_default(&Bytes(Vec::<u8>::new())));
    assert!(is_default(&None::<u8>));
    assert!(!is_default(&Some(0u8)));
    assert!(is_default(&HashMap::<u8, u8>::new()));
    let mut m = BTreeMap::new();
    assert!(is_default(&m));
    m.insert(1u8, 2u8);
    assert!(!is_default(&m));
}

#[test]
fn base64_bytes() {
    let b = Bytes(b"hello world".to_vec());
    assert_eq!(b.to_base64(), "aGVsbG8gd29ybGQ=");
    let back: Bytes<Vec<u8>> = bytes_from_base64("aGVsbG8gd29ybGQ=").unwrap();
    assert_eq!(back.0, b"hello world".to_vec());
    // Forgiving decoding skips whitespace and takes missing padding.
    let spaced: Bytes<Vec<u8>> = bytes_from_base64(" aGVs\nbG8 ").unwrap();
    assert_eq!(spaced.0, b"hello".to_vec());
    let unpadded: Bytes<Vec<u8>> = bytes_from_base64("aGk").unwrap();
    assert_eq!(unpadded.0, b"hi".to_vec());
    assert_eq!(bytes_from_base64::<Vec<u8>>("not base64!").map(|b| b.0), Err(InvalidBase64));
    assert_eq!(bytes_from_decoded::<Vec<u8>>(None).map(|b| b.0), Err(InvalidBase64));
    assert_eq!(bytes_from_decoded::<Vec<u8>>(Some(vec![1])).map(|b| b.0), Ok(vec![1]));
    assert_eq!(Bytes(Vec::<u8>::new()).to_base64(), "");
}

#[test]
fn test_stringify_wrapper_api() {
    let value = Stringify::new(9007199254740993u64);
    assert_eq!(*value.inner(), 9007199254740993u64);
    assert_eq!(value.into_inner(), 9007199254740993u64);

    assert_eq!(Stringify(123u64).0.to_text(), "123");

    let de: Stringify<u64> = Stringify(<u64 as BigInt>::from_text("123").unwrap());
    assert_eq!(de.0, 123);
}

#[test]
fn test_struct_serialization() {
    let large_number = 9007199254740993u64;
    let optional_number = Some(-9007199254740993i64);
    let id_list = vec![1u64, 2];

    assert_eq!(large_number.to_text(), "9007199254740993");
    assert_eq!(optional_number.unwrap().to_text(), "-9007199254740993");
    let texts: Vec<String> = id_list.iter().map(|v| v.to_text()).collect();
    assert_eq!(texts, vec!["1", "2"]);

    assert_eq!(<u64 as BigInt>::from_text(&large_number.to_text()), Ok(large_number));
    assert_eq!(
        <i64 as BigInt>::from_text(&optional_number.unwrap().to_text()),
        Ok(-9007199254740993i64)
    );
}

#[test]
fn test_empty_and_none() {
    let optional_number: Option<i64> = None;
    let id_list: Vec<u64> = vec![];
    assert!(is_default(&optional_number));
    assert!(id_list.iter().map(|v| v.to_text()).next().is_none());
}

#[test]
fn test_deserialization_robustness() {
    assert_eq!(<u64 as BigInt>::from_text("9007199254740993"), Ok(9007199254740993u64));
    assert_eq!(<i64 as BigInt>::from_i64(-123), Ok(-123i64));
    let ids = [
        <u64 as BigInt>::from_text("100"),
        <u64 as BigInt>::from_u64(200),
        <u64 as BigInt>::from_text("300"),
    ];
    assert_eq!(ids, [Ok(100), Ok(200), Ok(300)]);
}

#[test]
fn test_error_handling() {
    assert_eq!(<u64 as BigInt>::from_text("not_a_number"), Err(BigIntError::InvalidText));
    // u64::MAX + 1
    assert_eq!(<u64 as BigInt>::from_text("18446744073709551616"), Err(BigIntError::InvalidText));
}

#[test]
fn big_int_edges() {
    assert_eq!(u64::MAX.to_text(), "18446744073709551615");
    assert_eq!(i64::MIN.to_text(), "-9223372036854775808");
    assert_eq!(0u64.to_text(), "0");
    assert_eq!(<u64 as BigInt>::from_i64(-1), Err(BigIntError::OutOfRange));
    assert_eq!(<u64 as BigInt>::from_i64(5), Ok(5));
    assert_eq!(<i64 as BigInt>::from_u64(u64::MAX), Err(BigIntError::OutOfRange));
    assert_eq!(<i64 as BigInt>::from_u64(7), Ok(7));
    assert_eq!(<u64 as BigInt>::from_text("+42"), Ok(42));
    assert_eq!(<u64 as BigInt>::from_text("-0"), Err(BigIntError::InvalidText));
    assert_eq!(<i64 as BigInt>::from_text("-42"), Ok(-42));
    assert_eq!(<i64 as BigInt>::from_text(""), Err(BigIntError::InvalidText));
    assert_eq!(<i64 as BigInt>::from_text(" 1"), Err(BigIntError::InvalidText));
    for v in [0i64, 1, -1, i64::MAX, i64::MIN] {
        assert_eq!(<i64 as BigInt>::from_text(&v.to_text()), Ok(v));
    }
}

#[derive(Debug, Clone, Copy, PartialEq)]
enum Shade {
    Light,
    Dark,
}

impl Default for Shade {
    fn default() -> Self {
        Shade::Dark
    }
}

impl From<Shade> for i32 {
    fn from(s: Shade) -> i32 {
        match s {
            Shade::Light => 1,
            Shade::Dark => 7,
        }
    }
}

#[test]
fn enum_from_variant_and_default() {
    let e: Enum<Shade> = Enum::from(Shade::Light);
    assert_eq!(e.get(), 1);
    let d: Enum<Shade> = Enum::default();
    assert_eq!(d.get(), 7);
    assert_eq!(Enum::<Shade>::new(-3).get(), -3);
}
