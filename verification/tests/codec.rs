//! Whole-value encode, size-check and decode behaviour, against the byte
//! layouts the wire format prescribes.

use bincode::codec::{deserialize_value, serialize_value, serialized_size};
use bincode::config::{Endianness, SizeLimit};
use bincode::error::ErrorKind;
use bincode::value::{Shape, Value};

fn enc(v: &Value) -> Vec<u8> {
    serialize_value(v, Endianness::Little, SizeLimit::Infinite).unwrap()
}

fn enc_big(v: &Value) -> Vec<u8> {
    serialize_value(v, Endianness::Big, SizeLimit::Infinite).unwrap()
}

fn dec(shape: &Shape, bytes: &[u8]) -> Result<Value, ErrorKind> {
    deserialize_value(shape, bytes, Endianness::Little, SizeLimit::Infinite)
}

#[test]
fn u32_little_endian_layout() {
    assert_eq!(enc(&Value::U32(0x01020304)), vec![0x04, 0x03, 0x02, 0x01]);
}

#[test]
fn u32_big_endian_layout() {
    assert_eq!(enc_big(&Value::U32(0x01020304)), vec![0x01, 0x02, 0x03, 0x04]);
}

#[test]
fn bool_layout() {
    assert_eq!(enc(&Value::Bool(true)), vec![0x01]);
    assert_eq!(enc(&Value::Bool(false)), vec![0x00]);
}

#[test]
fn option_layout() {
    let some = Value::Opt(Some(Box::new(Value::U16(1))));
    assert_eq!(enc(&some), vec![0x01, 0x01, 0x00]);
    let none = Value::Opt(None);
    assert_eq!(enc(&none), vec![0x00]);
}

#[test]
fn string_layout() {
    let v = Value::Str(String::from("hi"));
    assert_eq!(
        enc(&v),
        vec![0x02, 0x00, 0x00, 0x00, 0x00, 0x00, 0x00, 0x00, 0x68, 0x69]
    );
}

#[test]
fn byte_sequence_layout() {
    let v = Value::List(vec![Value::U8(1), Value::U8(2), Value::U8(3)]);
    assert_eq!(
        enc(&v),
        vec![0x03, 0x00, 0x00, 0x00, 0x00, 0x00, 0x00, 0x00, 0x01, 0x02, 0x03]
    );
}

#[test]
fn variant_layout() {
    let v = Value::Variant(2, Box::new(Value::U8(7)));
    assert_eq!(enc(&v), vec![0x02, 0x00, 0x00, 0x00, 0x07]);
}

#[test]
fn invalid_bool_byte_is_rejected() {
    assert_eq!(dec(&Shape::Bool, &[0x02]), Err(ErrorKind::InvalidBoolEncoding(2)));
}

#[test]
fn invalid_char_leading_byte_is_rejected() {
    assert_eq!(dec(&Shape::Char, &[0xF8]), Err(ErrorKind::InvalidCharEncoding));
    assert_eq!(
        dec(&Shape::Char, &[0xF8, 0x80, 0x80, 0x80]),
        Err(ErrorKind::InvalidCharEncoding)
    );
}

#[test]
fn malformed_bool_rejection_carries_byte() {
    for b in 2..=255u8 {
        assert_eq!(dec(&Shape::Bool, &[b]), Err(ErrorKind::InvalidBoolEncoding(b)));
    }
}

#[test]
fn malformed_option_rejection_carries_byte() {
    let shape = Shape::Opt(Box::new(Shape::U8));
    for b in 2..=255u8 {
        assert_eq!(dec(&shape, &[b, 0]), Err(ErrorKind::InvalidTagEncoding(b)));
    }
}

#[test]
fn invalid_utf8_string_is_rejected() {
    let bytes = [2, 0, 0, 0, 0, 0, 0, 0, 0xFF, 0xFF];
    assert_eq!(dec(&Shape::Str, &bytes), Err(ErrorKind::InvalidUtf8Encoding));
}

#[test]
fn overlong_and_surrogate_chars_are_rejected() {
    // C0 80 would be an overlong NUL; the width table refuses the lead.
    assert_eq!(dec(&Shape::Char, &[0xC0, 0x80]), Err(ErrorKind::InvalidCharEncoding));
    // E0 80 80 is an overlong encoding with an in-range lead.
    assert_eq!(
        dec(&Shape::Char, &[0xE0, 0x80, 0x80]),
        Err(ErrorKind::InvalidCharEncoding)
    );
    // ED A0 80 encodes the surrogate D800.
    assert_eq!(
        dec(&Shape::Char, &[0xED, 0xA0, 0x80]),
        Err(ErrorKind::InvalidCharEncoding)
    );
}

fn sample_value() -> Value {
    Value::Record(vec![
        Value::Unit,
        Value::Bool(true),
        Value::U8(0xAB),
        Value::U16(0xBEEF),
        Value::U32(0xDEADBEEF),
        Value::U64(0x0123456789ABCDEF),
        Value::I8(-5),
        Value::I16(-300),
        Value::I32(-70000),
        Value::I64(-5000000000),
        Value::F32Bits(1.5f32.to_bits()),
        Value::F64Bits((-0.25f64).to_bits()),
        Value::Char('A'),
        Value::Char('\u{e9}'),
        Value::Char('\u{2603}'),
        Value::Char('\u{1F600}'),
        Value::Str(String::from("snowman \u{2603}")),
        Value::Bytes(vec![0, 1, 2, 0xFF]),
        Value::Opt(Some(Box::new(Value::I32(-1)))),
        Value::Opt(None),
        Value::List(vec![Value::U16(1), Value::U16(2), Value::U16(3)]),
        Value::Pairs(vec![
            (Value::Str(String::from("a")), Value::U32(1)),
            (Value::Str(String::from("b")), Value::U32(2)),
        ]),
        Value::Variant(3, Box::new(Value::Str(String::from("payload")))),
    ])
}

fn sample_shape() -> Shape {
    Shape::Record(vec![
        Shape::Unit,
        Shape::Bool,
        Shape::U8,
        Shape::U16,
        Shape::U32,
        Shape::U64,
        Shape::I8,
        Shape::I16,
        Shape::I32,
        Shape::I64,
        Shape::F32,
        Shape::F64,
        Shape::Char,
        Shape::Char,
        Shape::Char,
        Shape::Char,
        Shape::Str,
        Shape::Bytes,
        Shape::Opt(Box::new(Shape::I32)),
        Shape::Opt(Box::new(Shape::I32)),
        Shape::List(Box::new(Shape::U16)),
        Shape::Pairs(Box::new(Shape::Str), Box::new(Shape::U32)),
        Shape::Variant(vec![Shape::Unit, Shape::U8, Shape::Bool, Shape::Str]),
    ])
}

#[test]
fn round_trip_little_endian() {
    let v = sample_value();
    let bytes = enc(&v);
    let back = dec(&sample_shape(), &bytes).unwrap();
    assert_eq!(back, v);
}

#[test]
fn round_trip_big_endian() {
    let v = sample_value();
    let bytes = enc_big(&v);
    let back =
        deserialize_value(&sample_shape(), &bytes, Endianness::Big, SizeLimit::Infinite).unwrap();
    assert_eq!(back, v);
}

#[test]
fn size_agreement() {
    for v in [
        Value::Unit,
        Value::U64(7),
        Value::Str(String::from("hello")),
        Value::Char('\u{1F600}'),
        sample_value(),
    ] {
        let n = serialized_size(&v, SizeLimit::Infinite).unwrap();
        let bytes = enc(&v);
        assert_eq!(n, bytes.len() as u64);
        let bytes_big = enc_big(&v);
        assert_eq!(n, bytes_big.len() as u64);
    }
}

#[test]
fn truncation_safety() {
    let v = sample_value();
    let shape = sample_shape();
    let bytes = enc(&v);
    for k in 0..bytes.len() {
        let r = dec(&shape, &bytes[..k]);
        assert!(r.is_err());
        let err = r.unwrap_err();
        assert!(err == ErrorKind::SizeLimit || err == ErrorKind::InvalidCharEncoding);
    }
}

#[test]
fn truncation_of_char_free_value_reports_size_limit() {
    let v = Value::Record(vec![
        Value::U32(9),
        Value::Str(String::from("abc")),
        Value::List(vec![Value::Bool(true), Value::Bool(false)]),
    ]);
    let shape = Shape::Record(vec![
        Shape::U32,
        Shape::Str,
        Shape::List(Box::new(Shape::Bool)),
    ]);
    let bytes = enc(&v);
    for k in 0..bytes.len() {
        assert_eq!(dec(&shape, &bytes[..k]), Err(ErrorKind::SizeLimit));
    }
}

#[test]
fn cap_enforcement() {
    let v = sample_value();
    let shape = sample_shape();
    let n = serialized_size(&v, SizeLimit::Infinite).unwrap();
    let bytes = enc(&v);
    for c in [0, 1, n / 2, n - 1] {
        assert_eq!(
            serialize_value(&v, Endianness::Little, SizeLimit::Bounded(c)),
            Err(ErrorKind::SizeLimit)
        );
        assert_eq!(
            deserialize_value(&shape, &bytes, Endianness::Little, SizeLimit::Bounded(c)),
            Err(ErrorKind::SizeLimit)
        );
    }
    assert!(serialize_value(&v, Endianness::Little, SizeLimit::Bounded(n)).is_ok());
    assert!(deserialize_value(&shape, &bytes, Endianness::Little, SizeLimit::Bounded(n)).is_ok());
}

#[test]
fn endianness_symmetry_for_single_byte_values() {
    let v = Value::Record(vec![
        Value::Bool(true),
        Value::U8(9),
        Value::I8(-9),
        Value::Char('\u{e9}'),
        Value::Opt(Some(Box::new(Value::U8(1)))),
    ]);
    assert_eq!(enc(&v), enc_big(&v));
}

#[test]
fn cross_endian_decode_of_multibyte_value_differs() {
    let bytes = enc(&Value::U16(0x0102));
    let crossed =
        deserialize_value(&Shape::U16, &bytes, Endianness::Big, SizeLimit::Infinite).unwrap();
    assert_eq!(crossed, Value::U16(0x0201));
}

#[test]
fn floats_round_trip_through_bits() {
    let v = Value::Record(vec![
        Value::F32Bits(3.25f32.to_bits()),
        Value::F64Bits(f64::NEG_INFINITY.to_bits()),
    ]);
    let shape = Shape::Record(vec![Shape::F32, Shape::F64]);
    let back = dec(&shape, &enc(&v)).unwrap();
    match back {
        Value::Record(fields) => {
            match fields[0] {
                Value::F32Bits(b) => assert_eq!(f32::from_bits(b), 3.25f32),
                _ => panic!("wrong field"),
            }
            match fields[1] {
                Value::F64Bits(b) => assert_eq!(f64::from_bits(b), f64::NEG_INFINITY),
                _ => panic!("wrong field"),
            }
        },
        _ => panic!("wrong value"),
    }
}

#[test]
fn empty_containers_round_trip() {
    let v = Value::Record(vec![
        Value::Str(String::new()),
        Value::Bytes(Vec::new()),
        Value::List(Vec::new()),
        Value::Pairs(Vec::new()),
        Value::Record(Vec::new()),
    ]);
    let shape = Shape::Record(vec![
        Shape::Str,
        Shape::Bytes,
        Shape::List(Box::new(Shape::U64)),
        Shape::Pairs(Box::new(Shape::U8), Box::new(Shape::U8)),
        Shape::Record(Vec::new()),
    ]);
    let bytes = enc(&v);
    // four 8-byte zero prefixes and nothing else
    assert_eq!(bytes.len(), 32);
    assert_eq!(dec(&shape, &bytes).unwrap(), v);
}

#[test]
fn variant_index_out_of_range_is_rejected() {
    let shape = Shape::Variant(vec![Shape::Unit, Shape::U8]);
    // index 7 on the wire, but only two variants exist
    let bytes = [7, 0, 0, 0, 0];
    assert_eq!(dec(&shape, &bytes), Err(ErrorKind::Serde));
}

#[test]
fn declared_length_longer_than_input_is_rejected() {
    // a string claiming 100 bytes with only 2 present
    let mut bytes = vec![100, 0, 0, 0, 0, 0, 0, 0];
    bytes.extend_from_slice(b"hi");
    assert_eq!(dec(&Shape::Str, &bytes), Err(ErrorKind::SizeLimit));
}

#[test]
fn trailing_bytes_are_left_alone() {
    let mut bytes = enc(&Value::U8(5));
    bytes.push(0xEE);
    assert_eq!(dec(&Shape::U8, &bytes).unwrap(), Value::U8(5));
}

#[test]
fn deep_nesting_round_trips() {
    let mut v = Value::U8(1);
    let mut shape = Shape::U8;
    for _ in 0..64 {
        v = Value::Opt(Some(Box::new(v)));
        shape = Shape::Opt(Box::new(shape));
    }
    let bytes = enc(&v);
    assert_eq!(bytes.len(), 65);
    assert_eq!(dec(&shape, &bytes).unwrap(), v);
}

#[test]
fn map_order_is_preserved() {
    let v = Value::Pairs(vec![
        (Value::U8(2), Value::Bool(false)),
        (Value::U8(1), Value::Bool(true)),
        (Value::U8(2), Value::Bool(true)),
    ]);
    let shape = Shape::Pairs(Box::new(Shape::U8), Box::new(Shape::Bool));
    let bytes = enc(&v);
    assert_eq!(
        bytes,
        vec![3, 0, 0, 0, 0, 0, 0, 0, 2, 0, 1, 1, 2, 1]
    );
    assert_eq!(dec(&shape, &bytes).unwrap(), v);
}
