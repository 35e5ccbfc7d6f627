//! The reader cursor, the per-shape encoder and size-checker operations,
//! and the character codec, exercised directly.

use bincode::config::{Endianness, SizeLimit};
use bincode::de::Deserializer;
use bincode::error::ErrorKind;
use bincode::read::SliceReader;
use bincode::ser::{Serializer, SizeChecker};
use bincode::codec::{decode_value, encode_value, size_value};
use bincode::utf8::{char_from_bytes, encode_utf8, str_from_utf8, utf8_char_width};
use bincode::value::{Shape, Value};

#[test]
fn reader_read_exact_advances() {
    let data = [1u8, 2, 3, 4, 5];
    let mut r = SliceReader::new(&data);
    assert_eq!(r.read_exact(2).unwrap(), vec![1, 2]);
    assert_eq!(r.read_exact(3).unwrap(), vec![3, 4, 5]);
    assert_eq!(r.read_exact(1), Err(ErrorKind::SizeLimit));
}

#[test]
fn reader_read_exact_underrun_leaves_cursor() {
    let data = [1u8, 2];
    let mut r = SliceReader::new(&data);
    assert_eq!(r.read_exact(3), Err(ErrorKind::SizeLimit));
    assert_eq!(r.read_exact(2).unwrap(), vec![1, 2]);
}

#[test]
fn reader_fixed_width_reads() {
    let data = [0x04u8, 0x03, 0x02, 0x01];
    let mut r = SliceReader::new(&data);
    assert_eq!(r.read_u32(Endianness::Little).unwrap(), 0x01020304);
    let mut r = SliceReader::new(&data);
    assert_eq!(r.read_u32(Endianness::Big).unwrap(), 0x04030201);
    let mut r = SliceReader::new(&data[..2]);
    assert_eq!(r.read_u16(Endianness::Little).unwrap(), 0x0304);
    let mut r = SliceReader::new(&data[..3]);
    assert_eq!(r.read_u32(Endianness::Little), Err(ErrorKind::SizeLimit));
}

#[test]
fn reader_signed_reads() {
    let data = 0xFFFEu16.to_le_bytes();
    let mut r = SliceReader::new(&data);
    assert_eq!(r.read_i16(Endianness::Little).unwrap(), -2);
    let data = (-1i64).to_le_bytes();
    let mut r = SliceReader::new(&data);
    assert_eq!(r.read_i64(Endianness::Little).unwrap(), -1);
}

#[test]
fn reader_forward_read_str_validates() {
    let data = [0x68u8, 0x69, 0xFF];
    let mut r = SliceReader::new(&data);
    assert_eq!(r.forward_read_str(2).unwrap(), "hi");
    let mut r = SliceReader::new(&data);
    assert_eq!(r.forward_read_str(3), Err(ErrorKind::InvalidUtf8Encoding));
    let mut r = SliceReader::new(&data);
    assert_eq!(r.forward_read_str(4), Err(ErrorKind::SizeLimit));
}

#[test]
fn reader_forward_read_bytes_borrows() {
    let data = [9u8, 8, 7];
    let mut r = SliceReader::new(&data);
    assert_eq!(r.forward_read_bytes(2).unwrap(), &[9u8, 8][..]);
    assert_eq!(r.forward_read_bytes(2), Err(ErrorKind::SizeLimit));
    assert_eq!(r.forward_read_bytes(1).unwrap(), &[7u8][..]);
}

#[test]
fn serializer_writes_framed_bytes() {
    let mut s = Serializer::new(Vec::new(), 64, Endianness::Little);
    s.serialize_bool(true).unwrap();
    s.serialize_u16(0x0102).unwrap();
    s.serialize_i8(-1).unwrap();
    s.serialize_char('\u{e9}').unwrap();
    s.serialize_none().unwrap();
    s.serialize_some().unwrap();
    s.serialize_u8(5).unwrap();
    assert_eq!(s.out, vec![1, 0x02, 0x01, 0xFF, 0xC3, 0xA9, 0, 1, 5]);
}

#[test]
fn serializer_respects_capacity() {
    let mut s = Serializer::new(Vec::new(), 3, Endianness::Little);
    assert_eq!(s.serialize_u32(0x01020304), Err(ErrorKind::CapacityError));
    // the buffer was filled to the brim with the prefix that fit
    assert_eq!(s.out, vec![0x04, 0x03, 0x02]);
}

#[test]
fn serializer_str_and_bytes_are_length_prefixed() {
    let mut s = Serializer::new(Vec::new(), 64, Endianness::Little);
    s.serialize_str("hi").unwrap();
    s.serialize_bytes(&[7, 8]).unwrap();
    assert_eq!(
        s.out,
        vec![2, 0, 0, 0, 0, 0, 0, 0, 0x68, 0x69, 2, 0, 0, 0, 0, 0, 0, 0, 7, 8]
    );
}

#[test]
fn serializer_seq_of_unknown_length_is_refused() {
    let mut s = Serializer::new(Vec::new(), 64, Endianness::Little);
    assert_eq!(s.serialize_seq(None), Err(ErrorKind::SequenceMustHaveLength));
    assert_eq!(s.serialize_map(None), Err(ErrorKind::SequenceMustHaveLength));
    let mut c = SizeChecker::new(SizeLimit::Infinite);
    assert_eq!(c.serialize_seq(None), Err(ErrorKind::SequenceMustHaveLength));
}

#[test]
fn serializer_refuses_128_bit_integers() {
    let mut s = Serializer::new(Vec::new(), 64, Endianness::Little);
    assert_eq!(s.serialize_u128(1), Err(ErrorKind::Serde));
    assert_eq!(s.serialize_i128(-1), Err(ErrorKind::Serde));
    let mut d = Deserializer::new(SliceReader::new(&[0; 16]), Endianness::Little, SizeLimit::Infinite);
    assert_eq!(d.deserialize_u128(), Err(ErrorKind::Serde));
    assert_eq!(d.deserialize_i128(), Err(ErrorKind::Serde));
}

#[test]
fn collect_str_back_patches_the_length() {
    let mut s = Serializer::new(Vec::new(), 64, Endianness::Little);
    let pos = s.collect_str_begin().unwrap();
    s.collect_str_push(b"for").unwrap();
    s.collect_str_push(b"matted").unwrap();
    s.collect_str_end(pos).unwrap();
    let mut expected = Serializer::new(Vec::new(), 64, Endianness::Little);
    expected.serialize_str("formatted").unwrap();
    assert_eq!(s.out, expected.out);
}

#[test]
fn size_checker_counts_like_the_encoder() {
    let mut c = SizeChecker::new(SizeLimit::Infinite);
    c.serialize_bool(true).unwrap();
    c.serialize_u16(1).unwrap();
    c.serialize_str("hi").unwrap();
    c.serialize_char('\u{1F600}').unwrap();
    c.collect_str_len(5).unwrap();
    assert_eq!(c.written, 1 + 2 + (8 + 2) + 4 + (8 + 5));
}

#[test]
fn size_checker_enforces_the_budget() {
    let mut c = SizeChecker::new(SizeLimit::Bounded(3));
    c.serialize_u16(1).unwrap();
    assert_eq!(c.serialize_u16(2), Err(ErrorKind::SizeLimit));
}

#[test]
fn decoder_primitives_read_in_order() {
    let data = [1u8, 0xFE, 0x02, 0x01, 9];
    let mut d = Deserializer::new(SliceReader::new(&data), Endianness::Little, SizeLimit::Infinite);
    assert_eq!(d.deserialize_bool().unwrap(), true);
    assert_eq!(d.deserialize_i8().unwrap(), -2);
    assert_eq!(d.deserialize_u16().unwrap(), 0x0102);
    assert_eq!(d.deserialize_u8().unwrap(), 9);
    assert_eq!(d.deserialize_u8(), Err(ErrorKind::SizeLimit));
}

#[test]
fn decoder_charges_lengths_before_reading() {
    // a string with a huge declared length must fail on the budget,
    // not by attempting the read
    let mut bytes = vec![0xFF, 0xFF, 0xFF, 0xFF, 0, 0, 0, 0];
    bytes.extend_from_slice(b"xy");
    let mut d =
        Deserializer::new(SliceReader::new(&bytes), Endianness::Little, SizeLimit::Bounded(100));
    assert_eq!(d.deserialize_str(), Err(ErrorKind::SizeLimit));
}

#[test]
fn decoder_refuses_self_description() {
    let data = [0u8];
    let mut d = Deserializer::new(SliceReader::new(&data), Endianness::Little, SizeLimit::Infinite);
    assert_eq!(d.deserialize_any(), Err(ErrorKind::DeserializeAnyNotSupported));
    assert_eq!(d.deserialize_identifier(), Err(ErrorKind::Serde));
    assert_eq!(d.deserialize_ignored_any(), Err(ErrorKind::Serde));
    assert!(!d.is_human_readable());
}

#[test]
fn char_widths_follow_the_table() {
    assert_eq!(utf8_char_width(0x41), 1);
    assert_eq!(utf8_char_width(0x7F), 1);
    assert_eq!(utf8_char_width(0x80), 0);
    assert_eq!(utf8_char_width(0xBF), 0);
    assert_eq!(utf8_char_width(0xC0), 0);
    assert_eq!(utf8_char_width(0xC1), 0);
    assert_eq!(utf8_char_width(0xC2), 2);
    assert_eq!(utf8_char_width(0xDF), 2);
    assert_eq!(utf8_char_width(0xE0), 3);
    assert_eq!(utf8_char_width(0xEF), 3);
    assert_eq!(utf8_char_width(0xF0), 4);
    assert_eq!(utf8_char_width(0xF4), 4);
    assert_eq!(utf8_char_width(0xF5), 0);
    assert_eq!(utf8_char_width(0xFF), 0);
}

#[test]
fn encode_utf8_produces_each_width() {
    assert_eq!(encode_utf8('A').as_slice(), &[0x41u8][..]);
    assert_eq!(encode_utf8('\u{e9}').as_slice(), &[0xC3u8, 0xA9][..]);
    assert_eq!(encode_utf8('\u{2603}').as_slice(), &[0xE2u8, 0x98, 0x83][..]);
    assert_eq!(encode_utf8('\u{1F600}').as_slice(), &[0xF0u8, 0x9F, 0x98, 0x80][..]);
}

#[test]
fn char_from_bytes_inverts_encode_utf8() {
    for c in ['A', '\u{e9}', '\u{2603}', '\u{1F600}', '\u{10FFFF}'] {
        let enc = encode_utf8(c);
        assert_eq!(char_from_bytes(enc.as_slice()), Some(c));
    }
    // a continuation byte out of range
    assert_eq!(char_from_bytes(&[0xC3, 0x29]), None);
}

#[test]
fn decoder_reads_chars_of_every_width() {
    let data = [0x41u8, 0xC3, 0xA9, 0xE2, 0x98, 0x83, 0xF0, 0x9F, 0x98, 0x80];
    let mut d = Deserializer::new(SliceReader::new(&data), Endianness::Little, SizeLimit::Infinite);
    assert_eq!(d.deserialize_char().unwrap(), 'A');
    assert_eq!(d.deserialize_char().unwrap(), '\u{e9}');
    assert_eq!(d.deserialize_char().unwrap(), '\u{2603}');
    assert_eq!(d.deserialize_char().unwrap(), '\u{1F600}');
}

#[test]
fn truncated_char_is_invalid() {
    let data = [0xC3u8];
    let mut d = Deserializer::new(SliceReader::new(&data), Endianness::Little, SizeLimit::Infinite);
    assert_eq!(d.deserialize_char(), Err(ErrorKind::InvalidCharEncoding));
}

#[test]
fn str_from_utf8_accepts_exactly_utf8() {
    assert_eq!(str_from_utf8(b"plain"), Some("plain"));
    assert_eq!(str_from_utf8(&[0xC3, 0xA9]), Some("\u{e9}"));
    assert_eq!(str_from_utf8(&[0xFF]), None);
    assert_eq!(str_from_utf8(&[0xC3]), None);
}

#[test]
fn limit_accounting() {
    let mut l = SizeLimit::Bounded(10);
    assert!(l.add(4).is_ok());
    assert!(l.add(6).is_ok());
    assert_eq!(l.add(1), Err(ErrorKind::SizeLimit));
    let mut u = SizeLimit::Infinite;
    assert!(u.add(u64::MAX).is_ok());
}

#[test]
fn owned_string_and_byte_buf_reads() {
    let mut bytes = vec![5, 0, 0, 0, 0, 0, 0, 0];
    bytes.extend_from_slice(b"hello");
    bytes.extend_from_slice(&[3, 0, 0, 0, 0, 0, 0, 0, 9, 8, 7]);
    let mut d =
        Deserializer::new(SliceReader::new(&bytes), Endianness::Little, SizeLimit::Infinite);
    assert_eq!(d.deserialize_string().unwrap(), String::from("hello"));
    assert_eq!(d.deserialize_byte_buf().unwrap(), vec![9, 8, 7]);
}

#[test]
fn serializer_appends_to_prefilled_buffer() {
    let mut s = Serializer::new(vec![0xAA, 0xBB], 8, Endianness::Little);
    s.serialize_u16(0x0102).unwrap();
    assert_eq!(s.out, vec![0xAA, 0xBB, 0x02, 0x01]);
}

#[test]
fn big_endian_writes_and_reads_agree() {
    let mut s = Serializer::new(Vec::new(), 16, Endianness::Big);
    s.serialize_u16(0x0102).unwrap();
    s.serialize_i32(-2).unwrap();
    s.serialize_u64(0x0102030405060708).unwrap();
    assert_eq!(
        s.out,
        vec![1, 2, 0xFF, 0xFF, 0xFF, 0xFE, 1, 2, 3, 4, 5, 6, 7, 8]
    );
    let mut r = SliceReader::new(&s.out);
    assert_eq!(r.read_u16(Endianness::Big).unwrap(), 0x0102);
    assert_eq!(r.read_i32(Endianness::Big).unwrap(), -2);
    assert_eq!(r.read_u64(Endianness::Big).unwrap(), 0x0102030405060708);
}

#[test]
fn float_bit_reads() {
    let mut s = Serializer::new(Vec::new(), 16, Endianness::Little);
    s.serialize_f32_bits(2.5f32.to_bits()).unwrap();
    s.serialize_f64_bits(0.1f64.to_bits()).unwrap();
    let mut r = SliceReader::new(&s.out);
    assert_eq!(f32::from_bits(r.read_f32_bits(Endianness::Little).unwrap()), 2.5f32);
    assert_eq!(f64::from_bits(r.read_f64_bits(Endianness::Little).unwrap()), 0.1f64);
}

#[test]
fn forward_read_str_error_leaves_cursor() {
    let data = [0xFFu8, 0x41];
    let mut r = SliceReader::new(&data);
    assert_eq!(r.forward_read_str(1), Err(ErrorKind::InvalidUtf8Encoding));
    // the bad read consumed nothing; a raw read still sees both bytes
    assert_eq!(r.forward_read_bytes(2).unwrap(), &[0xFFu8, 0x41][..]);
}

#[test]
fn driver_calls_compose_with_primitives() {
    let v = Value::List(vec![Value::Bool(true), Value::Bool(false)]);
    let mut s = Serializer::new(Vec::new(), 32, Endianness::Little);
    encode_value(&mut s, &v).unwrap();
    let mut c = SizeChecker::new(SizeLimit::Infinite);
    size_value(&mut c, &v).unwrap();
    assert_eq!(c.written as usize, s.out.len());
    let mut d =
        Deserializer::new(SliceReader::new(&s.out), Endianness::Little, SizeLimit::Infinite);
    let back = decode_value(&mut d, &Shape::List(Box::new(Shape::Bool))).unwrap();
    assert_eq!(back, v);
}

#[test]
fn encoding_a_value_too_big_for_its_buffer_fills_it() {
    let v = Value::Str(String::from("long enough"));
    let mut s = Serializer::new(Vec::new(), 10, Endianness::Little);
    assert_eq!(encode_value(&mut s, &v), Err(ErrorKind::CapacityError));
    assert_eq!(s.out.len(), 10);
    assert_eq!(s.out, vec![11, 0, 0, 0, 0, 0, 0, 0, 0x6C, 0x6F]);
}
