//! Characters on the wire: UTF-8 encoding and decoding of a single scalar.
//!
//! A character occupies one to four bytes with no prefix; the decoder
//! recovers the width from the first byte alone.  The specifications come
//! from `vstd::utf8`; the executable functions here are proved against them.

use vstd::prelude::*;
use vstd::utf8::{
    decode_first_scalar, encode_scalar, is_continuation_byte, is_scalar, length_of_first_scalar,
    take_first_scalar, valid_first_scalar, valid_utf8,
};

verus! {

/// The UTF-8 bytes of one character.
pub open spec fn char_bytes(c: char) -> Seq<u8> {
    encode_scalar(c as u32)
}

/// The width in bytes of a UTF-8 encoding whose first byte is `b`, or 0 when
/// no encoding starts with `b`.
pub open spec fn char_width(b: u8) -> nat {
    if b < 0x80 {
        1
    } else if b < 0xC2 {
        0
    } else if b < 0xE0 {
        2
    } else if b < 0xF0 {
        3
    } else if b < 0xF5 {
        4
    } else {
        0
    }
}

/// The number of bytes a UTF-8 encoding beginning with byte `b` occupies,
/// with 0 standing for "no encoding begins with `b`".
pub fn utf8_char_width(b: u8) -> (r: usize)
    ensures
        r == char_width(b),
{
    if b < 0x80 {
        1
    } else if b < 0xC2 {
        0
    } else if b < 0xE0 {
        2
    } else if b < 0xF0 {
        3
    } else if b < 0xF5 {
        4
    } else {
        0
    }
}

/// The one to four UTF-8 bytes of a single encoded character.
pub struct EncodeUtf8 {
    buf: Vec<u8>,
}

impl View for EncodeUtf8 {
    type V = Seq<u8>;

    closed spec fn view(&self) -> Seq<u8> {
        self.buf@
    }
}

impl EncodeUtf8 {
    /// The encoded bytes.
    pub fn as_slice(&self) -> (r: &[u8])
        ensures
            r@ == self@,
    {
        self.buf.as_slice()
    }
}

/// Encodes one character as its UTF-8 bytes.
pub fn encode_utf8(c: char) -> (r: EncodeUtf8)
    ensures
        r@ == char_bytes(c),
{
    proof {
        vstd::utf8::char_is_scalar(c);
    }
    let code = c as u32;
    let mut buf: Vec<u8> = Vec::new();
    if code < 0x80 {
        buf.push((code & 0x7F) as u8);
    } else if code < 0x800 {
        buf.push(0xC0 | ((code >> 6u32) & 0x1F) as u8);
        buf.push(0x80 | (code & 0x3F) as u8);
    } else if code < 0x10000 {
        buf.push(0xE0 | ((code >> 12u32) & 0x0F) as u8);
        buf.push(0x80 | ((code >> 6u32) & 0x3F) as u8);
        buf.push(0x80 | (code & 0x3F) as u8);
    } else {
        buf.push(0xF0 | ((code >> 18u32) & 0x7) as u8);
        buf.push(0x80 | ((code >> 12u32) & 0x3F) as u8);
        buf.push(0x80 | ((code >> 6u32) & 0x3F) as u8);
        buf.push(0x80 | (code & 0x3F) as u8);
    }
    assert(buf@ =~= char_bytes(c));
    EncodeUtf8 { buf }
}

/// Relies on `char::from_u32` of std: it returns a character exactly when
/// the argument is a Unicode scalar value, and that character casts back to
/// the argument.
pub assume_specification[ char::from_u32 ](i: u32) -> (r: Option<char>)
    ensures
        r is Some <==> is_scalar(i),
        r matches Some(c) ==> c as u32 == i,
;

/// Relies on `core::str::from_utf8` of std: it succeeds exactly when the
/// bytes are valid UTF-8, and the returned string slice views those same
/// bytes.
#[verifier::external_body]
pub fn str_from_utf8(v: &[u8]) -> (r: Option<&str>)
    ensures
        r is Some <==> valid_utf8(v@),
        r matches Some(s) ==> vstd::utf8::encode_utf8(s@) == v@,
{
    core::str::from_utf8(v).ok()
}

/// The bytes of one character start with a leading byte whose width entry is
/// the encoding's length.
pub proof fn lemma_char_bytes_basic(c: char)
    ensures
        1 <= char_bytes(c).len() <= 4,
        char_width(char_bytes(c)[0]) == char_bytes(c).len(),
        valid_first_scalar(char_bytes(c)),
        length_of_first_scalar(char_bytes(c)) == char_bytes(c).len(),
        decode_first_scalar(char_bytes(c)) == c as u32,
{
    vstd::utf8::char_is_scalar(c);
    let u = c as u32;
    let chars = seq![c];
    assert(vstd::utf8::encode_utf8(chars) =~= char_bytes(c)) by {
        let e = Seq::<char>::empty();
        assert(chars.drop_first() =~= e);
        assert(vstd::utf8::encode_utf8(e) =~= Seq::<u8>::empty());
    }
    vstd::utf8::encode_utf8_first_scalar(chars);
    if vstd::utf8::has_width_1_encoding(u) {
        assert(((u & 0x7F) as u8) < 0x80) by (bit_vector)
            requires
                u <= 0x7F,
        ;
    } else if vstd::utf8::has_width_2_encoding(u) {
        assert(0xC2 <= (0xC0 | ((u >> 6u32) & 0x1F) as u8) < 0xE0) by (bit_vector)
            requires
                0x80 <= u <= 0x7FF,
        ;
    } else if vstd::utf8::has_width_3_encoding(u) {
        assert(0xE0 <= (0xE0 | ((u >> 12u32) & 0x0F) as u8) < 0xF0) by (bit_vector);
    } else {
        assert(0xF0 <= (0xF0 | ((u >> 18u32) & 0x7) as u8) < 0xF5) by (bit_vector)
            requires
                0x10000 <= u <= 0x10FFFF,
        ;
    }
}

/// Whether the first bytes of a stream form one character's encoding depends
/// only on the first `w` bytes, where `w` is the width given by the leading
/// byte.
pub proof fn lemma_first_scalar_prefix(s1: Seq<u8>, s2: Seq<u8>, w: int)
    requires
        valid_first_scalar(s1),
        length_of_first_scalar(s1) == w,
        s1.len() >= w,
        s2.len() >= w,
        forall|i: int| 0 <= i < w ==> s1[i] == s2[i],
    ensures
        valid_first_scalar(s2),
        length_of_first_scalar(s2) == w,
        decode_first_scalar(s2) == decode_first_scalar(s1),
{
}

/// A stream that starts with the bytes of character `c` decodes to `c`, no
/// matter what follows.
pub proof fn lemma_char_bytes_prefix(c: char, s: Seq<u8>)
    requires
        char_bytes(c).is_prefix_of(s),
    ensures
        valid_first_scalar(s),
        length_of_first_scalar(s) == char_bytes(c).len(),
        decode_first_scalar(s) == c as u32,
        char_width(s[0]) == char_bytes(c).len(),
{
    lemma_char_bytes_basic(c);
    let w = char_bytes(c).len() as int;
    assert(forall|i: int| 0 <= i < w ==> char_bytes(c)[i] == s[i]);
    lemma_first_scalar_prefix(char_bytes(c), s, w);
}

/// Decodes exactly one character from its collected bytes.  The caller hands
/// over as many bytes as the leading byte's width entry demands; the result
/// is the character those bytes encode, or nothing when they are not a
/// well-formed encoding.
pub fn char_from_bytes(bytes: &[u8]) -> (r: Option<char>)
    requires
        1 <= bytes@.len() <= 4,
        char_width(bytes@[0]) == bytes@.len(),
    ensures
        r is Some <==> valid_first_scalar(bytes@) && length_of_first_scalar(bytes@)
            == bytes@.len(),
        r matches Some(c) ==> char_bytes(c) == bytes@,
{
    let n = bytes.len();
    let b0 = *vstd::slice::slice_index_get(bytes, 0);
    if n == 1 {
        let r = char::from_u32(b0 as u32);
        proof {
            assert(is_scalar(b0 as u32));
        }
        match r {
            Some(c) => {
                proof {
                    assert(char_bytes(c) =~= bytes@) by {
                        assert(c as u32 == b0 as u32);
                        assert((((b0 as u32) & 0x7F) as u8) == b0) by (bit_vector)
                            requires
                                b0 < 0x80,
                        ;
                    }
                    lemma_char_bytes_prefix(c, bytes@);
                }
                Some(c)
            },
            None => {
                proof {
                    assert(false);
                }
                None
            },
        }
    } else if n == 2 {
        let b1 = *vstd::slice::slice_index_get(bytes, 1);
        if !(0x80 <= b1 && b1 <= 0xBF) {
            return None;
        }
        let cp: u32 = (((b0 & 0x1F) as u32) << 6u32) | ((b1 & 0x3F) as u32);
        proof {
            assert(0x80 <= cp <= 0x7FF) by (bit_vector)
                requires
                    0xC2 <= b0 < 0xE0,
                    0x80 <= b1 <= 0xBF,
                    cp == (((b0 & 0x1F) as u32) << 6u32) | ((b1 & 0x3F) as u32),
            ;
        }
        finish_multibyte(bytes, cp)
    } else if n == 3 {
        let b1 = *vstd::slice::slice_index_get(bytes, 1);
        let b2 = *vstd::slice::slice_index_get(bytes, 2);
        if !(0x80 <= b1 && b1 <= 0xBF) || !(0x80 <= b2 && b2 <= 0xBF) {
            return None;
        }
        let cp: u32 = (((b0 & 0x0F) as u32) << 12u32) | (((b1 & 0x3F) as u32) << 6u32) | ((b2
            & 0x3F) as u32);
        proof {
            assert(cp <= 0xFFFF) by (bit_vector)
                requires
                    cp == (((b0 & 0x0F) as u32) << 12u32) | (((b1 & 0x3F) as u32) << 6u32) | ((b2
                        & 0x3F) as u32),
            ;
        }
        if cp < 0x800 {
            return None;
        }
        finish_multibyte(bytes, cp)
    } else {
        let b1 = *vstd::slice::slice_index_get(bytes, 1);
        let b2 = *vstd::slice::slice_index_get(bytes, 2);
        let b3 = *vstd::slice::slice_index_get(bytes, 3);
        if !(0x80 <= b1 && b1 <= 0xBF) || !(0x80 <= b2 && b2 <= 0xBF) || !(0x80 <= b3 && b3
            <= 0xBF) {
            return None;
        }
        let cp: u32 = (((b0 & 0x07) as u32) << 18u32) | (((b1 & 0x3F) as u32) << 12u32) | (((b2
            & 0x3F) as u32) << 6u32) | ((b3 & 0x3F) as u32);
        if cp < 0x10000 {
            return None;
        }
        finish_multibyte(bytes, cp)
    }
}

/// The codepoint of a multi-byte encoding whose leading and continuation
/// bytes are in range, tested for the scalar range and turned into the
/// decoded character.
fn finish_multibyte(bytes: &[u8], cp: u32) -> (r: Option<char>)
    requires
        2 <= bytes@.len() <= 4,
        char_width(bytes@[0]) == bytes@.len(),
        forall|i: int| 1 <= i < bytes@.len() ==> is_continuation_byte(bytes@[i]),
        cp == vstd::utf8::decode_first_codepoint(bytes@),
        bytes@.len() == 2 ==> 0x80 <= cp <= 0x7FF,
        bytes@.len() == 3 ==> 0x800 <= cp <= 0xFFFF,
        bytes@.len() == 4 ==> 0x10000 <= cp,
    ensures
        r is Some <==> valid_first_scalar(bytes@) && length_of_first_scalar(bytes@)
            == bytes@.len(),
        r matches Some(c) ==> char_bytes(c) == bytes@,
{
    match char::from_u32(cp) {
        Some(c) => {
            proof {
                assert(valid_first_scalar(bytes@));
                let t = take_first_scalar(bytes@);
                assert(t =~= bytes@);
                assert(vstd::utf8::pop_first_scalar(bytes@) =~= Seq::<u8>::empty());
                assert(valid_utf8(Seq::<u8>::empty()));
                assert(valid_utf8(bytes@));
                vstd::utf8::decode_utf8_first_scalar(bytes@);
                vstd::utf8::char_u32_cast(c, cp);
                assert(char_bytes(c) == bytes@);
            }
            Some(c)
        },
        None => {
            proof {
                if bytes@.len() == 2 {
                    assert(false);
                } else if bytes@.len() == 3 {
                    assert(0xD800 <= cp <= 0xDFFF);
                } else {
                    assert(cp > 0x10FFFF);
                }
            }
            None
        },
    }
}

} // verus!
