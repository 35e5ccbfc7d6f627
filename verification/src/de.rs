//! The decoder: type-directed parsing from a borrowed byte slice.
//!
//! Each operation consumes exactly the bytes its shape prescribes.  Every
//! length read from the wire is charged against the byte budget before the
//! bytes it prefixes are consumed, so an adversarial length cannot force an
//! oversized read.

use crate::config::{Endianness, SizeLimit};
use crate::error::ErrorKind;
use crate::read::SliceReader;
use crate::utf8::{char_from_bytes, char_width, utf8_char_width};
use crate::wire;
use vstd::prelude::*;
use vstd::utf8::{length_of_first_scalar, valid_first_scalar, valid_utf8};

verus! {

/// A decoder that reads wire bytes from a borrowed slice.
pub struct Deserializer<'de> {
    /// The cursor over the unread input.
    pub reader: SliceReader<'de>,
    /// Byte order for every multi-byte field.
    pub endian: Endianness,
    /// The byte budget still available.
    pub limit: SizeLimit,
}

impl<'de> Deserializer<'de> {
    /// The bytes not yet consumed.
    pub open spec fn bytes(self) -> Seq<u8> {
        self.reader.slice@
    }

    /// The decoder consumed `consumed` bytes of input and charged `charged`
    /// bytes against the budget.
    pub open spec fn advanced(self, post: Deserializer<'de>, consumed: nat, charged: nat) -> bool {
        &&& post.endian == self.endian
        &&& post.reader.slice@ == self.bytes().skip(consumed as int)
        &&& post.limit == self.limit.charge(charged)
    }

    /// A successful fixed-width read: `n` bytes consumed and charged.
    pub open spec fn consumed(self, post: Deserializer<'de>, n: nat) -> bool {
        self.advanced(post, n, n)
    }

    /// A read that charged the budget but found the input too short: the
    /// cursor stays in place.
    pub open spec fn charged_only(self, post: Deserializer<'de>, n: nat) -> bool {
        &&& post.endian == self.endian
        &&& post.reader == self.reader
        &&& post.limit == self.limit.charge(n)
    }

    /// Creates a new decoder over the reader's bytes with the given byte
    /// order and byte budget.
    pub fn new(r: SliceReader<'de>, endian: Endianness, limit: SizeLimit) -> (d: Deserializer<
        'de,
    >)
        ensures
            d.reader == r,
            d.endian == endian,
            d.limit == limit,
    {
        Deserializer { reader: r, endian, limit }
    }

    /// Self-describing decoding is not expressible in this format.
    pub fn deserialize_any(&mut self) -> (r: Result<(), ErrorKind>)
        ensures
            r == Err::<(), ErrorKind>(ErrorKind::DeserializeAnyNotSupported),
            *final(self) == *old(self),
    {
        Err(ErrorKind::DeserializeAnyNotSupported)
    }

    /// Field identifiers are never on the wire.
    pub fn deserialize_identifier(&mut self) -> (r: Result<(), ErrorKind>)
        ensures
            r == Err::<(), ErrorKind>(ErrorKind::Serde),
            *final(self) == *old(self),
    {
        Err(ErrorKind::Serde)
    }

    /// Skipping an unknown value is not expressible in this format.
    pub fn deserialize_ignored_any(&mut self) -> (r: Result<(), ErrorKind>)
        ensures
            r == Err::<(), ErrorKind>(ErrorKind::Serde),
            *final(self) == *old(self),
    {
        Err(ErrorKind::Serde)
    }

    /// A unit value occupies no bytes.
    pub fn deserialize_unit(&mut self) -> (r: Result<(), ErrorKind>)
        ensures
            r == Ok::<(), ErrorKind>(()),
            *final(self) == *old(self),
    {
        Ok(())
    }

    /// Reads one unsigned byte.
    pub fn deserialize_u8(&mut self) -> (r: Result<u8, ErrorKind>)
        ensures
            !old(self).limit.allows(1) ==> r == Err::<u8, ErrorKind>(ErrorKind::SizeLimit)
                && *final(self) == *old(self),
            old(self).limit.allows(1) && old(self).bytes().len() < 1 ==> r == Err::<u8, ErrorKind>(
                ErrorKind::SizeLimit,
            ) && old(self).charged_only(*final(self), 1),
            old(self).limit.allows(1) && old(self).bytes().len() >= 1 ==> r == Ok::<u8, ErrorKind>(
                old(self).bytes()[0],
            ) && old(self).consumed(*final(self), 1),
    {
        match self.limit.add(1) {
            Ok(()) => {},
            Err(k) => {
                return Err(k);
            },
        }
        match self.reader.read_exact(1) {
            Ok(buf) => Ok(buf[0]),
            Err(k) => Err(k),
        }
    }

    /// Reads one signed byte.
    pub fn deserialize_i8(&mut self) -> (r: Result<i8, ErrorKind>)
        ensures
            !old(self).limit.allows(1) ==> r == Err::<i8, ErrorKind>(ErrorKind::SizeLimit)
                && *final(self) == *old(self),
            old(self).limit.allows(1) && old(self).bytes().len() < 1 ==> r == Err::<i8, ErrorKind>(
                ErrorKind::SizeLimit,
            ) && old(self).charged_only(*final(self), 1),
            old(self).limit.allows(1) && old(self).bytes().len() >= 1 ==> r == Ok::<i8, ErrorKind>(
                old(self).bytes()[0] as i8,
            ) && old(self).consumed(*final(self), 1),
    {
        match self.deserialize_u8() {
            Ok(b) => Ok(b as i8),
            Err(k) => Err(k),
        }
    }

    /// Reads a boolean byte: 0 is false, 1 is true, anything else is
    /// rejected as [`ErrorKind::InvalidBoolEncoding`] carrying the byte.
    pub fn deserialize_bool(&mut self) -> (r: Result<bool, ErrorKind>)
        ensures
            !old(self).limit.allows(1) ==> r == Err::<bool, ErrorKind>(ErrorKind::SizeLimit)
                && *final(self) == *old(self),
            old(self).limit.allows(1) && old(self).bytes().len() < 1 ==> r == Err::<
                bool,
                ErrorKind,
            >(ErrorKind::SizeLimit) && old(self).charged_only(*final(self), 1),
            old(self).limit.allows(1) && old(self).bytes().len() >= 1 ==> ({
                let b = old(self).bytes()[0];
                &&& old(self).consumed(*final(self), 1)
                &&& b == 0 ==> r == Ok::<bool, ErrorKind>(false)
                &&& b == 1 ==> r == Ok::<bool, ErrorKind>(true)
                &&& (b != 0 && b != 1) ==> r == Err::<bool, ErrorKind>(
                    ErrorKind::InvalidBoolEncoding(b),
                )
            }),
    {
        match self.deserialize_u8() {
            Ok(1) => Ok(true),
            Ok(0) => Ok(false),
            Ok(b) => Err(ErrorKind::InvalidBoolEncoding(b)),
            Err(k) => Err(k),
        }
    }

    /// Reads an option tag byte: 0 means absent, 1 means a payload follows,
    /// anything else is rejected as [`ErrorKind::InvalidTagEncoding`]
    /// carrying the byte.
    pub fn deserialize_option(&mut self) -> (r: Result<bool, ErrorKind>)
        ensures
            !old(self).limit.allows(1) ==> r == Err::<bool, ErrorKind>(ErrorKind::SizeLimit)
                && *final(self) == *old(self),
            old(self).limit.allows(1) && old(self).bytes().len() < 1 ==> r == Err::<
                bool,
                ErrorKind,
            >(ErrorKind::SizeLimit) && old(self).charged_only(*final(self), 1),
            old(self).limit.allows(1) && old(self).bytes().len() >= 1 ==> ({
                let b = old(self).bytes()[0];
                &&& old(self).consumed(*final(self), 1)
                &&& b == 0 ==> r == Ok::<bool, ErrorKind>(false)
                &&& b == 1 ==> r == Ok::<bool, ErrorKind>(true)
                &&& (b != 0 && b != 1) ==> r == Err::<bool, ErrorKind>(
                    ErrorKind::InvalidTagEncoding(b),
                )
            }),
    {
        match self.deserialize_u8() {
            Ok(0) => Ok(false),
            Ok(1) => Ok(true),
            Ok(b) => Err(ErrorKind::InvalidTagEncoding(b)),
            Err(k) => Err(k),
        }
    }

    /// Reads a 16-bit integer in the configured byte order.
    pub fn deserialize_u16(&mut self) -> (r: Result<u16, ErrorKind>)
        ensures
            !old(self).limit.allows(2) ==> r == Err::<u16, ErrorKind>(ErrorKind::SizeLimit)
                && *final(self) == *old(self),
            old(self).limit.allows(2) && old(self).bytes().len() < 2 ==> r == Err::<
                u16,
                ErrorKind,
            >(ErrorKind::SizeLimit) && old(self).charged_only(*final(self), 2),
            old(self).limit.allows(2) && old(self).bytes().len() >= 2 ==> r == Ok::<
                u16,
                ErrorKind,
            >(wire::u16_of_bytes(old(self).endian, old(self).bytes().take(2))) && old(
                self,
            ).consumed(*final(self), 2),
    {
        match self.limit.add(2) {
            Ok(()) => {},
            Err(k) => {
                return Err(k);
            },
        }
        self.reader.read_u16(self.endian)
    }

    /// Reads a 32-bit integer in the configured byte order.
    pub fn deserialize_u32(&mut self) -> (r: Result<u32, ErrorKind>)
        ensures
            !old(self).limit.allows(4) ==> r == Err::<u32, ErrorKind>(ErrorKind::SizeLimit)
                && *final(self) == *old(self),
            old(self).limit.allows(4) && old(self).bytes().len() < 4 ==> r == Err::<
                u32,
                ErrorKind,
            >(ErrorKind::SizeLimit) && old(self).charged_only(*final(self), 4),
            old(self).limit.allows(4) && old(self).bytes().len() >= 4 ==> r == Ok::<
                u32,
                ErrorKind,
            >(wire::u32_of_bytes(old(self).endian, old(self).bytes().take(4))) && old(
                self,
            ).consumed(*final(self), 4),
    {
        match self.limit.add(4) {
            Ok(()) => {},
            Err(k) => {
                return Err(k);
            },
        }
        self.reader.read_u32(self.endian)
    }

    /// Reads a 64-bit integer in the configured byte order.
    pub fn deserialize_u64(&mut self) -> (r: Result<u64, ErrorKind>)
        ensures
            !old(self).limit.allows(8) ==> r == Err::<u64, ErrorKind>(ErrorKind::SizeLimit)
                && *final(self) == *old(self),
            old(self).limit.allows(8) && old(self).bytes().len() < 8 ==> r == Err::<
                u64,
                ErrorKind,
            >(ErrorKind::SizeLimit) && old(self).charged_only(*final(self), 8),
            old(self).limit.allows(8) && old(self).bytes().len() >= 8 ==> r == Ok::<
                u64,
                ErrorKind,
            >(wire::u64_of_bytes(old(self).endian, old(self).bytes().take(8))) && old(
                self,
            ).consumed(*final(self), 8),
    {
        match self.limit.add(8) {
            Ok(()) => {},
            Err(k) => {
                return Err(k);
            },
        }
        self.reader.read_u64(self.endian)
    }

    /// Reads a signed 16-bit integer in the configured byte order.
    pub fn deserialize_i16(&mut self) -> (r: Result<i16, ErrorKind>)
        ensures
            !old(self).limit.allows(2) ==> r == Err::<i16, ErrorKind>(ErrorKind::SizeLimit)
                && *final(self) == *old(self),
            old(self).limit.allows(2) && old(self).bytes().len() < 2 ==> r == Err::<
                i16,
                ErrorKind,
            >(ErrorKind::SizeLimit) && old(self).charged_only(*final(self), 2),
            old(self).limit.allows(2) && old(self).bytes().len() >= 2 ==> r == Ok::<
                i16,
                ErrorKind,
            >(wire::u16_of_bytes(old(self).endian, old(self).bytes().take(2)) as i16) && old(
                self,
            ).consumed(*final(self), 2),
    {
        match self.deserialize_u16() {
            Ok(x) => Ok(x as i16),
            Err(k) => Err(k),
        }
    }

    /// Reads a signed 32-bit integer in the configured byte order.
    pub fn deserialize_i32(&mut self) -> (r: Result<i32, ErrorKind>)
        ensures
            !old(self).limit.allows(4) ==> r == Err::<i32, ErrorKind>(ErrorKind::SizeLimit)
                && *final(self) == *old(self),
            old(self).limit.allows(4) && old(self).bytes().len() < 4 ==> r == Err::<
                i32,
                ErrorKind,
            >(ErrorKind::SizeLimit) && old(self).charged_only(*final(self), 4),
            old(self).limit.allows(4) && old(self).bytes().len() >= 4 ==> r == Ok::<
                i32,
                ErrorKind,
            >(wire::u32_of_bytes(old(self).endian, old(self).bytes().take(4)) as i32) && old(
                self,
            ).consumed(*final(self), 4),
    {
        match self.deserialize_u32() {
            Ok(x) => Ok(x as i32),
            Err(k) => Err(k),
        }
    }

    /// Reads a signed 64-bit integer in the configured byte order.
    pub fn deserialize_i64(&mut self) -> (r: Result<i64, ErrorKind>)
        ensures
            !old(self).limit.allows(8) ==> r == Err::<i64, ErrorKind>(ErrorKind::SizeLimit)
                && *final(self) == *old(self),
            old(self).limit.allows(8) && old(self).bytes().len() < 8 ==> r == Err::<
                i64,
                ErrorKind,
            >(ErrorKind::SizeLimit) && old(self).charged_only(*final(self), 8),
            old(self).limit.allows(8) && old(self).bytes().len() >= 8 ==> r == Ok::<
                i64,
                ErrorKind,
            >(wire::u64_of_bytes(old(self).endian, old(self).bytes().take(8)) as i64) && old(
                self,
            ).consumed(*final(self), 8),
    {
        match self.deserialize_u64() {
            Ok(x) => Ok(x as i64),
            Err(k) => Err(k),
        }
    }

    /// 128-bit integers are not part of this wire format.
    pub fn deserialize_u128(&mut self) -> (r: Result<u128, ErrorKind>)
        ensures
            r == Err::<u128, ErrorKind>(ErrorKind::Serde),
            *final(self) == *old(self),
    {
        Err(ErrorKind::Serde)
    }

    /// 128-bit integers are not part of this wire format.
    pub fn deserialize_i128(&mut self) -> (r: Result<i128, ErrorKind>)
        ensures
            r == Err::<i128, ErrorKind>(ErrorKind::Serde),
            *final(self) == *old(self),
    {
        Err(ErrorKind::Serde)
    }

    /// Reads the bit pattern of a 32-bit float.
    pub fn deserialize_f32_bits(&mut self) -> (r: Result<u32, ErrorKind>)
        ensures
            !old(self).limit.allows(4) ==> r == Err::<u32, ErrorKind>(ErrorKind::SizeLimit)
                && *final(self) == *old(self),
            old(self).limit.allows(4) && old(self).bytes().len() < 4 ==> r == Err::<
                u32,
                ErrorKind,
            >(ErrorKind::SizeLimit) && old(self).charged_only(*final(self), 4),
            old(self).limit.allows(4) && old(self).bytes().len() >= 4 ==> r == Ok::<
                u32,
                ErrorKind,
            >(wire::u32_of_bytes(old(self).endian, old(self).bytes().take(4))) && old(
                self,
            ).consumed(*final(self), 4),
    {
        self.deserialize_u32()
    }

    /// Reads the bit pattern of a 64-bit float.
    pub fn deserialize_f64_bits(&mut self) -> (r: Result<u64, ErrorKind>)
        ensures
            !old(self).limit.allows(8) ==> r == Err::<u64, ErrorKind>(ErrorKind::SizeLimit)
                && *final(self) == *old(self),
            old(self).limit.allows(8) && old(self).bytes().len() < 8 ==> r == Err::<
                u64,
                ErrorKind,
            >(ErrorKind::SizeLimit) && old(self).charged_only(*final(self), 8),
            old(self).limit.allows(8) && old(self).bytes().len() >= 8 ==> r == Ok::<
                u64,
                ErrorKind,
            >(wire::u64_of_bytes(old(self).endian, old(self).bytes().take(8))) && old(
                self,
            ).consumed(*final(self), 8),
    {
        self.deserialize_u64()
    }

    /// Reads a character: one leading byte whose width-table entry fixes
    /// the encoding's length, then the remaining bytes, validated as one
    /// UTF-8 scalar.  A leading byte with width entry 0, missing or invalid
    /// remaining bytes, all yield [`ErrorKind::InvalidCharEncoding`].
    pub fn deserialize_char(&mut self) -> (r: Result<char, ErrorKind>)
        ensures
            !old(self).limit.allows(1) ==> r == Err::<char, ErrorKind>(ErrorKind::SizeLimit)
                && *final(self) == *old(self),
            old(self).limit.allows(1) && old(self).bytes().len() < 1 ==> r == Err::<
                char,
                ErrorKind,
            >(ErrorKind::SizeLimit) && old(self).charged_only(*final(self), 1),
            old(self).limit.allows(1) && old(self).bytes().len() >= 1 ==> ({
                let s = old(self).bytes();
                let w = char_width(s[0]);
                &&& w == 0 ==> r == Err::<char, ErrorKind>(ErrorKind::InvalidCharEncoding) && old(
                    self,
                ).advanced(*final(self), 1, 1)
                &&& w >= 1 && !old(self).limit.allows(w) ==> r == Err::<char, ErrorKind>(
                    ErrorKind::SizeLimit,
                ) && old(self).advanced(*final(self), 1, 1)
                &&& w >= 1 && old(self).limit.allows(w) && s.len() < w ==> r == Err::<
                    char,
                    ErrorKind,
                >(ErrorKind::InvalidCharEncoding) && old(self).advanced(*final(self), 1, w)
                &&& w >= 1 && old(self).limit.allows(w) && s.len() >= w ==> {
                    &&& (valid_first_scalar(s) && length_of_first_scalar(s) == w) ==> (
                    r matches Ok(c) && crate::utf8::char_bytes(c) == s.take(w as int) && old(
                        self,
                    ).consumed(*final(self), w))
                    &&& !(valid_first_scalar(s) && length_of_first_scalar(s) == w) ==> r == Err::<
                        char,
                        ErrorKind,
                    >(ErrorKind::InvalidCharEncoding) && old(self).advanced(*final(self), w, w)
                }
            }),
    {
        proof {
            crate::config::lemma_charge_split(self.limit, 1, (char_width(self.bytes()[0]) - 1) as nat);
        }
        match self.limit.add(1) {
            Ok(()) => {},
            Err(k) => {
                return Err(k);
            },
        }
        let first = match self.reader.read_exact(1) {
            Ok(buf) => buf,
            Err(k) => {
                return Err(k);
            },
        };
        let b0 = first[0];
        let w = utf8_char_width(b0);
        if w == 0 {
            return Err(ErrorKind::InvalidCharEncoding);
        }
        match self.limit.add((w - 1) as u64) {
            Ok(()) => {},
            Err(_) => {
                return Err(ErrorKind::SizeLimit);
            },
        }
        let rest = match self.reader.read_exact(w - 1) {
            Ok(buf) => buf,
            Err(_) => {
                return Err(ErrorKind::InvalidCharEncoding);
            },
        };
        proof {
            assert(self.reader.slice@ =~= old(self).bytes().skip(w as int));
            assert(seq![b0] + rest@ =~= old(self).bytes().take(w as int));
        }
        let mut buf: Vec<u8> = Vec::new();
        buf.push(b0);
        let mut i: usize = 0;
        while i < rest.len()
            invariant
                i <= rest@.len(),
                buf@ == seq![b0] + rest@.take(i as int),
            decreases rest@.len() - i,
        {
            buf.push(rest[i]);
            assert(buf@ =~= seq![b0] + rest@.take(i + 1));
            i = i + 1;
        }
        assert(buf@ =~= seq![b0] + rest@);
        assert(buf@ =~= old(self).bytes().take(w as int));
        let ghost s = old(self).bytes();
        match char_from_bytes(buf.as_slice()) {
            Some(c) => {
                proof {
                    crate::utf8::lemma_first_scalar_prefix(buf@, s, w as int);
                }
                Ok(c)
            },
            None => {
                proof {
                    if valid_first_scalar(s) && length_of_first_scalar(s) == w {
                        crate::utf8::lemma_first_scalar_prefix(s, buf@, w as int);
                        assert(false);
                    }
                }
                Err(ErrorKind::InvalidCharEncoding)
            },
        }
    }

    /// Reads a 64-bit count or length prefix and narrows it to an in-memory
    /// size.
    pub fn deserialize_len(&mut self) -> (r: Result<usize, ErrorKind>)
        ensures
            !old(self).limit.allows(8) ==> r == Err::<usize, ErrorKind>(ErrorKind::SizeLimit)
                && *final(self) == *old(self),
            old(self).limit.allows(8) && old(self).bytes().len() < 8 ==> r == Err::<
                usize,
                ErrorKind,
            >(ErrorKind::SizeLimit) && old(self).charged_only(*final(self), 8),
            old(self).limit.allows(8) && old(self).bytes().len() >= 8 ==> ({
                let n = wire::u64_of_bytes(old(self).endian, old(self).bytes().take(8));
                &&& old(self).consumed(*final(self), 8)
                &&& n <= usize::MAX ==> r == Ok::<usize, ErrorKind>(n as usize)
                &&& n > usize::MAX ==> r == Err::<usize, ErrorKind>(ErrorKind::Serde)
            }),
    {
        let n = match self.deserialize_u64() {
            Ok(n) => n,
            Err(k) => {
                return Err(k);
            },
        };
        if n > usize::MAX as u64 {
            return Err(ErrorKind::Serde);
        }
        Ok(n as usize)
    }

    /// Reads a string: a 64-bit byte length, then that many bytes, which
    /// must be valid UTF-8; the string borrows from the input.
    pub fn deserialize_str(&mut self) -> (r: Result<&'de str, ErrorKind>)
        ensures
            !old(self).limit.allows(8) ==> r == Err::<&str, ErrorKind>(ErrorKind::SizeLimit)
                && *final(self) == *old(self),
            old(self).limit.allows(8) && old(self).bytes().len() < 8 ==> r == Err::<
                &str,
                ErrorKind,
            >(ErrorKind::SizeLimit) && old(self).charged_only(*final(self), 8),
            old(self).limit.allows(8) && old(self).bytes().len() >= 8 ==> ({
                let s = old(self).bytes();
                let n = wire::u64_of_bytes(old(self).endian, s.take(8)) as nat;
                &&& n > usize::MAX ==> r == Err::<&str, ErrorKind>(ErrorKind::Serde) && old(
                    self,
                ).consumed(*final(self), 8)
                &&& n <= usize::MAX ==> {
                    &&& !old(self).limit.allows(8 + n) ==> r == Err::<&str, ErrorKind>(
                        ErrorKind::SizeLimit,
                    ) && old(self).advanced(*final(self), 8, 8)
                    &&& old(self).limit.allows(8 + n) && s.len() < 8 + n ==> r == Err::<
                        &str,
                        ErrorKind,
                    >(ErrorKind::SizeLimit) && old(self).advanced(*final(self), 8, 8 + n)
                    &&& old(self).limit.allows(8 + n) && s.len() >= 8 + n ==> ({
                        let span = s.subrange(8, 8 + n as int);
                        &&& valid_utf8(span) ==> (r matches Ok(st) && vstd::utf8::encode_utf8(st@)
                            == span && old(self).consumed(*final(self), 8 + n))
                        &&& !valid_utf8(span) ==> r == Err::<&str, ErrorKind>(
                            ErrorKind::InvalidUtf8Encoding,
                        ) && old(self).advanced(*final(self), 8, 8 + n)
                    })
                }
            }),
    {
        proof {
            crate::config::lemma_charge_split(self.limit, 8, wire::u64_of_bytes(self.endian, self.bytes().take(8)) as nat);
        }
        let n = match self.deserialize_len() {
            Ok(n) => n,
            Err(k) => {
                return Err(k);
            },
        };
        match self.limit.add(n as u64) {
            Ok(()) => {},
            Err(k) => {
                return Err(k);
            },
        }
        let r = self.reader.forward_read_str(n);
        proof {
            if old(self).bytes().len() >= 8 + n {
                assert(old(self).bytes().skip(8).subrange(0, n as int) =~= old(
                    self,
                ).bytes().subrange(8, 8 + n as int));
                assert(old(self).bytes().skip(8).subrange(
                    n as int,
                    old(self).bytes().skip(8).len() as int,
                ) =~= old(self).bytes().skip(8 + n as int));
            }
        }
        r
    }

    /// Reads a string as an owned value: the same wire shape as
    /// [`Self::deserialize_str`], copied out of the input.
    pub fn deserialize_string(&mut self) -> (r: Result<String, ErrorKind>)
        ensures
            !old(self).limit.allows(8) ==> r == Err::<String, ErrorKind>(ErrorKind::SizeLimit)
                && *final(self) == *old(self),
            old(self).limit.allows(8) && old(self).bytes().len() < 8 ==> r == Err::<
                String,
                ErrorKind,
            >(ErrorKind::SizeLimit) && old(self).charged_only(*final(self), 8),
            old(self).limit.allows(8) && old(self).bytes().len() >= 8 ==> ({
                let s = old(self).bytes();
                let n = wire::u64_of_bytes(old(self).endian, s.take(8)) as nat;
                n <= usize::MAX && old(self).limit.allows(8 + n) && s.len() >= 8 + n
                    && vstd::utf8::valid_utf8(s.subrange(8, 8 + n as int)) ==> (r matches Ok(st)
                    && vstd::utf8::encode_utf8(st@) == s.subrange(8, 8 + n as int) && old(
                    self,
                ).consumed(*final(self), 8 + n))
            }),
    {
        match self.deserialize_str() {
            Ok(st) => Ok(st.to_owned()),
            Err(k) => Err(k),
        }
    }

    /// Reads a byte blob: a 64-bit length, then that many raw bytes,
    /// borrowed from the input.
    pub fn deserialize_bytes(&mut self) -> (r: Result<&'de [u8], ErrorKind>)
        ensures
            !old(self).limit.allows(8) ==> r == Err::<&[u8], ErrorKind>(ErrorKind::SizeLimit)
                && *final(self) == *old(self),
            old(self).limit.allows(8) && old(self).bytes().len() < 8 ==> r == Err::<
                &[u8],
                ErrorKind,
            >(ErrorKind::SizeLimit) && old(self).charged_only(*final(self), 8),
            old(self).limit.allows(8) && old(self).bytes().len() >= 8 ==> ({
                let s = old(self).bytes();
                let n = wire::u64_of_bytes(old(self).endian, s.take(8)) as nat;
                &&& n > usize::MAX ==> r == Err::<&[u8], ErrorKind>(ErrorKind::Serde) && old(
                    self,
                ).consumed(*final(self), 8)
                &&& n <= usize::MAX ==> {
                    &&& !old(self).limit.allows(8 + n) ==> r == Err::<&[u8], ErrorKind>(
                        ErrorKind::SizeLimit,
                    ) && old(self).advanced(*final(self), 8, 8)
                    &&& old(self).limit.allows(8 + n) && s.len() < 8 + n ==> r == Err::<
                        &[u8],
                        ErrorKind,
                    >(ErrorKind::SizeLimit) && old(self).advanced(*final(self), 8, 8 + n)
                    &&& old(self).limit.allows(8 + n) && s.len() >= 8 + n ==> (r matches Ok(sp)
                        && sp@ == s.subrange(8, 8 + n as int) && old(self).consumed(*final(self), 8 + n))
                }
            }),
    {
        proof {
            crate::config::lemma_charge_split(self.limit, 8, wire::u64_of_bytes(self.endian, self.bytes().take(8)) as nat);
        }
        let n = match self.deserialize_len() {
            Ok(n) => n,
            Err(k) => {
                return Err(k);
            },
        };
        match self.limit.add(n as u64) {
            Ok(()) => {},
            Err(k) => {
                return Err(k);
            },
        }
        let r = self.reader.forward_read_bytes(n);
        proof {
            if old(self).bytes().len() >= 8 + n {
                assert(old(self).bytes().skip(8).subrange(0, n as int) =~= old(
                    self,
                ).bytes().subrange(8, 8 + n as int));
                assert(old(self).bytes().skip(8).subrange(
                    n as int,
                    old(self).bytes().skip(8).len() as int,
                ) =~= old(self).bytes().skip(8 + n as int));
            }
        }
        r
    }

    /// Reads a byte blob as an owned value: the same wire shape as
    /// [`Self::deserialize_bytes`], copied out of the input.
    pub fn deserialize_byte_buf(&mut self) -> (r: Result<Vec<u8>, ErrorKind>)
        ensures
            !old(self).limit.allows(8) ==> r == Err::<Vec<u8>, ErrorKind>(ErrorKind::SizeLimit)
                && *final(self) == *old(self),
            old(self).limit.allows(8) && old(self).bytes().len() < 8 ==> r == Err::<
                Vec<u8>,
                ErrorKind,
            >(ErrorKind::SizeLimit) && old(self).charged_only(*final(self), 8),
            old(self).limit.allows(8) && old(self).bytes().len() >= 8 ==> ({
                let s = old(self).bytes();
                let n = wire::u64_of_bytes(old(self).endian, s.take(8)) as nat;
                n <= usize::MAX && old(self).limit.allows(8 + n) && s.len() >= 8 + n ==> (
                r matches Ok(b) && b@ == s.subrange(8, 8 + n as int) && old(self).consumed(
                    *final(self),
                    8 + n,
                ))
            }),
    {
        match self.deserialize_bytes() {
            Ok(sp) => Ok(vstd::slice::slice_to_vec(sp)),
            Err(k) => Err(k),
        }
    }

    /// This codec is not a human-readable format.
    pub fn is_human_readable(&self) -> (r: bool)
        ensures
            r == false,
    {
        false
    }
}

} // verus!
