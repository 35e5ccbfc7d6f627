//! A thin cursor over an immutable byte slice.
//!
//! The unread bytes are always a contiguous tail of the original slice; a
//! successful read hands bytes out and advances, a failed read reports
//! [`ErrorKind::SizeLimit`] and leaves the cursor where it was.

use crate::config::Endianness;
use crate::error::ErrorKind;
use crate::utf8::str_from_utf8;
use crate::wire;
use vstd::prelude::*;
use vstd::slice::{slice_subrange, slice_to_vec};

verus! {

/// A reader over a borrowed byte slice.
pub struct SliceReader<'storage> {
    /// The bytes not yet consumed.
    pub slice: &'storage [u8],
}

impl<'storage> SliceReader<'storage> {
    /// Constructs a slice reader over the caller's bytes.
    pub fn new(bytes: &'storage [u8]) -> (r: SliceReader<'storage>)
        ensures
            r.slice@ == bytes@,
    {
        SliceReader { slice: bytes }
    }

    /// Copies the next `n` bytes out and advances past them, or fails with
    /// [`ErrorKind::SizeLimit`] when fewer than `n` bytes remain.
    pub fn read_exact(&mut self, n: usize) -> (r: Result<Vec<u8>, ErrorKind>)
        ensures
            n <= old(self).slice@.len() ==> (r matches Ok(buf) && buf@ == old(
                self,
            ).slice@.subrange(0, n as int) && final(self).slice@ == old(self).slice@.subrange(
                n as int,
                old(self).slice@.len() as int,
            )),
            n > old(self).slice@.len() ==> r == Err::<Vec<u8>, ErrorKind>(ErrorKind::SizeLimit)
                && *final(self) == *old(self),
    {
        let len = self.slice.len();
        if n > len {
            return Err(ErrorKind::SizeLimit);
        }
        let head = slice_subrange(self.slice, 0, n);
        let buf = slice_to_vec(head);
        self.slice = slice_subrange(self.slice, n, len);
        Ok(buf)
    }

    /// Hands out the next `length` bytes as a borrowed slice and advances
    /// past them, or fails with [`ErrorKind::SizeLimit`] when fewer remain.
    pub fn forward_read_bytes(&mut self, length: usize) -> (r: Result<&'storage [u8], ErrorKind>)
        ensures
            length <= old(self).slice@.len() ==> (r matches Ok(sp) && sp@ == old(
                self,
            ).slice@.subrange(0, length as int) && final(self).slice@ == old(
                self,
            ).slice@.subrange(length as int, old(self).slice@.len() as int)),
            length > old(self).slice@.len() ==> r == Err::<&[u8], ErrorKind>(ErrorKind::SizeLimit)
                && *final(self) == *old(self),
    {
        let len = self.slice.len();
        if length > len {
            return Err(ErrorKind::SizeLimit);
        }
        let span = slice_subrange(self.slice, 0, length);
        self.slice = slice_subrange(self.slice, length, len);
        Ok(span)
    }

    /// Validates the next `length` bytes as UTF-8, hands them out as a
    /// borrowed string slice and advances past them.  Fails with
    /// [`ErrorKind::SizeLimit`] when fewer than `length` bytes remain and
    /// with [`ErrorKind::InvalidUtf8Encoding`] when they are not UTF-8; a
    /// failed read leaves the cursor in place.
    pub fn forward_read_str(&mut self, length: usize) -> (r: Result<&'storage str, ErrorKind>)
        ensures
            ({
                let span = old(self).slice@.subrange(0, length as int);
                &&& length > old(self).slice@.len() ==> r == Err::<&str, ErrorKind>(
                    ErrorKind::SizeLimit,
                ) && *final(self) == *old(self)
                &&& (length <= old(self).slice@.len() && !vstd::utf8::valid_utf8(span)) ==> r
                    == Err::<&str, ErrorKind>(ErrorKind::InvalidUtf8Encoding) && *final(self)
                    == *old(self)
                &&& (length <= old(self).slice@.len() && vstd::utf8::valid_utf8(span)) ==> (
                r matches Ok(st) && vstd::utf8::encode_utf8(st@) == span && final(self).slice@
                    == old(self).slice@.subrange(length as int, old(self).slice@.len() as int))
            }),
    {
        let len = self.slice.len();
        if length > len {
            return Err(ErrorKind::SizeLimit);
        }
        let span = slice_subrange(self.slice, 0, length);
        match str_from_utf8(span) {
            Some(st) => {
                self.slice = slice_subrange(self.slice, length, len);
                Ok(st)
            },
            None => Err(ErrorKind::InvalidUtf8Encoding),
        }
    }

    /// Reads a 16-bit integer in byte order `e` and advances, or fails with
    /// [`ErrorKind::SizeLimit`] when fewer than two bytes remain.
    pub fn read_u16(&mut self, e: Endianness) -> (r: Result<u16, ErrorKind>)
        ensures
            2 <= old(self).slice@.len() ==> r == Ok::<u16, ErrorKind>(
                wire::u16_of_bytes(e, old(self).slice@.subrange(0, 2)),
            ) && final(self).slice@ == old(self).slice@.subrange(
                2,
                old(self).slice@.len() as int,
            ),
            2 > old(self).slice@.len() ==> r == Err::<u16, ErrorKind>(ErrorKind::SizeLimit)
                && *final(self) == *old(self),
    {
        let len = self.slice.len();
        if len < 2 {
            return Err(ErrorKind::SizeLimit);
        }
        let head = slice_subrange(self.slice, 0, 2);
        let x = wire::u16_from_bytes(e, head);
        self.slice = slice_subrange(self.slice, 2, len);
        Ok(x)
    }

    /// Reads a 32-bit integer in byte order `e` and advances, or fails with
    /// [`ErrorKind::SizeLimit`] when fewer than four bytes remain.
    pub fn read_u32(&mut self, e: Endianness) -> (r: Result<u32, ErrorKind>)
        ensures
            4 <= old(self).slice@.len() ==> r == Ok::<u32, ErrorKind>(
                wire::u32_of_bytes(e, old(self).slice@.subrange(0, 4)),
            ) && final(self).slice@ == old(self).slice@.subrange(
                4,
                old(self).slice@.len() as int,
            ),
            4 > old(self).slice@.len() ==> r == Err::<u32, ErrorKind>(ErrorKind::SizeLimit)
                && *final(self) == *old(self),
    {
        let len = self.slice.len();
        if len < 4 {
            return Err(ErrorKind::SizeLimit);
        }
        let head = slice_subrange(self.slice, 0, 4);
        let x = wire::u32_from_bytes(e, head);
        self.slice = slice_subrange(self.slice, 4, len);
        Ok(x)
    }

    /// Reads a 64-bit integer in byte order `e` and advances, or fails with
    /// [`ErrorKind::SizeLimit`] when fewer than eight bytes remain.
    pub fn read_u64(&mut self, e: Endianness) -> (r: Result<u64, ErrorKind>)
        ensures
            8 <= old(self).slice@.len() ==> r == Ok::<u64, ErrorKind>(
                wire::u64_of_bytes(e, old(self).slice@.subrange(0, 8)),
            ) && final(self).slice@ == old(self).slice@.subrange(
                8,
                old(self).slice@.len() as int,
            ),
            8 > old(self).slice@.len() ==> r == Err::<u64, ErrorKind>(ErrorKind::SizeLimit)
                && *final(self) == *old(self),
    {
        let len = self.slice.len();
        if len < 8 {
            return Err(ErrorKind::SizeLimit);
        }
        let head = slice_subrange(self.slice, 0, 8);
        let x = wire::u64_from_bytes(e, head);
        self.slice = slice_subrange(self.slice, 8, len);
        Ok(x)
    }

    /// Reads a signed 16-bit integer in byte order `e`.
    pub fn read_i16(&mut self, e: Endianness) -> (r: Result<i16, ErrorKind>)
        ensures
            2 <= old(self).slice@.len() ==> r == Ok::<i16, ErrorKind>(
                wire::u16_of_bytes(e, old(self).slice@.subrange(0, 2)) as i16,
            ) && final(self).slice@ == old(self).slice@.subrange(
                2,
                old(self).slice@.len() as int,
            ),
            2 > old(self).slice@.len() ==> r == Err::<i16, ErrorKind>(ErrorKind::SizeLimit)
                && *final(self) == *old(self),
    {
        match self.read_u16(e) {
            Ok(x) => Ok(x as i16),
            Err(k) => Err(k),
        }
    }

    /// Reads a signed 32-bit integer in byte order `e`.
    pub fn read_i32(&mut self, e: Endianness) -> (r: Result<i32, ErrorKind>)
        ensures
            4 <= old(self).slice@.len() ==> r == Ok::<i32, ErrorKind>(
                wire::u32_of_bytes(e, old(self).slice@.subrange(0, 4)) as i32,
            ) && final(self).slice@ == old(self).slice@.subrange(
                4,
                old(self).slice@.len() as int,
            ),
            4 > old(self).slice@.len() ==> r == Err::<i32, ErrorKind>(ErrorKind::SizeLimit)
                && *final(self) == *old(self),
    {
        match self.read_u32(e) {
            Ok(x) => Ok(x as i32),
            Err(k) => Err(k),
        }
    }

    /// Reads a signed 64-bit integer in byte order `e`.
    pub fn read_i64(&mut self, e: Endianness) -> (r: Result<i64, ErrorKind>)
        ensures
            8 <= old(self).slice@.len() ==> r == Ok::<i64, ErrorKind>(
                wire::u64_of_bytes(e, old(self).slice@.subrange(0, 8)) as i64,
            ) && final(self).slice@ == old(self).slice@.subrange(
                8,
                old(self).slice@.len() as int,
            ),
            8 > old(self).slice@.len() ==> r == Err::<i64, ErrorKind>(ErrorKind::SizeLimit)
                && *final(self) == *old(self),
    {
        match self.read_u64(e) {
            Ok(x) => Ok(x as i64),
            Err(k) => Err(k),
        }
    }

    /// Reads the bit pattern of a 32-bit float in byte order `e`.
    pub fn read_f32_bits(&mut self, e: Endianness) -> (r: Result<u32, ErrorKind>)
        ensures
            4 <= old(self).slice@.len() ==> r == Ok::<u32, ErrorKind>(
                wire::u32_of_bytes(e, old(self).slice@.subrange(0, 4)),
            ) && final(self).slice@ == old(self).slice@.subrange(
                4,
                old(self).slice@.len() as int,
            ),
            4 > old(self).slice@.len() ==> r == Err::<u32, ErrorKind>(ErrorKind::SizeLimit)
                && *final(self) == *old(self),
    {
        self.read_u32(e)
    }

    /// Reads the bit pattern of a 64-bit float in byte order `e`.
    pub fn read_f64_bits(&mut self, e: Endianness) -> (r: Result<u64, ErrorKind>)
        ensures
            8 <= old(self).slice@.len() ==> r == Ok::<u64, ErrorKind>(
                wire::u64_of_bytes(e, old(self).slice@.subrange(0, 8)),
            ) && final(self).slice@ == old(self).slice@.subrange(
                8,
                old(self).slice@.len() as int,
            ),
            8 > old(self).slice@.len() ==> r == Err::<u64, ErrorKind>(ErrorKind::SizeLimit)
                && *final(self) == *old(self),
    {
        self.read_u64(e)
    }
}

} // verus!
