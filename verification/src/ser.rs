//! The encoder and the size-checker.
//!
//! [`Serializer`] appends wire bytes to a bounded output buffer, one
//! operation per value shape; every operation either writes exactly the
//! framed bytes or fails with [`ErrorKind::CapacityError`] once the buffer
//! is full, having filled it to the brim.  [`SizeChecker`] is the encoder's
//! dry-run twin: it writes nothing and instead accounts the same byte counts
//! against a byte budget.

use crate::config::{Endianness, SizeLimit};
use crate::error::ErrorKind;
use crate::utf8::{char_bytes, encode_utf8};
use crate::wire;
use vstd::prelude::*;

verus! {

/// An encoder that appends wire bytes to a bounded buffer.
pub struct Serializer {
    /// The output buffer written so far.
    pub out: Vec<u8>,
    /// The buffer's capacity in bytes; writes beyond it fail.
    pub cap: usize,
    /// Byte order for every multi-byte field.
    pub endian: Endianness,
}

impl Serializer {
    /// The buffer never holds more than its capacity.
    pub open spec fn wf(self) -> bool {
        self.out@.len() <= self.cap
    }

    /// Whether `n` more bytes fit in the buffer.
    pub open spec fn fits(self, n: nat) -> bool {
        self.out@.len() + n <= self.cap
    }

    /// The encoder wrote exactly `bytes`, leaving capacity and byte order
    /// untouched.
    pub open spec fn wrote(self, post: Serializer, bytes: Seq<u8>) -> bool {
        &&& post.cap == self.cap
        &&& post.endian == self.endian
        &&& post.out@ == self.out@ + bytes
    }

    /// The encoder ran out of room: it wrote the prefix of `bytes` that
    /// fills the buffer exactly, then stopped.
    pub open spec fn wrote_partial(self, post: Serializer, bytes: Seq<u8>) -> bool {
        &&& post.cap == self.cap
        &&& post.endian == self.endian
        &&& post.out@ == self.out@ + bytes.take(self.cap - self.out@.len())
        &&& post.out@.len() == self.cap
    }

    /// Creates a new encoder around the caller's buffer, which may already
    /// hold bytes, with the given capacity and byte order.
    pub fn new(out: Vec<u8>, cap: usize, endian: Endianness) -> (r: Serializer)
        requires
            out@.len() <= cap,
        ensures
            r.out == out,
            r.cap == cap,
            r.endian == endian,
            r.wf(),
    {
        Serializer { out, cap, endian }
    }

    /// Appends one byte, or fails once the buffer is full.
    fn push_byte(&mut self, b: u8) -> (r: Result<(), ErrorKind>)
        requires
            old(self).wf(),
        ensures
            old(self).fits(1) ==> r == Ok::<(), ErrorKind>(()) && old(self).wrote(
                *final(self),
                seq![b],
            ),
            !old(self).fits(1) ==> r == Err::<(), ErrorKind>(ErrorKind::CapacityError) && *final(self) == *old(self) && old(self).out@.len() == old(self).cap,
    {
        if self.out.len() < self.cap {
            self.out.push(b);
            assert(self.out@ =~= old(self).out@ + seq![b]);
            Ok(())
        } else {
            Err(ErrorKind::CapacityError)
        }
    }

    /// Appends a run of bytes one at a time, stopping at the first byte
    /// that does not fit.
    fn write_bytes(&mut self, bytes: &[u8]) -> (r: Result<(), ErrorKind>)
        requires
            old(self).wf(),
        ensures
            old(self).fits(bytes@.len()) ==> r == Ok::<(), ErrorKind>(()) && old(self).wrote(
                *final(self),
                bytes@,
            ),
            !old(self).fits(bytes@.len()) ==> r == Err::<(), ErrorKind>(ErrorKind::CapacityError)
                && old(self).wrote_partial(*final(self), bytes@),
    {
        let n = bytes.len();
        let mut i: usize = 0;
        while i < n
            invariant
                i <= n,
                n == bytes@.len(),
                self.wf(),
                self.cap == old(self).cap,
                self.endian == old(self).endian,
                self.out@ == old(self).out@ + bytes@.take(i as int),
                old(self).wf(),
            decreases n - i,
        {
            match self.push_byte(*vstd::slice::slice_index_get(bytes, i)) {
                Ok(()) => {
                    assert(self.out@ =~= old(self).out@ + bytes@.take(i + 1));
                    i = i + 1;
                },
                Err(k) => {
                    proof {
                        assert(self.out@.len() == self.cap);
                        assert(i == self.cap - old(self).out@.len());
                        assert(old(self).out@.len() + bytes@.len() > old(self).cap);
                    }
                    return Err(k);
                },
            }
        }
        assert(self.out@ =~= old(self).out@ + bytes@);
        Ok(())
    }

    /// A unit value contributes no bytes.
    pub fn serialize_unit(&mut self) -> (r: Result<(), ErrorKind>)
        requires
            old(self).wf(),
        ensures
            r == Ok::<(), ErrorKind>(()),
            *final(self) == *old(self),
    {
        Ok(())
    }

    /// A unit record contributes no bytes.
    pub fn serialize_unit_struct(&mut self) -> (r: Result<(), ErrorKind>)
        requires
            old(self).wf(),
        ensures
            r == Ok::<(), ErrorKind>(()),
            *final(self) == *old(self),
    {
        Ok(())
    }

    /// Writes a boolean as one byte: 1 for true, 0 for false.
    pub fn serialize_bool(&mut self, v: bool) -> (r: Result<(), ErrorKind>)
        requires
            old(self).wf(),
        ensures
            old(self).fits(1) ==> r == Ok::<(), ErrorKind>(()) && old(self).wrote(
                *final(self),
                seq![if v { 1u8 } else { 0u8 }],
            ),
            !old(self).fits(1) ==> r == Err::<(), ErrorKind>(ErrorKind::CapacityError) && old(self).wrote_partial(*final(self), seq![if v { 1u8 } else { 0u8 }]),
    {
        let r = self.push_byte(if v {
            1
        } else {
            0
        });
        proof {
            if !old(self).fits(1) {
                assert(self.out@ =~= old(self).out@ + seq![if v { 1u8 } else { 0u8 }].take(0));
            }
        }
        r
    }

    /// Writes an unsigned byte as itself.
    pub fn serialize_u8(&mut self, v: u8) -> (r: Result<(), ErrorKind>)
        requires
            old(self).wf(),
        ensures
            old(self).fits(1) ==> r == Ok::<(), ErrorKind>(()) && old(self).wrote(
                *final(self),
                seq![v],
            ),
            !old(self).fits(1) ==> r == Err::<(), ErrorKind>(ErrorKind::CapacityError) && old(self).wrote_partial(*final(self), seq![v]),
    {
        let r = self.push_byte(v);
        proof {
            if !old(self).fits(1) {
                assert(self.out@ =~= old(self).out@ + seq![v].take(0));
            }
        }
        r
    }

    /// Writes a signed byte as its two's-complement byte.
    pub fn serialize_i8(&mut self, v: i8) -> (r: Result<(), ErrorKind>)
        requires
            old(self).wf(),
        ensures
            old(self).fits(1) ==> r == Ok::<(), ErrorKind>(()) && old(self).wrote(
                *final(self),
                seq![v as u8],
            ),
            !old(self).fits(1) ==> r == Err::<(), ErrorKind>(ErrorKind::CapacityError) && old(self).wrote_partial(*final(self), seq![v as u8]),
    {
        self.serialize_u8(v as u8)
    }

    /// Writes a 16-bit integer in the configured byte order.
    pub fn serialize_u16(&mut self, v: u16) -> (r: Result<(), ErrorKind>)
        requires
            old(self).wf(),
        ensures
            old(self).fits(2) ==> r == Ok::<(), ErrorKind>(()) && old(self).wrote(
                *final(self),
                wire::u16_bytes(old(self).endian, v),
            ),
            !old(self).fits(2) ==> r == Err::<(), ErrorKind>(ErrorKind::CapacityError) && old(self).wrote_partial(*final(self), wire::u16_bytes(old(self).endian, v)),
    {
        proof {
            wire::lemma_u16_bytes(self.endian);
        }
        let buf = wire::u16_to_bytes(self.endian, v);
        self.write_bytes(buf.as_slice())
    }

    /// Writes a 32-bit integer in the configured byte order.
    pub fn serialize_u32(&mut self, v: u32) -> (r: Result<(), ErrorKind>)
        requires
            old(self).wf(),
        ensures
            old(self).fits(4) ==> r == Ok::<(), ErrorKind>(()) && old(self).wrote(
                *final(self),
                wire::u32_bytes(old(self).endian, v),
            ),
            !old(self).fits(4) ==> r == Err::<(), ErrorKind>(ErrorKind::CapacityError) && old(self).wrote_partial(*final(self), wire::u32_bytes(old(self).endian, v)),
    {
        proof {
            wire::lemma_u32_bytes(self.endian);
        }
        let buf = wire::u32_to_bytes(self.endian, v);
        self.write_bytes(buf.as_slice())
    }

    /// Writes a 64-bit integer in the configured byte order.
    pub fn serialize_u64(&mut self, v: u64) -> (r: Result<(), ErrorKind>)
        requires
            old(self).wf(),
        ensures
            old(self).fits(8) ==> r == Ok::<(), ErrorKind>(()) && old(self).wrote(
                *final(self),
                wire::u64_bytes(old(self).endian, v),
            ),
            !old(self).fits(8) ==> r == Err::<(), ErrorKind>(ErrorKind::CapacityError) && old(self).wrote_partial(*final(self), wire::u64_bytes(old(self).endian, v)),
    {
        proof {
            wire::lemma_u64_bytes(self.endian);
        }
        let buf = wire::u64_to_bytes(self.endian, v);
        self.write_bytes(buf.as_slice())
    }

    /// Writes a signed 16-bit integer as its two's-complement bytes.
    pub fn serialize_i16(&mut self, v: i16) -> (r: Result<(), ErrorKind>)
        requires
            old(self).wf(),
        ensures
            old(self).fits(2) ==> r == Ok::<(), ErrorKind>(()) && old(self).wrote(
                *final(self),
                wire::u16_bytes(old(self).endian, v as u16),
            ),
            !old(self).fits(2) ==> r == Err::<(), ErrorKind>(ErrorKind::CapacityError) && old(self).wrote_partial(*final(self), wire::u16_bytes(old(self).endian, v as u16)),
    {
        self.serialize_u16(v as u16)
    }

    /// Writes a signed 32-bit integer as its two's-complement bytes.
    pub fn serialize_i32(&mut self, v: i32) -> (r: Result<(), ErrorKind>)
        requires
            old(self).wf(),
        ensures
            old(self).fits(4) ==> r == Ok::<(), ErrorKind>(()) && old(self).wrote(
                *final(self),
                wire::u32_bytes(old(self).endian, v as u32),
            ),
            !old(self).fits(4) ==> r == Err::<(), ErrorKind>(ErrorKind::CapacityError) && old(self).wrote_partial(*final(self), wire::u32_bytes(old(self).endian, v as u32)),
    {
        self.serialize_u32(v as u32)
    }

    /// Writes a signed 64-bit integer as its two's-complement bytes.
    pub fn serialize_i64(&mut self, v: i64) -> (r: Result<(), ErrorKind>)
        requires
            old(self).wf(),
        ensures
            old(self).fits(8) ==> r == Ok::<(), ErrorKind>(()) && old(self).wrote(
                *final(self),
                wire::u64_bytes(old(self).endian, v as u64),
            ),
            !old(self).fits(8) ==> r == Err::<(), ErrorKind>(ErrorKind::CapacityError) && old(self).wrote_partial(*final(self), wire::u64_bytes(old(self).endian, v as u64)),
    {
        self.serialize_u64(v as u64)
    }

    /// 128-bit integers are not part of this wire format; the caller gets an
    /// explicit error rather than a silent truncation.
    pub fn serialize_u128(&mut self, v: u128) -> (r: Result<(), ErrorKind>)
        requires
            old(self).wf(),
        ensures
            r == Err::<(), ErrorKind>(ErrorKind::Serde),
            *final(self) == *old(self),
    {
        let _ = v;
        Err(ErrorKind::Serde)
    }

    /// 128-bit integers are not part of this wire format; the caller gets an
    /// explicit error rather than a silent truncation.
    pub fn serialize_i128(&mut self, v: i128) -> (r: Result<(), ErrorKind>)
        requires
            old(self).wf(),
        ensures
            r == Err::<(), ErrorKind>(ErrorKind::Serde),
            *final(self) == *old(self),
    {
        let _ = v;
        Err(ErrorKind::Serde)
    }

    /// Writes the IEEE-754 bit pattern of a 32-bit float, given as bits.
    pub fn serialize_f32_bits(&mut self, bits: u32) -> (r: Result<(), ErrorKind>)
        requires
            old(self).wf(),
        ensures
            old(self).fits(4) ==> r == Ok::<(), ErrorKind>(()) && old(self).wrote(
                *final(self),
                wire::u32_bytes(old(self).endian, bits),
            ),
            !old(self).fits(4) ==> r == Err::<(), ErrorKind>(ErrorKind::CapacityError) && old(self).wrote_partial(*final(self), wire::u32_bytes(old(self).endian, bits)),
    {
        self.serialize_u32(bits)
    }

    /// Writes the IEEE-754 bit pattern of a 64-bit float, given as bits.
    pub fn serialize_f64_bits(&mut self, bits: u64) -> (r: Result<(), ErrorKind>)
        requires
            old(self).wf(),
        ensures
            old(self).fits(8) ==> r == Ok::<(), ErrorKind>(()) && old(self).wrote(
                *final(self),
                wire::u64_bytes(old(self).endian, bits),
            ),
            !old(self).fits(8) ==> r == Err::<(), ErrorKind>(ErrorKind::CapacityError) && old(self).wrote_partial(*final(self), wire::u64_bytes(old(self).endian, bits)),
    {
        self.serialize_u64(bits)
    }

    /// Writes a character as its one to four UTF-8 bytes, with no prefix.
    pub fn serialize_char(&mut self, c: char) -> (r: Result<(), ErrorKind>)
        requires
            old(self).wf(),
        ensures
            old(self).fits(char_bytes(c).len()) ==> r == Ok::<(), ErrorKind>(()) && old(self).wrote(*final(self), char_bytes(c)),
            !old(self).fits(char_bytes(c).len()) ==> r == Err::<(), ErrorKind>(
                ErrorKind::CapacityError,
            ) && old(self).wrote_partial(*final(self), char_bytes(c)),
    {
        let enc = encode_utf8(c);
        self.write_bytes(enc.as_slice())
    }

    /// Writes a string: its byte length as a 64-bit prefix, then its UTF-8
    /// bytes.
    pub fn serialize_str(&mut self, v: &str) -> (r: Result<(), ErrorKind>)
        requires
            old(self).wf(),
        ensures
            ({
                let payload = vstd::utf8::encode_utf8(v@);
                let bytes = wire::u64_bytes(old(self).endian, payload.len() as u64) + payload;
                &&& old(self).fits(bytes.len()) ==> r == Ok::<(), ErrorKind>(()) && old(self).wrote(*final(self), bytes)
                &&& !old(self).fits(bytes.len()) ==> r == Err::<(), ErrorKind>(
                    ErrorKind::CapacityError,
                ) && old(self).wrote_partial(*final(self), bytes)
            }),
    {
        let b = v.as_bytes();
        self.serialize_bytes(b)
    }

    /// Writes a byte blob: its length as a 64-bit prefix, then the raw
    /// bytes.
    pub fn serialize_bytes(&mut self, v: &[u8]) -> (r: Result<(), ErrorKind>)
        requires
            old(self).wf(),
        ensures
            ({
                let bytes = wire::u64_bytes(old(self).endian, v@.len() as u64) + v@;
                &&& old(self).fits(bytes.len()) ==> r == Ok::<(), ErrorKind>(()) && old(self).wrote(*final(self), bytes)
                &&& !old(self).fits(bytes.len()) ==> r == Err::<(), ErrorKind>(
                    ErrorKind::CapacityError,
                ) && old(self).wrote_partial(*final(self), bytes)
            }),
    {
        let ghost pre = u64_bytes_of_len(old(self).endian, v@.len());
        let ghost whole = pre + v@;
        proof {
            wire::lemma_u64_bytes(self.endian);
        }
        let len64: u64 = v.len() as u64;
        match self.serialize_u64(len64) {
            Ok(()) => {},
            Err(k) => {
                proof {
                    wire::lemma_take_concat(pre, v@, self.cap - old(self).out@.len());
                }
                return Err(k);
            },
        }
        let r = self.write_bytes(v);
        proof {
            if old(self).fits(whole.len()) {
                assert(self.out@ =~= old(self).out@ + whole);
            } else {
                wire::lemma_take_concat(pre, v@, self.cap - old(self).out@.len());
                assert(self.out@ =~= old(self).out@ + whole.take(
                    self.cap - old(self).out@.len(),
                ));
            }
        }
        r
    }

    /// Writes the one-byte tag of an absent optional.
    pub fn serialize_none(&mut self) -> (r: Result<(), ErrorKind>)
        requires
            old(self).wf(),
        ensures
            old(self).fits(1) ==> r == Ok::<(), ErrorKind>(()) && old(self).wrote(
                *final(self),
                seq![0u8],
            ),
            !old(self).fits(1) ==> r == Err::<(), ErrorKind>(ErrorKind::CapacityError) && old(self).wrote_partial(*final(self), seq![0u8]),
    {
        self.serialize_u8(0)
    }

    /// Writes the one-byte tag of a present optional; the payload's bytes
    /// follow through further calls.
    pub fn serialize_some(&mut self) -> (r: Result<(), ErrorKind>)
        requires
            old(self).wf(),
        ensures
            old(self).fits(1) ==> r == Ok::<(), ErrorKind>(()) && old(self).wrote(
                *final(self),
                seq![1u8],
            ),
            !old(self).fits(1) ==> r == Err::<(), ErrorKind>(ErrorKind::CapacityError) && old(self).wrote_partial(*final(self), seq![1u8]),
    {
        self.serialize_u8(1)
    }

    /// Begins a sequence: writes the element count as a 64-bit prefix.  A
    /// sequence of unknown length cannot be encoded.
    pub fn serialize_seq(&mut self, len: Option<usize>) -> (r: Result<(), ErrorKind>)
        requires
            old(self).wf(),
        ensures
            len is None ==> r == Err::<(), ErrorKind>(ErrorKind::SequenceMustHaveLength) && *final(self) == *old(self),
            len matches Some(n) ==> {
                &&& old(self).fits(8) ==> r == Ok::<(), ErrorKind>(()) && old(self).wrote(
                    *final(self),
                    wire::u64_bytes(old(self).endian, n as u64),
                )
                &&& !old(self).fits(8) ==> r == Err::<(), ErrorKind>(ErrorKind::CapacityError)
                    && old(self).wrote_partial(
                    *final(self),
                    wire::u64_bytes(old(self).endian, n as u64),
                )
            },
    {
        match len {
            None => Err(ErrorKind::SequenceMustHaveLength),
            Some(n) => self.serialize_u64(n as u64),
        }
    }

    /// Begins a map: writes the pair count as a 64-bit prefix.  A map of
    /// unknown length cannot be encoded.
    pub fn serialize_map(&mut self, len: Option<usize>) -> (r: Result<(), ErrorKind>)
        requires
            old(self).wf(),
        ensures
            len is None ==> r == Err::<(), ErrorKind>(ErrorKind::SequenceMustHaveLength) && *final(self) == *old(self),
            len matches Some(n) ==> {
                &&& old(self).fits(8) ==> r == Ok::<(), ErrorKind>(()) && old(self).wrote(
                    *final(self),
                    wire::u64_bytes(old(self).endian, n as u64),
                )
                &&& !old(self).fits(8) ==> r == Err::<(), ErrorKind>(ErrorKind::CapacityError)
                    && old(self).wrote_partial(
                    *final(self),
                    wire::u64_bytes(old(self).endian, n as u64),
                )
            },
    {
        self.serialize_seq(len)
    }

    /// Begins a tuple: tuples carry no prefix, so nothing is written.
    pub fn serialize_tuple(&mut self, len: usize) -> (r: Result<(), ErrorKind>)
        requires
            old(self).wf(),
        ensures
            r == Ok::<(), ErrorKind>(()),
            *final(self) == *old(self),
    {
        let _ = len;
        Ok(())
    }

    /// Begins a record: records carry no prefix, so nothing is written.
    pub fn serialize_struct(&mut self, len: usize) -> (r: Result<(), ErrorKind>)
        requires
            old(self).wf(),
        ensures
            r == Ok::<(), ErrorKind>(()),
            *final(self) == *old(self),
    {
        let _ = len;
        Ok(())
    }

    /// Begins a tagged variant: writes the 32-bit variant index; the
    /// payload's bytes follow through further calls.
    pub fn serialize_variant_index(&mut self, variant_index: u32) -> (r: Result<(), ErrorKind>)
        requires
            old(self).wf(),
        ensures
            old(self).fits(4) ==> r == Ok::<(), ErrorKind>(()) && old(self).wrote(
                *final(self),
                wire::u32_bytes(old(self).endian, variant_index),
            ),
            !old(self).fits(4) ==> r == Err::<(), ErrorKind>(ErrorKind::CapacityError) && old(self).wrote_partial(*final(self), wire::u32_bytes(old(self).endian, variant_index)),
    {
        self.serialize_u32(variant_index)
    }

    /// Begins a formatted string of unknown length: reserves eight bytes
    /// for the length prefix and returns their offset for back-patching.
    pub fn collect_str_begin(&mut self) -> (r: Result<usize, ErrorKind>)
        requires
            old(self).wf(),
        ensures
            old(self).fits(8) ==> (r matches Ok(pos) && pos == old(self).out@.len() && old(self).wrote(*final(self), wire::u64_bytes(old(self).endian, 0))),
            !old(self).fits(8) ==> r == Err::<usize, ErrorKind>(ErrorKind::CapacityError) && old(self).wrote_partial(*final(self), wire::u64_bytes(old(self).endian, 0)),
    {
        let pos = self.out.len();
        match self.serialize_u64(0) {
            Ok(()) => Ok(pos),
            Err(k) => Err(k),
        }
    }

    /// Streams one chunk of a formatted string into the buffer.
    pub fn collect_str_push(&mut self, chunk: &[u8]) -> (r: Result<(), ErrorKind>)
        requires
            old(self).wf(),
        ensures
            old(self).fits(chunk@.len()) ==> r == Ok::<(), ErrorKind>(()) && old(self).wrote(
                *final(self),
                chunk@,
            ),
            !old(self).fits(chunk@.len()) ==> r == Err::<(), ErrorKind>(ErrorKind::CapacityError)
                && old(self).wrote_partial(*final(self), chunk@),
    {
        self.write_bytes(chunk)
    }

    /// Ends a formatted string: overwrites the eight reserved bytes at
    /// `pos` with the number of payload bytes streamed after them.  This is
    /// the codec's only retroactive write.
    pub fn collect_str_end(&mut self, pos: usize) -> (r: Result<(), ErrorKind>)
        requires
            old(self).wf(),
            pos + 8 <= old(self).out@.len(),
        ensures
            r == Ok::<(), ErrorKind>(()),
            final(self).cap == old(self).cap,
            final(self).endian == old(self).endian,
            final(self).out@ == old(self).out@.subrange(0, pos as int) + wire::u64_bytes(
                old(self).endian,
                (old(self).out@.len() - pos - 8) as u64,
            ) + old(self).out@.subrange(pos + 8, old(self).out@.len() as int),
    {
        let len: u64 = (self.out.len() - pos - 8) as u64;
        let prefix = wire::u64_to_bytes(self.endian, len);
        proof {
            wire::lemma_u64_bytes(self.endian);
        }
        let end = self.out.len();
        let mut i: usize = 0;
        while i < 8
            invariant
                i <= 8,
                end == self.out@.len(),
                pos + 8 <= end,
                pos + 8 <= self.out@.len(),
                prefix@.len() == 8,
                self.cap == old(self).cap,
                self.endian == old(self).endian,
                self.out@.len() == old(self).out@.len(),
                forall|j: int|
                    0 <= j < self.out@.len() && !(pos <= j < pos + i) ==> self.out@[j] == old(self).out@[j],
                forall|j: int| 0 <= j < i ==> self.out@[pos + j] == prefix@[j],
            decreases 8 - i,
        {
            let b = prefix[i];
            self.out[pos + i] = b;
            i = i + 1;
        }
        assert(self.out@ =~= old(self).out@.subrange(0, pos as int) + prefix@ + old(self).out@.subrange(pos + 8, old(self).out@.len() as int));
        Ok(())
    }

    /// This codec is not a human-readable format.
    pub fn is_human_readable(&self) -> (r: bool)
        ensures
            r == false,
    {
        false
    }
}

/// The 64-bit length prefix written for a payload of `n` bytes.
pub open spec fn u64_bytes_of_len(e: Endianness, n: nat) -> Seq<u8> {
    wire::u64_bytes(e, n as u64)
}

/// The encoder's dry-run twin: accounts the bytes every operation would
/// write, against a byte budget, without producing them.
pub struct SizeChecker {
    /// The byte budget still available.
    pub limit: SizeLimit,
    /// The number of bytes accounted so far.
    pub written: u64,
}

impl SizeChecker {
    /// Whether `n` more bytes can be accounted: the budget allows them and
    /// the running total does not overflow.
    pub open spec fn can_add(self, n: nat) -> bool {
        self.limit.allows(n) && self.written + n <= u64::MAX
    }

    /// The checker's state after accounting `n` more bytes.
    pub open spec fn after_add(self, n: nat) -> SizeChecker
        recommends
            self.can_add(n),
    {
        SizeChecker { limit: self.limit.charge(n), written: (self.written + n) as u64 }
    }

    /// Creates a size-checker seeded from the byte-budget policy.
    pub fn new(limit: SizeLimit) -> (r: SizeChecker)
        ensures
            r.limit == limit,
            r.written == 0,
    {
        SizeChecker { limit, written: 0 }
    }

    /// Accounts `n` raw bytes.
    fn add_raw(&mut self, n: u64) -> (r: Result<(), ErrorKind>)
        ensures
            old(self).can_add(n as nat) ==> r == Ok::<(), ErrorKind>(()) && *final(self) == old(
                self,
            ).after_add(n as nat),
            !old(self).can_add(n as nat) ==> r == Err::<(), ErrorKind>(ErrorKind::SizeLimit)
                && *final(self) == *old(self),
    {
        if n > u64::MAX - self.written {
            return Err(ErrorKind::SizeLimit);
        }
        match self.limit.add(n) {
            Ok(()) => {
                self.written = self.written + n;
                Ok(())
            },
            Err(k) => Err(k),
        }
    }

    /// Accounts an eight-byte length prefix followed by `n` payload bytes.
    fn add_prefixed(&mut self, n: u64) -> (r: Result<(), ErrorKind>)
        ensures
            old(self).can_add(8 + n as nat) ==> r == Ok::<(), ErrorKind>(()) && *final(self)
                == old(self).after_add(8 + n as nat),
            !old(self).can_add(8 + n as nat) ==> r == Err::<(), ErrorKind>(ErrorKind::SizeLimit)
                && *final(self) == (if old(self).can_add(8) {
                old(self).after_add(8)
            } else {
                *old(self)
            }),
    {
        proof {
            crate::config::lemma_charge_split(self.limit, 8, n as nat);
        }
        match self.add_raw(8) {
            Ok(()) => self.add_raw(n),
            Err(k) => Err(k),
        }
    }

    /// A unit value occupies no bytes.
    pub fn serialize_unit(&mut self) -> (r: Result<(), ErrorKind>)
        ensures
            r == Ok::<(), ErrorKind>(()),
            *final(self) == *old(self),
    {
        Ok(())
    }

    /// A unit record occupies no bytes.
    pub fn serialize_unit_struct(&mut self) -> (r: Result<(), ErrorKind>)
        ensures
            r == Ok::<(), ErrorKind>(()),
            *final(self) == *old(self),
    {
        Ok(())
    }

    /// A boolean occupies one byte.
    pub fn serialize_bool(&mut self, v: bool) -> (r: Result<(), ErrorKind>)
        ensures
            old(self).can_add(1) ==> r == Ok::<(), ErrorKind>(()) && *final(self) == old(
                self,
            ).after_add(1),
            !old(self).can_add(1) ==> r == Err::<(), ErrorKind>(ErrorKind::SizeLimit) && *final(self) == *old(self),
    {
        let _ = v;
        self.add_raw(1)
    }

    /// An unsigned byte occupies one byte.
    pub fn serialize_u8(&mut self, v: u8) -> (r: Result<(), ErrorKind>)
        ensures
            old(self).can_add(1) ==> r == Ok::<(), ErrorKind>(()) && *final(self) == old(
                self,
            ).after_add(1),
            !old(self).can_add(1) ==> r == Err::<(), ErrorKind>(ErrorKind::SizeLimit) && *final(self) == *old(self),
    {
        let _ = v;
        self.add_raw(1)
    }

    /// A signed byte occupies one byte.
    pub fn serialize_i8(&mut self, v: i8) -> (r: Result<(), ErrorKind>)
        ensures
            old(self).can_add(1) ==> r == Ok::<(), ErrorKind>(()) && *final(self) == old(
                self,
            ).after_add(1),
            !old(self).can_add(1) ==> r == Err::<(), ErrorKind>(ErrorKind::SizeLimit) && *final(self) == *old(self),
    {
        let _ = v;
        self.add_raw(1)
    }

    /// A 16-bit integer occupies two bytes.
    pub fn serialize_u16(&mut self, v: u16) -> (r: Result<(), ErrorKind>)
        ensures
            old(self).can_add(2) ==> r == Ok::<(), ErrorKind>(()) && *final(self) == old(
                self,
            ).after_add(2),
            !old(self).can_add(2) ==> r == Err::<(), ErrorKind>(ErrorKind::SizeLimit) && *final(self) == *old(self),
    {
        let _ = v;
        self.add_raw(2)
    }

    /// A 32-bit integer occupies four bytes.
    pub fn serialize_u32(&mut self, v: u32) -> (r: Result<(), ErrorKind>)
        ensures
            old(self).can_add(4) ==> r == Ok::<(), ErrorKind>(()) && *final(self) == old(
                self,
            ).after_add(4),
            !old(self).can_add(4) ==> r == Err::<(), ErrorKind>(ErrorKind::SizeLimit) && *final(self) == *old(self),
    {
        let _ = v;
        self.add_raw(4)
    }

    /// A 64-bit integer occupies eight bytes.
    pub fn serialize_u64(&mut self, v: u64) -> (r: Result<(), ErrorKind>)
        ensures
            old(self).can_add(8) ==> r == Ok::<(), ErrorKind>(()) && *final(self) == old(
                self,
            ).after_add(8),
            !old(self).can_add(8) ==> r == Err::<(), ErrorKind>(ErrorKind::SizeLimit) && *final(self) == *old(self),
    {
        let _ = v;
        self.add_raw(8)
    }

    /// A signed 16-bit integer occupies two bytes.
    pub fn serialize_i16(&mut self, v: i16) -> (r: Result<(), ErrorKind>)
        ensures
            old(self).can_add(2) ==> r == Ok::<(), ErrorKind>(()) && *final(self) == old(
                self,
            ).after_add(2),
            !old(self).can_add(2) ==> r == Err::<(), ErrorKind>(ErrorKind::SizeLimit) && *final(self) == *old(self),
    {
        let _ = v;
        self.add_raw(2)
    }

    /// A signed 32-bit integer occupies four bytes.
    pub fn serialize_i32(&mut self, v: i32) -> (r: Result<(), ErrorKind>)
        ensures
            old(self).can_add(4) ==> r == Ok::<(), ErrorKind>(()) && *final(self) == old(
                self,
            ).after_add(4),
            !old(self).can_add(4) ==> r == Err::<(), ErrorKind>(ErrorKind::SizeLimit) && *final(self) == *old(self),
    {
        let _ = v;
        self.add_raw(4)
    }

    /// A signed 64-bit integer occupies eight bytes.
    pub fn serialize_i64(&mut self, v: i64) -> (r: Result<(), ErrorKind>)
        ensures
            old(self).can_add(8) ==> r == Ok::<(), ErrorKind>(()) && *final(self) == old(
                self,
            ).after_add(8),
            !old(self).can_add(8) ==> r == Err::<(), ErrorKind>(ErrorKind::SizeLimit) && *final(self) == *old(self),
    {
        let _ = v;
        self.add_raw(8)
    }

    /// 128-bit integers are not part of this wire format.
    pub fn serialize_u128(&mut self, v: u128) -> (r: Result<(), ErrorKind>)
        ensures
            r == Err::<(), ErrorKind>(ErrorKind::Serde),
            *final(self) == *old(self),
    {
        let _ = v;
        Err(ErrorKind::Serde)
    }

    /// 128-bit integers are not part of this wire format.
    pub fn serialize_i128(&mut self, v: i128) -> (r: Result<(), ErrorKind>)
        ensures
            r == Err::<(), ErrorKind>(ErrorKind::Serde),
            *final(self) == *old(self),
    {
        let _ = v;
        Err(ErrorKind::Serde)
    }

    /// A 32-bit float occupies four bytes.
    pub fn serialize_f32_bits(&mut self, bits: u32) -> (r: Result<(), ErrorKind>)
        ensures
            old(self).can_add(4) ==> r == Ok::<(), ErrorKind>(()) && *final(self) == old(
                self,
            ).after_add(4),
            !old(self).can_add(4) ==> r == Err::<(), ErrorKind>(ErrorKind::SizeLimit) && *final(self) == *old(self),
    {
        let _ = bits;
        self.add_raw(4)
    }

    /// A 64-bit float occupies eight bytes.
    pub fn serialize_f64_bits(&mut self, bits: u64) -> (r: Result<(), ErrorKind>)
        ensures
            old(self).can_add(8) ==> r == Ok::<(), ErrorKind>(()) && *final(self) == old(
                self,
            ).after_add(8),
            !old(self).can_add(8) ==> r == Err::<(), ErrorKind>(ErrorKind::SizeLimit) && *final(self) == *old(self),
    {
        let _ = bits;
        self.add_raw(8)
    }

    /// A character occupies the length of its UTF-8 encoding.
    pub fn serialize_char(&mut self, c: char) -> (r: Result<(), ErrorKind>)
        ensures
            old(self).can_add(char_bytes(c).len()) ==> r == Ok::<(), ErrorKind>(()) && *final(self) == old(self).after_add(char_bytes(c).len()),
            !old(self).can_add(char_bytes(c).len()) ==> r == Err::<(), ErrorKind>(
                ErrorKind::SizeLimit,
            ) && *final(self) == *old(self),
    {
        let enc = encode_utf8(c);
        self.add_raw(enc.as_slice().len() as u64)
    }

    /// A string occupies an eight-byte prefix plus its UTF-8 bytes.
    pub fn serialize_str(&mut self, v: &str) -> (r: Result<(), ErrorKind>)
        ensures
            vstd::utf8::encode_utf8(v@).len() <= usize::MAX,
            ({
                let n = vstd::utf8::encode_utf8(v@).len();
                &&& old(self).can_add(8 + n) ==> r == Ok::<(), ErrorKind>(()) && *final(self)
                    == old(self).after_add(8 + n)
                &&& !old(self).can_add(8 + n) ==> r == Err::<(), ErrorKind>(ErrorKind::SizeLimit)
                    && *final(self) == (if old(self).can_add(8) {
                    old(self).after_add(8)
                } else {
                    *old(self)
                })
            }),
    {
        let b = v.as_bytes();
        self.add_prefixed(b.len() as u64)
    }

    /// A byte blob occupies an eight-byte prefix plus its raw bytes.
    pub fn serialize_bytes(&mut self, v: &[u8]) -> (r: Result<(), ErrorKind>)
        ensures
            v@.len() <= usize::MAX,
            ({
                let n = v@.len();
                &&& old(self).can_add(8 + n) ==> r == Ok::<(), ErrorKind>(()) && *final(self)
                    == old(self).after_add(8 + n)
                &&& !old(self).can_add(8 + n) ==> r == Err::<(), ErrorKind>(ErrorKind::SizeLimit)
                    && *final(self) == (if old(self).can_add(8) {
                    old(self).after_add(8)
                } else {
                    *old(self)
                })
            }),
    {
        self.add_prefixed(v.len() as u64)
    }

    /// A formatted string of `n` payload bytes occupies an eight-byte
    /// prefix plus those bytes; the caller counts them by running the
    /// formatter against a counting sink.
    pub fn collect_str_len(&mut self, n: u64) -> (r: Result<(), ErrorKind>)
        ensures
            old(self).can_add(8 + n as nat) ==> r == Ok::<(), ErrorKind>(()) && *final(self)
                == old(self).after_add(8 + n as nat),
            !old(self).can_add(8 + n as nat) ==> r == Err::<(), ErrorKind>(ErrorKind::SizeLimit)
                && *final(self) == (if old(self).can_add(8) {
                old(self).after_add(8)
            } else {
                *old(self)
            }),
    {
        self.add_prefixed(n)
    }

    /// The tag of an absent optional occupies one byte.
    pub fn serialize_none(&mut self) -> (r: Result<(), ErrorKind>)
        ensures
            old(self).can_add(1) ==> r == Ok::<(), ErrorKind>(()) && *final(self) == old(
                self,
            ).after_add(1),
            !old(self).can_add(1) ==> r == Err::<(), ErrorKind>(ErrorKind::SizeLimit) && *final(self) == *old(self),
    {
        self.add_raw(1)
    }

    /// The tag of a present optional occupies one byte; the payload is
    /// accounted through further calls.
    pub fn serialize_some(&mut self) -> (r: Result<(), ErrorKind>)
        ensures
            old(self).can_add(1) ==> r == Ok::<(), ErrorKind>(()) && *final(self) == old(
                self,
            ).after_add(1),
            !old(self).can_add(1) ==> r == Err::<(), ErrorKind>(ErrorKind::SizeLimit) && *final(self) == *old(self),
    {
        self.add_raw(1)
    }

    /// A sequence's count prefix occupies eight bytes; a sequence of
    /// unknown length cannot be sized.
    pub fn serialize_seq(&mut self, len: Option<usize>) -> (r: Result<(), ErrorKind>)
        ensures
            len is None ==> r == Err::<(), ErrorKind>(ErrorKind::SequenceMustHaveLength) && *final(self) == *old(self),
            len is Some ==> {
                &&& old(self).can_add(8) ==> r == Ok::<(), ErrorKind>(()) && *final(self) == old(
                    self,
                ).after_add(8)
                &&& !old(self).can_add(8) ==> r == Err::<(), ErrorKind>(ErrorKind::SizeLimit)
                    && *final(self) == *old(self)
            },
    {
        match len {
            None => Err(ErrorKind::SequenceMustHaveLength),
            Some(_) => self.add_raw(8),
        }
    }

    /// A map's count prefix occupies eight bytes; a map of unknown length
    /// cannot be sized.
    pub fn serialize_map(&mut self, len: Option<usize>) -> (r: Result<(), ErrorKind>)
        ensures
            len is None ==> r == Err::<(), ErrorKind>(ErrorKind::SequenceMustHaveLength) && *final(self) == *old(self),
            len is Some ==> {
                &&& old(self).can_add(8) ==> r == Ok::<(), ErrorKind>(()) && *final(self) == old(
                    self,
                ).after_add(8)
                &&& !old(self).can_add(8) ==> r == Err::<(), ErrorKind>(ErrorKind::SizeLimit)
                    && *final(self) == *old(self)
            },
    {
        self.serialize_seq(len)
    }

    /// Tuples carry no prefix and occupy no bytes of their own.
    pub fn serialize_tuple(&mut self, len: usize) -> (r: Result<(), ErrorKind>)
        ensures
            r == Ok::<(), ErrorKind>(()),
            *final(self) == *old(self),
    {
        let _ = len;
        Ok(())
    }

    /// Records carry no prefix and occupy no bytes of their own.
    pub fn serialize_struct(&mut self, len: usize) -> (r: Result<(), ErrorKind>)
        ensures
            r == Ok::<(), ErrorKind>(()),
            *final(self) == *old(self),
    {
        let _ = len;
        Ok(())
    }

    /// A variant index occupies four bytes; the payload is accounted
    /// through further calls.
    pub fn serialize_variant_index(&mut self, variant_index: u32) -> (r: Result<(), ErrorKind>)
        ensures
            old(self).can_add(4) ==> r == Ok::<(), ErrorKind>(()) && *final(self) == old(
                self,
            ).after_add(4),
            !old(self).can_add(4) ==> r == Err::<(), ErrorKind>(ErrorKind::SizeLimit) && *final(self) == *old(self),
    {
        let _ = variant_index;
        self.add_raw(4)
    }

    /// This codec is not a human-readable format.
    pub fn is_human_readable(&self) -> (r: bool)
        ensures
            r == false,
    {
        false
    }
}

/// Accounting a total is the same as accounting it in two instalments.
pub proof fn lemma_after_add_split(c: SizeChecker, a: nat, b: nat)
    ensures
        c.can_add(a + b) <==> (c.can_add(a) && c.after_add(a).can_add(b)),
        c.can_add(a + b) ==> c.after_add(a + b) == c.after_add(a).after_add(b),
{
    crate::config::lemma_charge_split(c.limit, a, b);
}

} // verus!
