//! The error kinds that encoding and decoding can produce.

use vstd::prelude::*;

verus! {

/// The kind of error that can be produced during a serialization or
/// deserialization operation.
#[derive(Debug, Clone, Copy, PartialEq, Eq, Structural)]
pub enum ErrorKind {
    /// The formatted-string path was handed a failing formatter.
    Fmt,
    /// The deserializer was asked for a string whose bytes are not valid
    /// UTF-8.
    InvalidUtf8Encoding,
    /// The deserializer read a boolean byte that was neither 0 nor 1; the
    /// offending byte is carried along.
    InvalidBoolEncoding(u8),
    /// The deserializer read a character whose leading byte has no UTF-8
    /// width, or whose remaining bytes are missing or invalid.
    InvalidCharEncoding,
    /// The deserializer read an option tag that was neither 0 nor 1; the
    /// offending byte is carried along.
    InvalidTagEncoding(u8),
    /// The caller asked for self-describing decoding, which this format
    /// cannot express.
    DeserializeAnyNotSupported,
    /// The input ended early, or the configured byte budget was exhausted.
    SizeLimit,
    /// The encoder or size-checker received a sequence of unknown length.
    SequenceMustHaveLength,
    /// The encoder's output buffer is full.
    CapacityError,
    /// A generic error surfaced by the driving layer.
    Serde,
}

} // verus!
