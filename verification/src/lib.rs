//! A compact binary codec for structured values.
//!
//! Values from a fixed universe (integers, booleans, characters, strings,
//! byte blobs, optionals, sequences, maps, records and tagged variants) are
//! written to and read from a deterministic byte stream.  Multi-byte fields
//! use a configurable endianness; strings, byte blobs, sequences and maps are
//! length-prefixed; the stream carries no self-describing metadata.
//!
//! The three sides of the codec share one set of framing rules, stated by
//! the spec functions of [`value`] and [`wire`]:
//! [`ser::Serializer`] appends wire bytes to a bounded buffer,
//! [`ser::SizeChecker`] accounts the same bytes without producing them, and
//! [`de::Deserializer`] parses them back, charging every length against a
//! byte budget before reading what it prefixes.  [`codec`] drives whole
//! value trees through the three and states the codec's laws: encodings
//! round-trip, sizes agree, truncated input is rejected and byte budgets
//! are enforced.

pub mod codec;
pub mod config;
pub mod de;
pub mod error;
pub mod read;
pub mod ser;
pub mod utf8;
pub mod value;
pub mod wire;

pub use config::Endianness;
pub use config::SizeLimit;
pub use error::ErrorKind;
