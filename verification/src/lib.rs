//! A small binary serialization core: values are written to and read from a
//! linear byte stream.
//!
//! The wire format is:
//! - 8-bit integers: one raw byte (two's complement for `i8`);
//! - wider integers: a variable-length integer ("varint") of 7-bit groups,
//!   least significant group first, the high bit of a byte marking that more
//!   groups follow; signed values are first mapped to unsigned ones by the
//!   zigzag transformation;
//! - `bool`: one byte, `0x01` for true and `0x00` for false;
//! - strings: a varint length prefix followed by that many UTF-8 bytes;
//! - sequences: a varint element count followed by each element's encoding;
//! - composites: the concatenation of the fields' encodings in declaration
//!   order, by an implementation of [`Serialize`] and [`Deserialize`] over
//!   the fields' codecs.
//!
//! Encoding appends to a growable byte buffer and cannot fail; decoding reads
//! from the front of a borrowed byte slice, advancing it past the bytes it
//! consumed, and reports [`DecodeError`] on truncated or malformed input.

pub mod de;
pub mod error;
pub mod fixed;
pub mod ser;
pub mod varint;

pub use de::Deserialize;
pub use error::DecodeError;
pub use ser::Serialize;
