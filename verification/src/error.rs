//! The error taxonomy of decoding.

use vstd::prelude::*;

verus! {

/// Why a decode failed. Encoding into a growable buffer cannot fail, so only
/// decoding reports errors.
#[derive(Clone, Copy, Debug, PartialEq, Eq, Structural)]
pub enum DecodeError {
    /// The input ended before the value being decoded was complete: a fixed
    /// width value or a declared length reached past the end of the buffer,
    /// or a varint's continuation bit never cleared within the buffer.
    UnexpectedEndOfInput,
    /// The bytes were present but do not form a value of the target type:
    /// a varint too large for the type it was read into, or string bytes
    /// that are not valid UTF-8.
    InvalidEncoding,
}

} // verus!
