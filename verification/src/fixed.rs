//! Fixed-width little-endian codecs for 32- and 64-bit words.
//!
//! These carry values whose wire form is their raw bytes rather than a
//! varint: in particular the bit patterns of 32- and 64-bit floating point
//! numbers, which a caller converts to and from these words outside the
//! library.

use vstd::prelude::*;

verus! {

use crate::error::DecodeError;
use vstd::bytes::{spec_u32_to_le_bytes, spec_u64_to_le_bytes};
use vstd::bytes::{lemma_auto_spec_u32_to_from_le_bytes, lemma_auto_spec_u64_to_from_le_bytes};
use vstd::slice::slice_subrange;

/// Appends the 4 little-endian bytes of `x` to `out` and returns how many
/// bytes were written.
pub fn fixed32_write(out: &mut Vec<u8>, x: u32) -> (n: usize)
    ensures
        final(out)@ == old(out)@ + spec_u32_to_le_bytes(x),
        n == 4,
{
    proof {
        lemma_auto_spec_u32_to_from_le_bytes();
    }
    let bytes = vstd::bytes::u32_to_le_bytes(x);
    let mut i: usize = 0;
    while i < 4
        invariant
            i <= 4,
            bytes@ == spec_u32_to_le_bytes(x),
            bytes@.len() == 4,
            out@ == old(out)@ + bytes@.take(i as int),
        decreases 4 - i,
    {
        out.push(bytes[i]);
        proof {
            assert(bytes@.take(i + 1) =~= bytes@.take(i as int) + seq![bytes@[i as int]]);
            assert(out@ =~= old(out)@ + bytes@.take(i + 1));
        }
        i = i + 1;
    }
    proof {
        assert(bytes@.take(4) =~= bytes@);
    }
    4
}

/// Appends the 8 little-endian bytes of `x` to `out` and returns how many
/// bytes were written.
pub fn fixed64_write(out: &mut Vec<u8>, x: u64) -> (n: usize)
    ensures
        final(out)@ == old(out)@ + spec_u64_to_le_bytes(x),
        n == 8,
{
    proof {
        lemma_auto_spec_u64_to_from_le_bytes();
    }
    let bytes = vstd::bytes::u64_to_le_bytes(x);
    let mut i: usize = 0;
    while i < 8
        invariant
            i <= 8,
            bytes@ == spec_u64_to_le_bytes(x),
            bytes@.len() == 8,
            out@ == old(out)@ + bytes@.take(i as int),
        decreases 8 - i,
    {
        out.push(bytes[i]);
        proof {
            assert(bytes@.take(i + 1) =~= bytes@.take(i as int) + seq![bytes@[i as int]]);
            assert(out@ =~= old(out)@ + bytes@.take(i + 1));
        }
        i = i + 1;
    }
    proof {
        assert(bytes@.take(8) =~= bytes@);
    }
    8
}

/// What decoding a fixed-width 4-byte little-endian word from `data` yields.
pub open spec fn fixed32_parse(data: Seq<u8>) -> Result<(u32, int), DecodeError> {
    if data.len() < 4 {
        Err(DecodeError::UnexpectedEndOfInput)
    } else {
        Ok((vstd::bytes::spec_u32_from_le_bytes(data.take(4)), 4))
    }
}

/// What decoding a fixed-width 8-byte little-endian word from `data` yields.
pub open spec fn fixed64_parse(data: Seq<u8>) -> Result<(u64, int), DecodeError> {
    if data.len() < 8 {
        Err(DecodeError::UnexpectedEndOfInput)
    } else {
        Ok((vstd::bytes::spec_u64_from_le_bytes(data.take(8)), 8))
    }
}

/// Reads a 32-bit little-endian word from the front of `*bytes`, advancing
/// the slice past it on success.
pub fn fixed32_read<'de>(bytes: &mut &'de [u8]) -> (r: Result<u32, DecodeError>)
    ensures
        match fixed32_parse(old(bytes)@) {
            Ok(p) => r == Ok::<u32, DecodeError>(p.0) && final(bytes)@ == old(bytes)@.skip(4),
            Err(e) => r == Err::<u32, DecodeError>(e) && final(bytes)@ == old(bytes)@,
        },
{
    if bytes.len() < 4 {
        return Err(DecodeError::UnexpectedEndOfInput);
    }
    let word = slice_subrange(*bytes, 0, 4);
    proof {
        assert(word@ =~= old(bytes)@.take(4));
    }
    let x = vstd::bytes::u32_from_le_bytes(word);
    *bytes = slice_subrange(*bytes, 4, bytes.len());
    Ok(x)
}

/// Reads a 64-bit little-endian word from the front of `*bytes`, advancing
/// the slice past it on success.
pub fn fixed64_read<'de>(bytes: &mut &'de [u8]) -> (r: Result<u64, DecodeError>)
    ensures
        match fixed64_parse(old(bytes)@) {
            Ok(p) => r == Ok::<u64, DecodeError>(p.0) && final(bytes)@ == old(bytes)@.skip(8),
            Err(e) => r == Err::<u64, DecodeError>(e) && final(bytes)@ == old(bytes)@,
        },
{
    if bytes.len() < 8 {
        return Err(DecodeError::UnexpectedEndOfInput);
    }
    let word = slice_subrange(*bytes, 0, 8);
    proof {
        assert(word@ =~= old(bytes)@.take(8));
    }
    let x = vstd::bytes::u64_from_le_bytes(word);
    *bytes = slice_subrange(*bytes, 8, bytes.len());
    Ok(x)
}

/// Round trip of the 32-bit fixed-width codec: the 4 bytes written for `x`
/// decode back to `x`, whatever bytes follow.
pub proof fn lemma_fixed32_parse_wire(x: u32, rest: Seq<u8>)
    ensures
        fixed32_parse(spec_u32_to_le_bytes(x) + rest) == Ok::<(u32, int), DecodeError>((x, 4)),
{
    lemma_auto_spec_u32_to_from_le_bytes();
    assert((spec_u32_to_le_bytes(x) + rest).take(4) =~= spec_u32_to_le_bytes(x));
}

/// Round trip of the 64-bit fixed-width codec: the 8 bytes written for `x`
/// decode back to `x`, whatever bytes follow.
pub proof fn lemma_fixed64_parse_wire(x: u64, rest: Seq<u8>)
    ensures
        fixed64_parse(spec_u64_to_le_bytes(x) + rest) == Ok::<(u64, int), DecodeError>((x, 8)),
{
    lemma_auto_spec_u64_to_from_le_bytes();
    assert((spec_u64_to_le_bytes(x) + rest).take(8) =~= spec_u64_to_le_bytes(x));
}

} // verus!
