//! Decoding values from the front of a borrowed byte slice.
//!
//! [`Deserialize`] is the decoding half of the composite traversal protocol:
//! a record type implements it by decoding each of its fields, in declaration
//! order, from the same cursor, short-circuiting on the first failing field.
//! The cursor is the borrowed slice itself: every successful decode advances
//! it past exactly the bytes it consumed, so independent values can be read
//! from one buffer in sequence. On an error the bytes consumed by the parts
//! that had already succeeded stay consumed, and the cursor stands at the
//! point of failure.

use vstd::prelude::*;

verus! {

use crate::error::DecodeError;
use crate::ser::{byte_to_i8, Serialize};
use crate::varint::{unzigzag, varint_parse_u64, varint_read, zigzag_decode};
use crate::varint::{lemma_varint_parse_wire, lemma_zigzag_unzigzag};
use vstd::slice::{slice_index_get, slice_subrange};
use vstd::utf8::{decode_utf8, valid_utf8};

/// A value that can decode itself from the front of a byte slice.
///
/// `parse` is the specification of the decoder: a function of the input bytes
/// alone, giving either the decoded deep view with the number of bytes the
/// value spans, or the error. `deserialize` must behave exactly as `parse`
/// says, and `lemma_parse_wire` is the round-trip law: decoding from a buffer
/// that starts with a value's wire image yields that value back and consumes
/// exactly the image, whatever bytes follow it.
pub trait Deserialize<'de>: Serialize + Sized {
    /// What decoding from `data` yields: the value's deep view and the bytes
    /// it spans, or the error.
    spec fn parse(data: Seq<u8>) -> Result<(Self::V, int), DecodeError>;

    /// Decodes one value from the front of `*bytes`, advancing the slice
    /// past the consumed bytes on success and leaving it at the point of
    /// failure otherwise.
    fn deserialize(bytes: &mut &'de [u8]) -> (r: Result<Self, DecodeError>)
        ensures
            match Self::parse(old(bytes)@) {
                Ok(p) => {
                    &&& r matches Ok(v) && v.deep_view() == p.0
                    &&& 0 <= p.1 <= old(bytes)@.len()
                    &&& final(bytes)@ == old(bytes)@.skip(p.1)
                },
                Err(e) => {
                    &&& r == Err::<Self, DecodeError>(e)
                    &&& exists|k: int|
                        0 <= k <= old(bytes)@.len() && final(bytes)@ == old(bytes)@.skip(k)
                },
            },
    ;

    /// Round trip: the wire image of a value within the format's limits
    /// decodes to that value and spans exactly the image.
    proof fn lemma_parse_wire(v: Self::V, rest: Seq<u8>)
        requires
            Self::wire_ok(v),
        ensures
            Self::parse(Self::wire_of(v) + rest) == Ok::<(Self::V, int), DecodeError>((
                v,
                Self::wire_of(v).len() as int,
            )),
    ;
}

impl<'de> Deserialize<'de> for u8 {
    open spec fn parse(data: Seq<u8>) -> Result<(u8, int), DecodeError> {
        if data.len() == 0 {
            Err(DecodeError::UnexpectedEndOfInput)
        } else {
            Ok((data[0], 1))
        }
    }

    fn deserialize(bytes: &mut &'de [u8]) -> (r: Result<u8, DecodeError>) {
        if bytes.len() == 0 {
            proof {
                assert(old(bytes)@.skip(0) =~= old(bytes)@);
            }
            return Err(DecodeError::UnexpectedEndOfInput);
        }
        let b = *slice_index_get(*bytes, 0);
        *bytes = slice_subrange(*bytes, 1, bytes.len());
        Ok(b)
    }

    proof fn lemma_parse_wire(v: u8, rest: Seq<u8>) {
        assert((<u8 as Serialize>::wire_of(v) + rest)[0] == v);
    }
}

impl<'de> Deserialize<'de> for i8 {
    open spec fn parse(data: Seq<u8>) -> Result<(i8, int), DecodeError> {
        if data.len() == 0 {
            Err(DecodeError::UnexpectedEndOfInput)
        } else {
            Ok((byte_to_i8(data[0]), 1))
        }
    }

    fn deserialize(bytes: &mut &'de [u8]) -> (r: Result<i8, DecodeError>) {
        if bytes.len() == 0 {
            proof {
                assert(old(bytes)@.skip(0) =~= old(bytes)@);
            }
            return Err(DecodeError::UnexpectedEndOfInput);
        }
        let b = *slice_index_get(*bytes, 0);
        *bytes = slice_subrange(*bytes, 1, bytes.len());
        let v: i8 = if b < 128 {
            b as i8
        } else {
            ((b as i16) - 256) as i8
        };
        Ok(v)
    }

    proof fn lemma_parse_wire(v: i8, rest: Seq<u8>) {
        assert((<i8 as Serialize>::wire_of(v) + rest)[0] == crate::ser::i8_to_byte(v));
    }
}

impl<'de> Deserialize<'de> for bool {
    open spec fn parse(data: Seq<u8>) -> Result<(bool, int), DecodeError> {
        if data.len() == 0 {
            Err(DecodeError::UnexpectedEndOfInput)
        } else {
            Ok((data[0] != 0, 1))
        }
    }

    fn deserialize(bytes: &mut &'de [u8]) -> (r: Result<bool, DecodeError>) {
        if bytes.len() == 0 {
            proof {
                assert(old(bytes)@.skip(0) =~= old(bytes)@);
            }
            return Err(DecodeError::UnexpectedEndOfInput);
        }
        let b = *slice_index_get(*bytes, 0);
        *bytes = slice_subrange(*bytes, 1, bytes.len());
        Ok(b != 0)
    }

    proof fn lemma_parse_wire(v: bool, rest: Seq<u8>) {
        assert((<bool as Serialize>::wire_of(v) + rest)[0] == crate::ser::bool_to_byte(v));
    }
}

impl<'de> Deserialize<'de> for u64 {
    open spec fn parse(data: Seq<u8>) -> Result<(u64, int), DecodeError> {
        varint_parse_u64(data)
    }

    fn deserialize(bytes: &mut &'de [u8]) -> (r: Result<u64, DecodeError>) {
        match varint_read(*bytes) {
            Ok((v, n)) => {
                *bytes = slice_subrange(*bytes, n, bytes.len());
                Ok(v)
            },
            Err(e) => {
                proof {
                    assert(old(bytes)@.skip(0) =~= old(bytes)@);
                }
                Err(e)
            },
        }
    }

    proof fn lemma_parse_wire(v: u64, rest: Seq<u8>) {
        crate::varint::lemma_varint_parse_wire_u64(v, rest);
    }
}

impl<'de> Deserialize<'de> for u32 {
    open spec fn parse(data: Seq<u8>) -> Result<(u32, int), DecodeError> {
        match varint_parse_u64(data) {
            Ok(p) => if p.0 <= u32::MAX {
                Ok((p.0 as u32, p.1))
            } else {
                Err(DecodeError::InvalidEncoding)
            },
            Err(e) => Err(e),
        }
    }

    fn deserialize(bytes: &mut &'de [u8]) -> (r: Result<u32, DecodeError>) {
        match varint_read(*bytes) {
            Ok((v, n)) => {
                if v > u32::MAX as u64 {
                    proof {
                        assert(old(bytes)@.skip(0) =~= old(bytes)@);
                    }
                    return Err(DecodeError::InvalidEncoding);
                }
                *bytes = slice_subrange(*bytes, n, bytes.len());
                Ok(v as u32)
            },
            Err(e) => {
                proof {
                    assert(old(bytes)@.skip(0) =~= old(bytes)@);
                }
                Err(e)
            },
        }
    }

    proof fn lemma_parse_wire(v: u32, rest: Seq<u8>) {
        lemma_varint_parse_wire(v as nat, rest);
    }
}

impl<'de> Deserialize<'de> for u16 {
    open spec fn parse(data: Seq<u8>) -> Result<(u16, int), DecodeError> {
        match varint_parse_u64(data) {
            Ok(p) => if p.0 <= u16::MAX {
                Ok((p.0 as u16, p.1))
            } else {
                Err(DecodeError::InvalidEncoding)
            },
            Err(e) => Err(e),
        }
    }

    fn deserialize(bytes: &mut &'de [u8]) -> (r: Result<u16, DecodeError>) {
        match varint_read(*bytes) {
            Ok((v, n)) => {
                if v > u16::MAX as u64 {
                    proof {
                        assert(old(bytes)@.skip(0) =~= old(bytes)@);
                    }
                    return Err(DecodeError::InvalidEncoding);
                }
                *bytes = slice_subrange(*bytes, n, bytes.len());
                Ok(v as u16)
            },
            Err(e) => {
                proof {
                    assert(old(bytes)@.skip(0) =~= old(bytes)@);
                }
                Err(e)
            },
        }
    }

    proof fn lemma_parse_wire(v: u16, rest: Seq<u8>) {
        lemma_varint_parse_wire(v as nat, rest);
    }
}

impl<'de> Deserialize<'de> for i64 {
    open spec fn parse(data: Seq<u8>) -> Result<(i64, int), DecodeError> {
        match varint_parse_u64(data) {
            Ok(p) => Ok((unzigzag(p.0 as nat) as i64, p.1)),
            Err(e) => Err(e),
        }
    }

    fn deserialize(bytes: &mut &'de [u8]) -> (r: Result<i64, DecodeError>) {
        match varint_read(*bytes) {
            Ok((v, n)) => {
                *bytes = slice_subrange(*bytes, n, bytes.len());
                Ok(zigzag_decode(v))
            },
            Err(e) => {
                proof {
                    assert(old(bytes)@.skip(0) =~= old(bytes)@);
                }
                Err(e)
            },
        }
    }

    proof fn lemma_parse_wire(v: i64, rest: Seq<u8>) {
        lemma_varint_parse_wire(crate::varint::zigzag(v as int), rest);
        lemma_zigzag_unzigzag(v as int);
    }
}

impl<'de> Deserialize<'de> for i32 {
    open spec fn parse(data: Seq<u8>) -> Result<(i32, int), DecodeError> {
        match varint_parse_u64(data) {
            Ok(p) => if p.0 <= u32::MAX {
                Ok((unzigzag(p.0 as nat) as i32, p.1))
            } else {
                Err(DecodeError::InvalidEncoding)
            },
            Err(e) => Err(e),
        }
    }

    fn deserialize(bytes: &mut &'de [u8]) -> (r: Result<i32, DecodeError>) {
        match varint_read(*bytes) {
            Ok((v, n)) => {
                if v > u32::MAX as u64 {
                    proof {
                        assert(old(bytes)@.skip(0) =~= old(bytes)@);
                    }
                    return Err(DecodeError::InvalidEncoding);
                }
                *bytes = slice_subrange(*bytes, n, bytes.len());
                Ok(zigzag_decode(v) as i32)
            },
            Err(e) => {
                proof {
                    assert(old(bytes)@.skip(0) =~= old(bytes)@);
                }
                Err(e)
            },
        }
    }

    proof fn lemma_parse_wire(v: i32, rest: Seq<u8>) {
        lemma_varint_parse_wire(crate::varint::zigzag(v as int), rest);
        lemma_zigzag_unzigzag(v as int);
    }
}

impl<'de> Deserialize<'de> for i16 {
    open spec fn parse(data: Seq<u8>) -> Result<(i16, int), DecodeError> {
        match varint_parse_u64(data) {
            Ok(p) => if p.0 <= u16::MAX {
                Ok((unzigzag(p.0 as nat) as i16, p.1))
            } else {
                Err(DecodeError::InvalidEncoding)
            },
            Err(e) => Err(e),
        }
    }

    fn deserialize(bytes: &mut &'de [u8]) -> (r: Result<i16, DecodeError>) {
        match varint_read(*bytes) {
            Ok((v, n)) => {
                if v > u16::MAX as u64 {
                    proof {
                        assert(old(bytes)@.skip(0) =~= old(bytes)@);
                    }
                    return Err(DecodeError::InvalidEncoding);
                }
                *bytes = slice_subrange(*bytes, n, bytes.len());
                Ok(zigzag_decode(v) as i16)
            },
            Err(e) => {
                proof {
                    assert(old(bytes)@.skip(0) =~= old(bytes)@);
                }
                Err(e)
            },
        }
    }

    proof fn lemma_parse_wire(v: i16, rest: Seq<u8>) {
        lemma_varint_parse_wire(crate::varint::zigzag(v as int), rest);
        lemma_zigzag_unzigzag(v as int);
    }
}

/// Relies on core::str::from_utf8: it returns `Ok` exactly when the input is
/// valid UTF-8, and the returned string slice borrows the input bytes, so its
/// UTF-8 bytes are the input itself.
#[verifier::external_body]
fn bytes_to_str<'a>(bytes: &'a [u8]) -> (r: Option<&'a str>)
    ensures
        match r {
            Some(s) => valid_utf8(bytes@) && vstd::utf8::encode_utf8(s@) == bytes@,
            None => !valid_utf8(bytes@),
        },
{
    core::str::from_utf8(bytes).ok()
}

/// What decoding a length-prefixed UTF-8 string from `data` yields: the
/// characters and the bytes spanned, or the error. A declared length that
/// reaches past the end of the buffer is truncation; bytes that are not
/// valid UTF-8 are malformed.
pub open spec fn parse_str(data: Seq<u8>) -> Result<(Seq<char>, int), DecodeError> {
    match varint_parse_u64(data) {
        Ok(p) => if p.1 + p.0 > data.len() {
            Err(DecodeError::UnexpectedEndOfInput)
        } else {
            let content = data.subrange(p.1, p.1 + p.0 as int);
            if valid_utf8(content) {
                Ok((decode_utf8(content), p.1 + p.0 as int))
            } else {
                Err(DecodeError::InvalidEncoding)
            }
        },
        Err(e) => Err(e),
    }
}

/// Round trip of [`parse_str`] against the string wire image.
proof fn lemma_parse_str_wire(v: Seq<char>, rest: Seq<u8>)
    requires
        <str as Serialize>::wire_ok(v),
    ensures
        parse_str(<str as Serialize>::wire_of(v) + rest) == Ok::<(Seq<char>, int), DecodeError>((
            v,
            <str as Serialize>::wire_of(v).len() as int,
        )),
{
    let content = vstd::utf8::encode_utf8(v);
    let data = <str as Serialize>::wire_of(v) + rest;
    assert(data =~= crate::varint::varint(content.len()) + (content + rest));
    lemma_varint_parse_wire(content.len(), content + rest);
    let n = crate::varint::varint(content.len()).len() as int;
    assert(data.subrange(n, n + content.len() as int) =~= content);
    vstd::utf8::encode_utf8_valid_utf8(v);
    vstd::utf8::encode_utf8_decode_utf8(v);
}

impl<'de> Deserialize<'de> for &'de str {
    open spec fn parse(data: Seq<u8>) -> Result<(Seq<char>, int), DecodeError> {
        parse_str(data)
    }

    fn deserialize(bytes: &mut &'de [u8]) -> (r: Result<&'de str, DecodeError>) {
        let (len64, n) = match varint_read(*bytes) {
            Ok(p) => p,
            Err(e) => {
                proof {
                    assert(old(bytes)@.skip(0) =~= old(bytes)@);
                }
                return Err(e);
            },
        };
        let rem = bytes.len() - n;
        if len64 > rem as u64 {
            proof {
                assert(old(bytes)@.skip(0) =~= old(bytes)@);
            }
            return Err(DecodeError::UnexpectedEndOfInput);
        }
        let len = len64 as usize;
        let content = slice_subrange(*bytes, n, n + len);
        match bytes_to_str(content) {
            Some(s) => {
                *bytes = slice_subrange(*bytes, n + len, bytes.len());
                proof {
                    vstd::utf8::encode_utf8_decode_utf8(s@);
                }
                Ok(s)
            },
            None => {
                proof {
                    assert(old(bytes)@.skip(0) =~= old(bytes)@);
                }
                Err(DecodeError::InvalidEncoding)
            },
        }
    }

    proof fn lemma_parse_wire(v: Seq<char>, rest: Seq<u8>) {
        lemma_parse_str_wire(v, rest);
    }
}

impl<'de> Deserialize<'de> for String {
    open spec fn parse(data: Seq<u8>) -> Result<(Seq<char>, int), DecodeError> {
        parse_str(data)
    }

    fn deserialize(bytes: &mut &'de [u8]) -> (r: Result<String, DecodeError>) {
        match <&str as Deserialize>::deserialize(bytes) {
            Ok(s) => Ok(s.to_owned()),
            Err(e) => Err(e),
        }
    }

    proof fn lemma_parse_wire(v: Seq<char>, rest: Seq<u8>) {
        lemma_parse_str_wire(v, rest);
    }
}

/// What decoding `count` consecutive elements from `data` yields: the
/// element views in order and the total bytes spanned, or the first error.
pub open spec fn parse_elems<'de, T: Deserialize<'de>>(data: Seq<u8>, count: nat) -> Result<
    (Seq<T::V>, int),
    DecodeError,
>
    decreases count,
{
    if count == 0 {
        Ok((Seq::empty(), 0))
    } else {
        match T::parse(data) {
            Ok(p) => match parse_elems::<T>(data.skip(p.1), (count - 1) as nat) {
                Ok(q) => Ok((seq![p.0] + q.0, p.1 + q.1)),
                Err(e) => Err(e),
            },
            Err(e) => Err(e),
        }
    }
}

/// Prepends `done` already-decoded element views and `used` consumed bytes
/// to the outcome of the remaining element run.
spec fn elems_after<'de, T: Deserialize<'de>>(
    done: Seq<T::V>,
    used: int,
    rest: Result<(Seq<T::V>, int), DecodeError>,
) -> Result<(Seq<T::V>, int), DecodeError> {
    match rest {
        Ok(q) => Ok((done + q.0, used + q.1)),
        Err(e) => Err(e),
    }
}

/// Round trip of an element run: the concatenated wire images of `s` decode
/// back to `s`, element by element, whatever bytes follow.
proof fn lemma_parse_elems_wires<'de, T: Deserialize<'de>>(s: Seq<T::V>, rest: Seq<u8>)
    requires
        forall|i: int| 0 <= i < s.len() ==> T::wire_ok(#[trigger] s[i]),
    ensures
        parse_elems::<T>(crate::ser::wires_of::<T>(s) + rest, s.len()) == Ok::<
            (Seq<T::V>, int),
            DecodeError,
        >((s, crate::ser::wires_of::<T>(s).len() as int)),
    decreases s.len(),
{
    if s.len() == 0 {
        assert(s =~= Seq::<T::V>::empty());
    } else {
        let tail_wire = crate::ser::wires_of::<T>(s.skip(1)) + rest;
        let data = crate::ser::wires_of::<T>(s) + rest;
        assert(data =~= T::wire_of(s[0]) + tail_wire);
        T::lemma_parse_wire(s[0], tail_wire);
        let m = T::wire_of(s[0]).len() as int;
        assert(data.skip(m) =~= tail_wire);
        assert(forall|i: int|
            0 <= i < s.skip(1).len() ==> T::wire_ok(#[trigger] s.skip(1)[i]));
        lemma_parse_elems_wires::<T>(s.skip(1), rest);
        assert(seq![s[0]] + s.skip(1) =~= s);
    }
}

impl<'de, T: Deserialize<'de>> Deserialize<'de> for Vec<T> {
    open spec fn parse(data: Seq<u8>) -> Result<(Seq<T::V>, int), DecodeError> {
        match varint_parse_u64(data) {
            Ok(p) => match parse_elems::<T>(data.skip(p.1), p.0 as nat) {
                Ok(q) => Ok((q.0, p.1 + q.1)),
                Err(e) => Err(e),
            },
            Err(e) => Err(e),
        }
    }

    fn deserialize(bytes: &mut &'de [u8]) -> (r: Result<Vec<T>, DecodeError>) {
        let ghost data0 = bytes@;
        let (count, n) = match varint_read(*bytes) {
            Ok(p) => p,
            Err(e) => {
                proof {
                    assert(old(bytes)@.skip(0) =~= old(bytes)@);
                }
                return Err(e);
            },
        };
        *bytes = slice_subrange(*bytes, n, bytes.len());
        let ghost data1 = bytes@;
        let mut out: Vec<T> = Vec::new();
        let mut i: u64 = 0;
        proof {
            assert(out.deep_view() =~= Seq::<T::V>::empty());
            assert(data1.skip(0) =~= data1);
        }
        while i < count
            invariant
                i <= count,
                old(bytes)@ == data0,
                bytes@.len() <= data1.len(),
                data1 == data0.skip(n as int),
                n <= data0.len(),
                varint_parse_u64(data0) == Ok::<(u64, int), DecodeError>((count, n as int)),
                parse_elems::<T>(data1, count as nat) == elems_after::<T>(
                    out.deep_view(),
                    data1.len() - bytes@.len(),
                    parse_elems::<T>(bytes@, (count - i) as nat),
                ),
                exists|k: int| 0 <= k <= data1.len() && bytes@ == #[trigger] data1.skip(k),
            decreases count - i,
        {
            let ghost pre = bytes@;
            let ghost out_pre = out.deep_view();
            match T::deserialize(bytes) {
                Ok(v) => {
                    out.push(v);
                    proof {
                        let m = T::parse(pre)->Ok_0.1;
                        assert(out.deep_view() =~= out_pre + seq![v.deep_view()]);
                        assert(out_pre + (seq![v.deep_view()] + parse_elems::<T>(
                            bytes@,
                            (count - i - 1) as nat,
                        )->Ok_0.0) =~= (out_pre + seq![v.deep_view()]) + parse_elems::<T>(
                            bytes@,
                            (count - i - 1) as nat,
                        )->Ok_0.0);
                        let k = choose|k: int|
                            0 <= k <= data1.len() && pre == #[trigger] data1.skip(k);
                        assert(data1.skip(k + m) =~= pre.skip(m));
                    }
                    i = i + 1;
                },
                Err(e) => {
                    proof {
                        assert(T::parse(pre) == Err::<(T::V, int), DecodeError>(e));
                        assert(parse_elems::<T>(pre, (count - i) as nat) == Err::<
                            (Seq<T::V>, int),
                            DecodeError,
                        >(e));
                        assert(parse_elems::<T>(data1, count as nat) == Err::<
                            (Seq<T::V>, int),
                            DecodeError,
                        >(e));
                        assert(<Vec<T> as Deserialize<'de>>::parse(data0) == Err::<
                            (Seq<T::V>, int),
                            DecodeError,
                        >(e));
                        let k = choose|k: int|
                            0 <= k <= data1.len() && pre == #[trigger] data1.skip(k);
                        let k2 = choose|k2: int|
                            0 <= k2 <= pre.len() && bytes@ == #[trigger] pre.skip(k2);
                        assert(data0.skip(n + k + k2) =~= bytes@);
                        assert(exists|j: int|
                            0 <= j <= data0.len() && bytes@ == #[trigger] data0.skip(j));
                    }
                    return Err(e);
                },
            }
        }
        proof {
            assert(out.deep_view() + Seq::<T::V>::empty() =~= out.deep_view());
            let k = choose|k: int| 0 <= k <= data1.len() && bytes@ == #[trigger] data1.skip(k);
            assert(data0.skip(n + k) =~= bytes@);
        }
        Ok(out)
    }

    proof fn lemma_parse_wire(v: Seq<T::V>, rest: Seq<u8>) {
        let content = crate::ser::wires_of::<T>(v);
        let data = <Vec<T> as Serialize>::wire_of(v) + rest;
        assert(data =~= crate::varint::varint(v.len()) + (content + rest));
        lemma_varint_parse_wire(v.len(), content + rest);
        let n = crate::varint::varint(v.len()).len() as int;
        assert(data.skip(n) =~= content + rest);
        lemma_parse_elems_wires::<T>(v, rest);
    }
}

} // verus!
