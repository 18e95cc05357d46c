//! Encoding values onto the end of a byte buffer.
//!
//! [`Serialize`] is the encoding half of the composite traversal protocol: a
//! record type implements it by encoding each of its fields, in declaration
//! order, into the same buffer, summing the byte counts. The contract ties
//! every implementation to its wire image, a function of the value alone, so
//! that the bytes a composite writes are exactly the concatenation of its
//! fields' encodings.

use vstd::prelude::*;

verus! {

use crate::varint::{varint, varint_write, zigzag, zigzag_encode};
use vstd::utf8::encode_utf8;

/// The byte that encodes an `i8`, in two's complement.
pub open spec fn i8_to_byte(v: i8) -> u8 {
    if v >= 0 {
        v as u8
    } else {
        (v + 256) as u8
    }
}

/// The `i8` encoded by a byte, in two's complement.
pub open spec fn byte_to_i8(b: u8) -> i8 {
    if b < 128 {
        b as i8
    } else {
        (b - 256) as i8
    }
}

/// The byte that encodes a `bool`.
pub open spec fn bool_to_byte(v: bool) -> u8 {
    if v {
        1
    } else {
        0
    }
}

/// A value that can encode itself onto the end of a byte buffer.
///
/// `wire_of` gives the value's wire image over its deep view, so the bytes
/// written are a function of the value alone. `wire_ok` bounds the views the
/// format can carry (lengths must fit the varint width used for prefixes);
/// every value that exists at run time is within those bounds, and
/// `serialize` ensures so.
pub trait Serialize: DeepView {
    /// The wire image of a value whose deep view is `v`.
    spec fn wire_of(v: Self::V) -> Seq<u8>;

    /// Whether `v` is within the format's length limits.
    spec fn wire_ok(v: Self::V) -> bool;

    /// Appends the encoding of `self` to `out` and returns how many bytes
    /// were written. Appends only: the bytes already in `out` stay.
    fn serialize(&self, out: &mut Vec<u8>) -> (n: usize)
        ensures
            final(out)@ == old(out)@ + Self::wire_of(self.deep_view()),
            n == Self::wire_of(self.deep_view()).len(),
            Self::wire_ok(self.deep_view()),
    ;
}

impl Serialize for u8 {
    open spec fn wire_of(v: u8) -> Seq<u8> {
        seq![v]
    }

    open spec fn wire_ok(v: u8) -> bool {
        true
    }

    fn serialize(&self, out: &mut Vec<u8>) -> (n: usize) {
        out.push(*self);
        proof {
            assert(out@ =~= old(out)@ + seq![*self]);
        }
        1
    }
}

impl Serialize for i8 {
    open spec fn wire_of(v: i8) -> Seq<u8> {
        seq![i8_to_byte(v)]
    }

    open spec fn wire_ok(v: i8) -> bool {
        true
    }

    fn serialize(&self, out: &mut Vec<u8>) -> (n: usize) {
        let b: u8 = if *self >= 0 {
            *self as u8
        } else {
            ((*self as i16) + 256) as u8
        };
        out.push(b);
        proof {
            assert(out@ =~= old(out)@ + seq![i8_to_byte(*self)]);
        }
        1
    }
}

impl Serialize for bool {
    open spec fn wire_of(v: bool) -> Seq<u8> {
        seq![bool_to_byte(v)]
    }

    open spec fn wire_ok(v: bool) -> bool {
        true
    }

    fn serialize(&self, out: &mut Vec<u8>) -> (n: usize) {
        let b: u8 = if *self {
            1
        } else {
            0
        };
        out.push(b);
        proof {
            assert(out@ =~= old(out)@ + seq![bool_to_byte(*self)]);
        }
        1
    }
}

impl Serialize for u16 {
    open spec fn wire_of(v: u16) -> Seq<u8> {
        varint(v as nat)
    }

    open spec fn wire_ok(v: u16) -> bool {
        true
    }

    fn serialize(&self, out: &mut Vec<u8>) -> (n: usize) {
        varint_write(out, *self as u64)
    }
}

impl Serialize for u32 {
    open spec fn wire_of(v: u32) -> Seq<u8> {
        varint(v as nat)
    }

    open spec fn wire_ok(v: u32) -> bool {
        true
    }

    fn serialize(&self, out: &mut Vec<u8>) -> (n: usize) {
        varint_write(out, *self as u64)
    }
}

impl Serialize for u64 {
    open spec fn wire_of(v: u64) -> Seq<u8> {
        varint(v as nat)
    }

    open spec fn wire_ok(v: u64) -> bool {
        true
    }

    fn serialize(&self, out: &mut Vec<u8>) -> (n: usize) {
        varint_write(out, *self)
    }
}

impl Serialize for usize {
    open spec fn wire_of(v: usize) -> Seq<u8> {
        varint(v as nat)
    }

    open spec fn wire_ok(v: usize) -> bool {
        true
    }

    fn serialize(&self, out: &mut Vec<u8>) -> (n: usize) {
        varint_write(out, *self as u64)
    }
}

impl Serialize for i16 {
    open spec fn wire_of(v: i16) -> Seq<u8> {
        varint(zigzag(v as int))
    }

    open spec fn wire_ok(v: i16) -> bool {
        true
    }

    fn serialize(&self, out: &mut Vec<u8>) -> (n: usize) {
        varint_write(out, zigzag_encode(*self as i64))
    }
}

impl Serialize for i32 {
    open spec fn wire_of(v: i32) -> Seq<u8> {
        varint(zigzag(v as int))
    }

    open spec fn wire_ok(v: i32) -> bool {
        true
    }

    fn serialize(&self, out: &mut Vec<u8>) -> (n: usize) {
        varint_write(out, zigzag_encode(*self as i64))
    }
}

impl Serialize for i64 {
    open spec fn wire_of(v: i64) -> Seq<u8> {
        varint(zigzag(v as int))
    }

    open spec fn wire_ok(v: i64) -> bool {
        true
    }

    fn serialize(&self, out: &mut Vec<u8>) -> (n: usize) {
        varint_write(out, zigzag_encode(*self))
    }
}

/// Appends every byte of `bytes` to `out`.
fn write_bytes(out: &mut Vec<u8>, bytes: &[u8])
    ensures
        final(out)@ == old(out)@ + bytes@,
{
    let mut i: usize = 0;
    while i < bytes.len()
        invariant
            i <= bytes@.len(),
            out@ == old(out)@ + bytes@.take(i as int),
        decreases bytes@.len() - i,
    {
        out.push(*vstd::slice::slice_index_get(bytes, i));
        proof {
            assert(bytes@.take(i + 1) =~= bytes@.take(i as int) + seq![bytes@[i as int]]);
            assert(out@ =~= old(out)@ + bytes@.take(i + 1));
        }
        i = i + 1;
    }
    proof {
        assert(bytes@.take(bytes@.len() as int) =~= bytes@);
    }
}

impl Serialize for str {
    open spec fn wire_of(v: Seq<char>) -> Seq<u8> {
        varint(encode_utf8(v).len()) + encode_utf8(v)
    }

    open spec fn wire_ok(v: Seq<char>) -> bool {
        encode_utf8(v).len() <= u64::MAX
    }

    fn serialize(&self, out: &mut Vec<u8>) -> (n: usize) {
        let start_len = out.len();
        let bytes = self.as_bytes();
        varint_write(out, bytes.len() as u64);
        write_bytes(out, bytes);
        proof {
            assert(out@ =~= old(out)@ + <str as Serialize>::wire_of(self.deep_view()));
        }
        out.len() - start_len
    }
}

impl Serialize for &str {
    open spec fn wire_of(v: Seq<char>) -> Seq<u8> {
        <str as Serialize>::wire_of(v)
    }

    open spec fn wire_ok(v: Seq<char>) -> bool {
        <str as Serialize>::wire_ok(v)
    }

    fn serialize(&self, out: &mut Vec<u8>) -> (n: usize) {
        Serialize::serialize(*self, out)
    }
}

impl Serialize for String {
    open spec fn wire_of(v: Seq<char>) -> Seq<u8> {
        <str as Serialize>::wire_of(v)
    }

    open spec fn wire_ok(v: Seq<char>) -> bool {
        <str as Serialize>::wire_ok(v)
    }

    fn serialize(&self, out: &mut Vec<u8>) -> (n: usize) {
        Serialize::serialize(self.as_str(), out)
    }
}

/// The concatenation of the wire images of the elements of `s`, in order.
pub open spec fn wires_of<T: Serialize>(s: Seq<T::V>) -> Seq<u8>
    decreases s.len(),
{
    if s.len() == 0 {
        Seq::empty()
    } else {
        T::wire_of(s[0]) + wires_of::<T>(s.skip(1))
    }
}

/// Concatenating element sequences concatenates their wire images.
pub proof fn lemma_wires_of_append<T: Serialize>(s1: Seq<T::V>, s2: Seq<T::V>)
    ensures
        wires_of::<T>(s1 + s2) == wires_of::<T>(s1) + wires_of::<T>(s2),
    decreases s1.len(),
{
    if s1.len() == 0 {
        assert(s1 + s2 =~= s2);
        assert(wires_of::<T>(s1) + wires_of::<T>(s2) =~= wires_of::<T>(s2));
    } else {
        assert((s1 + s2).skip(1) =~= s1.skip(1) + s2);
        lemma_wires_of_append::<T>(s1.skip(1), s2);
        assert(wires_of::<T>(s1 + s2) =~= wires_of::<T>(s1) + wires_of::<T>(s2));
    }
}

impl<T: Serialize> Serialize for Vec<T> {
    open spec fn wire_of(v: Seq<T::V>) -> Seq<u8> {
        varint(v.len()) + wires_of::<T>(v)
    }

    open spec fn wire_ok(v: Seq<T::V>) -> bool {
        &&& v.len() <= u64::MAX
        &&& forall|i: int| 0 <= i < v.len() ==> T::wire_ok(#[trigger] v[i])
    }

    fn serialize(&self, out: &mut Vec<u8>) -> (n: usize) {
        let ghost dv = self.deep_view();
        let start_len = out.len();
        self.len().serialize(out);
        let mut i: usize = 0;
        while i < self.len()
            invariant
                i <= self@.len(),
                dv == self.deep_view(),
                dv.len() == self@.len(),
                out@ == old(out)@ + varint(dv.len()) + wires_of::<T>(dv.take(i as int)),
                forall|j: int| 0 <= j < i ==> T::wire_ok(#[trigger] dv[j]),
                start_len == old(out)@.len(),
            decreases self@.len() - i,
        {
            self[i].serialize(out);
            proof {
                assert(self@[i as int].deep_view() == dv[i as int]);
                assert(dv.take(i + 1) =~= dv.take(i as int) + seq![dv[i as int]]);
                lemma_wires_of_append::<T>(dv.take(i as int), seq![dv[i as int]]);
                assert(seq![dv[i as int]].skip(1) =~= Seq::<T::V>::empty());
                assert(wires_of::<T>(Seq::<T::V>::empty()) =~= Seq::<u8>::empty());
                assert(wires_of::<T>(seq![dv[i as int]]) =~= T::wire_of(dv[i as int]));
                assert(out@ =~= old(out)@ + varint(dv.len()) + wires_of::<T>(dv.take(i + 1)));
            }
            i = i + 1;
        }
        proof {
            assert(dv.take(dv.len() as int) =~= dv);
            assert(out@ =~= old(out)@ + <Vec<T> as Serialize>::wire_of(dv));
        }
        out.len() - start_len
    }
}

impl Serialize for isize {
    open spec fn wire_of(v: isize) -> Seq<u8> {
        varint(zigzag(v as int))
    }

    open spec fn wire_ok(v: isize) -> bool {
        true
    }

    fn serialize(&self, out: &mut Vec<u8>) -> (n: usize) {
        varint_write(out, zigzag_encode(*self as i64))
    }
}

} // verus!
