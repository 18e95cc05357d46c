//! Variable-length integer encoding: 7-bit groups, least significant group
//! first, the high bit of each byte marking that another group follows.
//! Signed integers are mapped to unsigned ones by the zigzag transformation
//! before encoding, so that small magnitudes of either sign stay short.

use vstd::prelude::*;

verus! {

use crate::error::DecodeError;
use vstd::arithmetic::power::{lemma_pow_positive, pow};

/// The varint encoding of `x`: bytes of 7 payload bits each, least
/// significant group first; every byte but the last has its high bit set.
pub open spec fn varint(x: nat) -> Seq<u8>
    decreases x,
{
    if x < 128 {
        seq![x as u8]
    } else {
        seq![(x % 128 + 128) as u8] + varint(x / 128)
    }
}

/// What decoding a varint from the front of `data` yields: the value (as an
/// unbounded natural) and the number of bytes it spans, or the error. The
/// input ending before a byte with a clear high bit is truncation.
pub open spec fn varint_parse(data: Seq<u8>) -> Result<(nat, int), DecodeError>
    decreases data.len(),
{
    if data.len() == 0 {
        Err(DecodeError::UnexpectedEndOfInput)
    } else if data[0] < 128 {
        Ok((data[0] as nat, 1))
    } else {
        match varint_parse(data.skip(1)) {
            Ok(p) => Ok((((data[0] - 128) as nat + 128 * p.0) as nat, p.1 + 1)),
            Err(e) => Err(e),
        }
    }
}

/// Varint decoding into a `u64`: a terminated varint whose value does not
/// fit 64 bits is malformed.
pub open spec fn varint_parse_u64(data: Seq<u8>) -> Result<(u64, int), DecodeError> {
    match varint_parse(data) {
        Ok(p) => if p.0 <= u64::MAX as nat {
            Ok((p.0 as u64, p.1))
        } else {
            Err(DecodeError::InvalidEncoding)
        },
        Err(e) => Err(e),
    }
}

/// The zigzag image of a signed value: non-negative `x` maps to `2x`,
/// negative `x` to `-2x - 1`, so magnitude stays small in either sign.
pub open spec fn zigzag(x: int) -> nat {
    if x >= 0 {
        (2 * x) as nat
    } else {
        (-2 * x - 1) as nat
    }
}

/// The inverse of [`zigzag`]: even values come from non-negative integers,
/// odd values from negative ones.
pub open spec fn unzigzag(u: nat) -> int {
    if u % 2 == 0 {
        (u / 2) as int
    } else {
        -((u / 2) as int) - 1
    }
}

/// Round trip of the zigzag transformation.
pub proof fn lemma_zigzag_unzigzag(x: int)
    ensures
        unzigzag(zigzag(x)) == x,
{
}

/// The zigzag image of `x`, computed at the `i64` width.
pub fn zigzag_encode(x: i64) -> (u: u64)
    ensures
        u as nat == zigzag(x as int),
{
    if x >= 0 {
        2 * (x as u64)
    } else {
        2 * ((-(x + 1)) as u64) + 1
    }
}

/// The signed value whose zigzag image is `u`, computed at the `u64` width.
pub fn zigzag_decode(u: u64) -> (x: i64)
    ensures
        x as int == unzigzag(u as nat),
{
    if u % 2 == 0 {
        (u / 2) as i64
    } else {
        -((u / 2) as i64) - 1
    }
}

/// Appends the varint encoding of `x` to `out` and returns how many bytes
/// were written.
pub fn varint_write(out: &mut Vec<u8>, x: u64) -> (n: usize)
    ensures
        final(out)@ == old(out)@ + varint(x as nat),
        n == varint(x as nat).len(),
{
    let start_len = out.len();
    let mut v: u64 = x;
    while v >= 128
        invariant
            out@ + varint(v as nat) == old(out)@ + varint(x as nat),
            start_len == old(out)@.len(),
        decreases v,
    {
        proof {
            assert(varint(v as nat) == seq![(v as nat % 128 + 128) as u8] + varint(
                v as nat / 128,
            ));
            assert(out@ + varint(v as nat) == (out@ + seq![(v as nat % 128 + 128) as u8])
                + varint(v as nat / 128));
        }
        out.push((v % 128 + 128) as u8);
        v = v / 128;
    }
    proof {
        assert(varint(v as nat) == seq![v as u8]);
        assert(out@ + varint(v as nat) == (out@ + seq![v as u8]));
    }
    out.push(v as u8);
    out.len() - start_len
}

/// Value of the 7-bit payload groups of `s[i ..= t]`, least significant
/// group first.
spec fn group_val(s: Seq<u8>, i: int, t: int) -> nat
    decreases t - i + 1,
{
    if i > t || t - i + 1 <= 0 {
        0
    } else {
        (s[i] % 128) as nat + 128 * group_val(s, i + 1, t)
    }
}

/// A buffer whose every byte has its high bit set holds no terminated varint.
proof fn lemma_varint_parse_all_continuation(s: Seq<u8>)
    requires
        forall|j: int| 0 <= j < s.len() ==> s[j] >= 128,
    ensures
        varint_parse(s) == Err::<(nat, int), DecodeError>(DecodeError::UnexpectedEndOfInput),
    decreases s.len(),
{
    if s.len() > 0 {
        lemma_varint_parse_all_continuation(s.skip(1));
    }
}

/// Skipping the first byte shifts the group window by one.
proof fn lemma_group_val_skip(s: Seq<u8>, i: int, t: int)
    requires
        1 <= i,
        t < s.len(),
    ensures
        group_val(s, i, t) == group_val(s.skip(1), i - 1, t - 1),
    decreases t - i + 1,
{
    if i <= t {
        lemma_group_val_skip(s, i + 1, t);
    }
}

/// When the first clear high bit is at index `t`, the varint spans exactly
/// `t + 1` bytes and its value is that of the payload groups.
proof fn lemma_varint_parse_groups(s: Seq<u8>, t: int)
    requires
        0 <= t < s.len(),
        s[t] < 128,
        forall|j: int| 0 <= j < t ==> s[j] >= 128,
    ensures
        varint_parse(s) == Ok::<(nat, int), DecodeError>((group_val(s, 0, t), t + 1)),
    decreases t,
{
    if t == 0 {
        assert(group_val(s, 0, 0) == (s[0] % 128) as nat + 128 * group_val(s, 1, 0));
    } else {
        lemma_varint_parse_groups(s.skip(1), t - 1);
        lemma_group_val_skip(s, 1, t);
    }
}

/// The value of a group window only grows as the window extends to the left.
proof fn lemma_group_val_front(s: Seq<u8>, i: int, t: int)
    requires
        0 <= i,
    ensures
        group_val(s, 0, t) >= group_val(s, i, t),
    decreases i,
{
    if i > 0 && i <= t {
        lemma_group_val_front(s, i - 1, t);
        assert(group_val(s, i - 1, t) == (s[i - 1] % 128) as nat + 128 * group_val(s, i, t));
    } else if i > t {
        assert(group_val(s, i, t) == 0);
    }
}

/// Reads one varint from the front of `data`: on success the value and the
/// number of bytes consumed, which is at least one.
pub fn varint_read(data: &[u8]) -> (r: Result<(u64, usize), DecodeError>)
    ensures
        match r {
            Ok(p) => varint_parse_u64(data@) == Ok::<(u64, int), DecodeError>((p.0, p.1 as int))
                && 0 < p.1 <= data@.len(),
            Err(e) => varint_parse_u64(data@) == Err::<(u64, int), DecodeError>(e),
        },
{
    let len = data.len();
    let mut t: usize = 0;
    while t < len && *vstd::slice::slice_index_get(data, t) >= 128
        invariant
            t <= len,
            len == data@.len(),
            forall|j: int| 0 <= j < t ==> data@[j] >= 128,
        decreases len - t,
    {
        t = t + 1;
    }
    if t == len {
        proof {
            lemma_varint_parse_all_continuation(data@);
        }
        return Err(DecodeError::UnexpectedEndOfInput);
    }
    proof {
        lemma_varint_parse_groups(data@, t as int);
    }
    let mut acc: u64 = *vstd::slice::slice_index_get(data, t) as u64;
    proof {
        assert(group_val(data@, t as int, t as int) == (data@[t as int] % 128) as nat + 128
            * group_val(data@, t as int + 1, t as int));
    }
    let mut i: usize = t;
    while i > 0
        invariant
            i <= t < data@.len(),
            data@[t as int] < 128,
            forall|j: int| 0 <= j < t ==> data@[j] >= 128,
            acc as nat == group_val(data@, i as int, t as int),
            varint_parse(data@) == Ok::<(nat, int), DecodeError>((
                group_val(data@, 0, t as int),
                t + 1,
            )),
        decreases i,
    {
        i = i - 1;
        let b = *vstd::slice::slice_index_get(data, i);
        let g = b - 128;
        proof {
            assert(group_val(data@, i as int, t as int) == (g % 128) as nat + 128 * group_val(
                data@,
                i as int + 1,
                t as int,
            ));
        }
        if acc > (u64::MAX - g as u64) / 128 {
            proof {
                lemma_group_val_front(data@, i as int, t as int);
            }
            return Err(DecodeError::InvalidEncoding);
        }
        acc = g as u64 + 128 * acc;
    }
    Ok((acc, t + 1))
}

/// Round trip: decoding from a buffer that starts with the encoding of `x`
/// yields `x` back and consumes exactly the encoding, whatever follows it.
pub proof fn lemma_varint_parse_wire(x: nat, rest: Seq<u8>)
    ensures
        varint_parse(varint(x) + rest) == Ok::<(nat, int), DecodeError>((
            x,
            varint(x).len() as int,
        )),
    decreases x,
{
    if x < 128 {
        assert((varint(x) + rest)[0] == x as u8);
    } else {
        lemma_varint_parse_wire(x / 128, rest);
        assert((varint(x) + rest).skip(1) =~= varint(x / 128) + rest);
        assert((varint(x) + rest)[0] == (x % 128 + 128) as u8);
        assert(x % 128 + 128 * (x / 128) == x);
    }
}

/// Round trip at the `u64` width: every `u64` value fits its own decoding.
pub proof fn lemma_varint_parse_wire_u64(x: u64, rest: Seq<u8>)
    ensures
        varint_parse_u64(varint(x as nat) + rest) == Ok::<(u64, int), DecodeError>((
            x,
            varint(x as nat).len() as int,
        )),
{
    lemma_varint_parse_wire(x as nat, rest);
}

/// The encoding of a value below `128^k` takes at most `k` bytes.
pub proof fn lemma_varint_minimal(x: nat, k: nat)
    requires
        1 <= k,
        x < pow(128, k),
    ensures
        varint(x).len() <= k,
    decreases k,
{
    reveal(pow);
    lemma_pow_positive(128, (k - 1) as nat);
    if x >= 128 {
        assert(pow(128, k) == 128 * pow(
            128,
            (k - 1) as nat,
        ));
        assert(x / 128 < pow(128, (k - 1) as nat)) by (nonlinear_arith)
            requires
                x < 128 * pow(128, (k - 1) as nat),
                pow(128, (k - 1) as nat) >= 1,
        ;
        assert(k >= 2);
        lemma_varint_minimal(x / 128, (k - 1) as nat);
    }
}

/// A value of `128^k` or more takes more than `k` bytes: together with
/// [`lemma_varint_minimal`], the encoded length is the least possible.
pub proof fn lemma_varint_no_shorter(x: nat, k: nat)
    requires
        pow(128, k) <= x,
    ensures
        varint(x).len() > k,
    decreases k,
{
    reveal(pow);
    if k > 0 {
        assert(pow(128, k) == 128 * pow(
            128,
            (k - 1) as nat,
        ));
        lemma_pow_positive(128, (k - 1) as nat);
        assert(x >= 128);
        assert(x / 128 >= pow(128, (k - 1) as nat)) by (nonlinear_arith)
            requires
                x >= 128 * pow(128, (k - 1) as nat),
        ;
        lemma_varint_no_shorter(x / 128, (k - 1) as nat);
    }
}

} // verus!
