//! Numbers read out of octets, with the bounds looked after.
use crate::infrastructure::tlv::le32;
use vstd::prelude::*;

verus! {

/// The little-endian number of the two octets at `i`.
pub open spec fn le16(s: Seq<u8>, i: int) -> nat {
    (s[i] + 0x100 * s[i + 1]) as nat
}

/// A 16-bit pattern as a signed number.
pub open spec fn signed16(v: u16) -> i16 {
    if v < 0x8000 {
        v as i16
    } else {
        (v - 0x1_0000) as i16
    }
}

/// A 32-bit pattern as a signed number.
pub open spec fn signed32(v: u32) -> i32 {
    if v < 0x8000_0000 {
        v as i32
    } else {
        (v - 0x1_0000_0000) as i32
    }
}

/// The little-endian number of four octets at `at`, when they are there.
pub open spec fn u32_of(s: Seq<u8>, at: int) -> Option<u32> {
    if 0 <= at && at + 4 <= s.len() {
        Some(le32(s, at) as u32)
    } else {
        None
    }
}

/// The little-endian number of two octets at `at`, when they are there.
pub open spec fn u16_of(s: Seq<u8>, at: int) -> Option<u16> {
    if 0 <= at && at + 2 <= s.len() {
        Some(le16(s, at) as u16)
    } else {
        None
    }
}

/// The signed little-endian number of four octets at `at`.
pub open spec fn i32_of(s: Seq<u8>, at: int) -> Option<i32> {
    match u32_of(s, at) {
        Some(v) => Some(signed32(v)),
        None => None,
    }
}

/// The signed little-endian number of two octets at `at`.
pub open spec fn i16_of(s: Seq<u8>, at: int) -> Option<i16> {
    match u16_of(s, at) {
        Some(v) => Some(signed16(v)),
        None => None,
    }
}

/// A 32-bit pattern as a signed number.
pub fn to_signed32(v: u32) -> (r: i32)
    ensures
        r == signed32(v),
{
    if v < 0x8000_0000 {
        v as i32
    } else {
        (v as i64 - 0x1_0000_0000) as i32
    }
}

/// A 16-bit pattern as a signed number.
pub fn to_signed16(v: u16) -> (r: i16)
    ensures
        r == signed16(v),
{
    if v < 0x8000 {
        v as i16
    } else {
        (v as i32 - 0x1_0000) as i16
    }
}

pub fn u32_at(d: &[u8], at: usize) -> (r: Option<u32>)
    ensures
        r == u32_of(d@, at as int),
{
    if at > d.len() || d.len() - at < 4 {
        return None;
    }
    Some(
        d[at] as u32 + 0x100 * d[at + 1] as u32 + 0x1_0000 * d[at + 2] as u32 + 0x100_0000 * d[at
            + 3] as u32,
    )
}

pub fn i32_at(d: &[u8], at: usize) -> (r: Option<i32>)
    ensures
        r == i32_of(d@, at as int),
{
    match u32_at(d, at) {
        Some(v) => Some(to_signed32(v)),
        None => None,
    }
}

pub fn u16_at(d: &[u8], at: usize) -> (r: Option<u16>)
    ensures
        r == u16_of(d@, at as int),
{
    if at > d.len() || d.len() - at < 2 {
        return None;
    }
    Some(d[at] as u16 + 0x100 * d[at + 1] as u16)
}

pub fn i16_at(d: &[u8], at: usize) -> (r: Option<i16>)
    ensures
        r == i16_of(d@, at as int),
{
    match u16_at(d, at) {
        Some(v) => Some(to_signed16(v)),
        None => None,
    }
}

/// The big-endian number of two octets at `at`, when they are there.
pub open spec fn be16_of(s: Seq<u8>, at: int) -> Option<u16> {
    if 0 <= at && at + 2 <= s.len() {
        Some((0x100 * s[at] + s[at + 1]) as u16)
    } else {
        None
    }
}

/// The big-endian number of four octets at `at`, when they are there.
pub open spec fn be32_of(s: Seq<u8>, at: int) -> Option<u32> {
    if 0 <= at && at + 4 <= s.len() {
        Some((0x100_0000 * s[at] + 0x1_0000 * s[at + 1] + 0x100 * s[at + 2] + s[at + 3]) as u32)
    } else {
        None
    }
}

pub fn be16_at(d: &[u8], at: usize) -> (r: Option<u16>)
    ensures
        r == be16_of(d@, at as int),
{
    if at > d.len() || d.len() - at < 2 {
        return None;
    }
    Some(0x100 * d[at] as u16 + d[at + 1] as u16)
}

pub fn be32_at(d: &[u8], at: usize) -> (r: Option<u32>)
    ensures
        r == be32_of(d@, at as int),
{
    if at > d.len() || d.len() - at < 4 {
        return None;
    }
    Some(
        0x100_0000 * d[at] as u32 + 0x1_0000 * d[at + 1] as u32 + 0x100 * d[at + 2] as u32 + d[at
            + 3] as u32,
    )
}

/// Appends octets.
pub fn append(out: &mut Vec<u8>, more: &[u8])
    ensures
        final(out)@ == old(out)@ + more@,
{
    out.extend_from_slice(more);
    proof {
        assert(out@ =~= old(out)@ + more@);
    }
}

/// `n` octets of zero.
pub open spec fn zeros(n: int) -> Seq<u8> {
    Seq::new((if n < 0 { 0 } else { n }) as nat, |i: int| 0u8)
}

/// Appends `n` octets of zero.
pub fn append_zeros(out: &mut Vec<u8>, n: usize)
    ensures
        final(out)@ == old(out)@ + zeros(n as int),
{
    let mut k: usize = 0;
    proof {
        assert(out@ + zeros(0) =~= out@);
    }
    while k < n
        invariant
            k <= n,
            out@ == old(out)@ + zeros(k as int),
        decreases n - k,
    {
        out.push(0);
        k += 1;
        proof {
            assert(zeros(k as int) =~= zeros(k - 1).push(0));
            assert(out@ =~= old(out)@ + zeros(k as int));
        }
    }
}

/// The first `n` rows put one after another.
pub open spec fn stacked(row: spec_fn(int) -> Seq<u8>, n: nat) -> Seq<u8>
    decreases n,
{
    if n == 0 {
        Seq::empty()
    } else {
        stacked(row, (n - 1) as nat) + row(n - 1)
    }
}

pub proof fn lemma_stacked_len(row: spec_fn(int) -> Seq<u8>, n: nat, stride: nat)
    requires
        forall|y: int| 0 <= y < n ==> (#[trigger] row(y)).len() == stride,
    ensures
        stacked(row, n).len() == stride * n,
    decreases n,
{
    if n > 0 {
        lemma_stacked_len(row, (n - 1) as nat, stride);
        assert(stride * (n - 1) + stride == stride * n) by (nonlinear_arith);
    } else {
        assert(stride * 0 == 0);
    }
}

} // verus!
