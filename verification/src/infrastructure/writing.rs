//! Numbers as they are written in a file, and where they stand.
use crate::infrastructure::octets::{be16_of, i16_of, i32_of, u16_of, u32_of};
use vstd::prelude::*;

verus! {

/// The octets stand in the data at `p`.
pub open spec fn lies_at(data: Seq<u8>, p: int, s: Seq<u8>) -> bool {
    0 <= p && p + s.len() <= data.len() && forall|i: int|
        0 <= i < s.len() ==> data[p + i] == #[trigger] s[i]
}

pub proof fn lemma_lies_apart(data: Seq<u8>, p: int, a: Seq<u8>, b: Seq<u8>)
    requires
        lies_at(data, p, a + b),
    ensures
        lies_at(data, p, a),
        lies_at(data, p + a.len(), b),
{
    assert forall|i: int| 0 <= i < a.len() implies data[p + i] == #[trigger] a[i] by {
        assert((a + b)[i] == a[i]);
    }
    assert forall|i: int| 0 <= i < b.len() implies data[p + a.len() + i] == #[trigger] b[i] by {
        assert((a + b)[a.len() + i] == b[i]);
    }
}

/// What stands at the start of the rest stands behind what was left out.
pub proof fn lemma_lies_in_rest(data: Seq<u8>, from: int, p: int, s: Seq<u8>)
    requires
        0 <= from <= data.len(),
        0 <= p,
    ensures
        lies_at(data.subrange(from, data.len() as int), p, s) == lies_at(data, from + p, s),
{
    let rest = data.subrange(from, data.len() as int);
    if p + s.len() <= rest.len() {
        assert(forall|i: int| 0 <= i < s.len() ==> rest[p + i] == #[trigger] data[from + p + i]);
        if lies_at(rest, p, s) {
            assert forall|i: int| 0 <= i < s.len() implies data[from + p + i] == #[trigger] s[i] by {
                assert(rest[p + i] == s[i]);
            }
        }
        if lies_at(data, from + p, s) {
            assert forall|i: int| 0 <= i < s.len() implies rest[p + i] == #[trigger] s[i] by {
                assert(data[from + p + i] == s[i]);
            }
        }
    }
}

/// A number of 16 bits, the lower octet first.
pub open spec fn short(v: nat) -> Seq<u8> {
    seq![(v % 256) as u8, (v / 256) as u8]
}

/// A number of 32 bits, the lowest octet first.
pub open spec fn long(v: nat) -> Seq<u8> {
    short(v % 0x1_0000) + short(v / 0x1_0000)
}

/// A number of 16 bits, the upper octet first.
pub open spec fn big_short(v: nat) -> Seq<u8> {
    seq![(v / 256) as u8, (v % 256) as u8]
}

/// A signed number of 16 bits: a negative one stands for itself and 65536.
pub open spec fn signed_short(v: int) -> Seq<u8> {
    short((if v < 0 {
        v + 0x1_0000
    } else {
        v
    }) as nat)
}

/// A signed number of 32 bits.
pub open spec fn signed_long(v: int) -> Seq<u8> {
    long((if v < 0 {
        v + 0x1_0000_0000
    } else {
        v
    }) as nat)
}

pub proof fn lemma_short_read(data: Seq<u8>, p: int, v: nat)
    requires
        lies_at(data, p, short(v)),
        v < 0x1_0000,
    ensures
        u16_of(data, p) == Some(v as u16),
{
    let s = short(v);
    assert(data[p + 0] == s[0]);
    assert(data[p + 1] == s[1]);
    assert(v % 256 + 256 * (v / 256) == v);
}

pub proof fn lemma_big_short_read(data: Seq<u8>, p: int, v: nat)
    requires
        lies_at(data, p, big_short(v)),
        v < 0x1_0000,
    ensures
        be16_of(data, p) == Some(v as u16),
{
    let s = big_short(v);
    assert(data[p + 0] == s[0]);
    assert(data[p + 1] == s[1]);
    assert(v % 256 + 256 * (v / 256) == v);
}

pub proof fn lemma_long_read(data: Seq<u8>, p: int, v: nat)
    requires
        lies_at(data, p, long(v)),
        v < 0x1_0000_0000,
    ensures
        u32_of(data, p) == Some(v as u32),
{
    lemma_lies_apart(data, p, short(v % 0x1_0000), short(v / 0x1_0000));
    assert(v % 0x1_0000 + 0x1_0000 * (v / 0x1_0000) == v);
    let (a, b) = (v % 0x1_0000, v / 0x1_0000);
    assert(data[p + 2 + 0] == short(b)[0]);
    assert(data[p + 2 + 1] == short(b)[1]);
    assert(data[p + 0] == short(a)[0]);
    assert(data[p + 1] == short(a)[1]);
    assert(a % 256 + 256 * (a / 256) == a);
    assert(b % 256 + 256 * (b / 256) == b);
}

pub proof fn lemma_signed_short_read(data: Seq<u8>, p: int, v: int)
    requires
        lies_at(data, p, signed_short(v)),
        -0x8000 <= v < 0x8000,
    ensures
        i16_of(data, p) == Some(v as i16),
{
    lemma_short_read(data, p, (if v < 0 {
        v + 0x1_0000
    } else {
        v
    }) as nat);
}

pub proof fn lemma_signed_long_read(data: Seq<u8>, p: int, v: int)
    requires
        lies_at(data, p, signed_long(v)),
        -0x8000_0000 <= v < 0x8000_0000,
    ensures
        i32_of(data, p) == Some(v as i32),
{
    lemma_long_read(data, p, (if v < 0 {
        v + 0x1_0000_0000
    } else {
        v
    }) as nat);
}

} // verus!
