//! What holds of the masks that cut out a picture.
use crate::adapters::masks::{alpha_channel, is_mask, sampled};
use crate::domain::rendering::{row_octets, RasterModel};
use crate::infrastructure::lzh::BIT_WEIGHT;
use vstd::prelude::*;

verus! {

/// A mask is looked at where the middle of the pixel lies on it.
pub proof fn law_middle_is_sampled(v: int, n: int, m: int)
    requires
        0 <= v < n,
        0 < m,
    ensures
        2 * n * sampled(v, n, m) <= (2 * v + 1) * m < 2 * n * (sampled(v, n, m) + 1),
        n == m ==> sampled(v, n, m) == v,
{
    let a = (2 * v + 1) * m;
    let s = sampled(v, n, m);
    vstd::arithmetic::div_mod::lemma_fundamental_div_mod(a, 2 * n);
    assert(2 * n * (s + 1) == 2 * n * s + 2 * n) by (nonlinear_arith);
    if n == m {
        assert(2 * n * v + n == a) by (nonlinear_arith)
            requires
                a == (2 * v + 1) * n,
        ;
        if s < v {
            assert(2 * n * (s + 1) <= 2 * n * v) by (nonlinear_arith)
                requires
                    s + 1 <= v,
                    0 < n,
            ;
        } else if s > v {
            assert(2 * n * s >= 2 * n * v + 2 * n) by (nonlinear_arith)
                requires
                    s >= v + 1,
                    0 < n,
            ;
        }
    }
}

/// Eight bits in an octet, the first the highest.
pub open spec fn octet_of(b: Seq<bool>) -> int {
    let one = |i: int|
        if b[i] {
            1int
        } else {
            0
        };
    128 * one(0) + 64 * one(1) + 32 * one(2) + 16 * one(3) + 8 * one(4) + 4 * one(5) + 2 * one(6)
        + one(7)
}

proof fn lemma_octet_of(b: Seq<bool>, k: int)
    requires
        0 <= k < 8,
    ensures
        0 <= octet_of(b) < 256,
        octet_of(b) / (BIT_WEIGHT@[k] as int) % 2 == (if b[k] {
            1int
        } else {
            0
        }),
{
    let one = |i: int|
        if b[i] {
            1int
        } else {
            0
        };
    let (p, q, r, s, t, u, v, w) = (
        one(0),
        one(1),
        one(2),
        one(3),
        one(4),
        one(5),
        one(6),
        one(7),
    );
    let o = octet_of(b);
    assert(o == 128 * p + 64 * q + 32 * r + 16 * s + 8 * t + 4 * u + 2 * v + w);
    if k == 0 {
        assert(BIT_WEIGHT@[0] == 128);
        assert(o / 128 == p);
    } else if k == 1 {
        assert(BIT_WEIGHT@[1] == 64);
        assert(o / 64 == 2 * p + q);
    } else if k == 2 {
        assert(BIT_WEIGHT@[2] == 32);
        assert(o / 32 == 4 * p + 2 * q + r);
    } else if k == 3 {
        assert(BIT_WEIGHT@[3] == 16);
        assert(o / 16 == 8 * p + 4 * q + 2 * r + s);
    } else if k == 4 {
        assert(BIT_WEIGHT@[4] == 8);
        assert(o / 8 == 16 * p + 8 * q + 4 * r + 2 * s + t);
    } else if k == 5 {
        assert(BIT_WEIGHT@[5] == 4);
        assert(o / 4 == 32 * p + 16 * q + 8 * r + 4 * s + 2 * t + u);
    } else if k == 6 {
        assert(BIT_WEIGHT@[6] == 2);
        assert(o / 2 == 64 * p + 32 * q + 16 * r + 8 * s + 4 * t + 2 * u + v);
    } else {
        assert(BIT_WEIGHT@[7] == 1);
        assert(o / 1 == o);
    }
}

/// A pixel shows where its bit in a mask of the same size is zero, and does not
/// where it is one.
pub proof fn law_zero_bits_show(m: RasterModel, x: int, y: int, b: Seq<bool>)
    requires
        is_mask(m),
        0 <= x < m.width,
        0 <= y < m.height,
        b.len() == 8,
        m.rows[y * ((m.width + 7) / 8) + x / 8] == octet_of(b),
    ensures
        alpha_channel(m, m.width as nat, m.height as nat)[y * m.width + x] == (if b[x % 8] {
            0u8
        } else {
            255u8
        }),
{
    let w = m.width as int;
    let h = m.height as int;
    law_middle_is_sampled(x, w, w);
    law_middle_is_sampled(y, h, h);
    let i = y * w + x;
    assert(0 <= i < w * h) by (nonlinear_arith)
        requires
            i == y * w + x,
            0 <= x < w,
            0 <= y < h,
    ;
    vstd::arithmetic::div_mod::lemma_fundamental_div_mod_converse(i, w, y, x);
    assert(row_octets(w, 1) == (w + 7) / 8);
    lemma_octet_of(b, x % 8);
}

} // verus!
