//! How bits and numbers stand in octets, most significant first.
use crate::infrastructure::lzh::{bit_at, bits_at, BIT_WEIGHT};
use vstd::arithmetic::div_mod::{lemma_div_denominator, lemma_fundamental_div_mod};
use vstd::arithmetic::power2::{lemma2_to64, lemma_pow2_adds, lemma_pow2_pos, lemma_pow2_unfold, pow2};
use vstd::prelude::*;

verus! {

/// The bit at position `p` is a one.
pub open spec fn is_one(data: Seq<u8>, p: int) -> bool {
    (data[p / 8] as nat / pow2((7 - p % 8) as nat)) % 2 == 1
}

/// The bits stand in the octets from position `p` on.
pub open spec fn stand_in(data: Seq<u8>, p: int, bits: Seq<bool>) -> bool {
    &&& 0 <= p
    &&& p + bits.len() <= 8 * data.len()
    &&& forall|i: int| 0 <= i < bits.len() ==> #[trigger] bits[i] == is_one(data, p + i)
}

/// The last `n` binary digits of `v`.
pub open spec fn binary(v: nat, n: nat) -> Seq<bool> {
    Seq::new(n, |i: int| (v / pow2((n - 1 - i) as nat)) % 2 == 1)
}

pub proof fn lemma_is_one(data: Seq<u8>, p: int)
    requires
        0 <= p,
    ensures
        bit_at(data, p) == (if is_one(data, p) {
            1nat
        } else {
            0
        }),
{
    lemma2_to64();
    let k = p % 8;
    let w = BIT_WEIGHT@[k];
    assert(w as nat == pow2((7 - k) as nat)) by {
        assert(k == 0 ==> w == 128);
        assert(k == 1 ==> w == 64);
        assert(k == 2 ==> w == 32);
        assert(k == 3 ==> w == 16);
        assert(k == 4 ==> w == 8);
        assert(k == 5 ==> w == 4);
        assert(k == 6 ==> w == 2);
        assert(k == 7 ==> w == 1);
    }
}

pub proof fn lemma_stand_apart(data: Seq<u8>, p: int, a: Seq<bool>, b: Seq<bool>)
    requires
        stand_in(data, p, a + b),
    ensures
        stand_in(data, p, a),
        stand_in(data, p + a.len(), b),
{
    assert forall|i: int| 0 <= i < a.len() implies #[trigger] a[i] == is_one(data, p + i) by {
        assert((a + b)[i] == a[i]);
    }
    assert forall|i: int| 0 <= i < b.len() implies #[trigger] b[i] == is_one(
        data,
        p + a.len() + i,
    ) by {
        assert((a + b)[a.len() + i] == b[i]);
    }
}

/// Leaving digits out at the end halves the number for each.
pub proof fn lemma_binary_start(v: nat, n: nat, k: nat)
    requires
        k <= n,
    ensures
        binary(v, n).take(k as int) == binary(v / pow2((n - k) as nat), k),
{
    let d = (n - k) as nat;
    lemma_pow2_pos(d);
    assert forall|i: int| 0 <= i < k implies binary(v, n)[i] == binary(v / pow2(d), k)[i] by {
        let e = (k - 1 - i) as nat;
        lemma_pow2_pos(e);
        lemma_pow2_adds(d, e);
        lemma_div_denominator(v as int, pow2(d) as int, pow2(e) as int);
        assert(d + e == n - 1 - i);
    }
    assert(binary(v, n).take(k as int) =~= binary(v / pow2(d), k));
}

/// A number that stands in binary is read back.
pub proof fn lemma_binary_read(data: Seq<u8>, p: int, v: nat, n: nat)
    requires
        stand_in(data, p, binary(v, n)),
    ensures
        bits_at(data, p, n) == v % pow2(n),
    decreases n,
{
    lemma2_to64();
    if n > 0 {
        let m = (n - 1) as nat;
        let b = binary(v, n);
        lemma_binary_start(v, n, m);
        assert(pow2(1) == 2);
        let less = binary(v / 2, m);
        assert forall|i: int| 0 <= i < less.len() implies #[trigger] less[i] == is_one(
            data,
            p + i,
        ) by {
            assert(b.take(m as int)[i] == b[i]);
        }
        lemma_binary_read(data, p, v / 2, m);
        assert(b[m as int] == is_one(data, p + m));
        assert(pow2(0) == 1);
        assert((n - 1 - m) as nat == 0);
        assert(v / 1 == v);
        assert(b[m as int] == (v % 2 == 1));
        lemma_is_one(data, p + m);
        lemma_pow2_unfold(n);
        lemma_pow2_pos(m);
        let h = pow2(m);
        lemma_fundamental_div_mod((v / 2) as int, h as int);
        let q = (v / 2) / h;
        let r = (v / 2) % h;
        assert(v == (2 * h) * q + (2 * r + v % 2)) by (nonlinear_arith)
            requires
                v == 2 * (v / 2) + v % 2,
                v / 2 == h * q + r,
        ;
        vstd::arithmetic::div_mod::lemma_fundamental_div_mod_converse(
            v as int,
            (2 * h) as int,
            q as int,
            (2 * r + v % 2) as int,
        );
    }
}

/// A number that fits its digits is read back whole.
pub proof fn lemma_number_read(data: Seq<u8>, p: int, v: nat, n: nat)
    requires
        stand_in(data, p, binary(v, n)),
        v < pow2(n),
    ensures
        bits_at(data, p, n) == v,
{
    lemma_binary_read(data, p, v, n);
    vstd::arithmetic::div_mod::lemma_small_mod(v, pow2(n));
}

} // verus!
