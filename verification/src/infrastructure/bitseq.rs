//! Bits as sequences: how numbers, codes and octets spell them.
use vstd::arithmetic::power2::{lemma2_to64, lemma_pow2_unfold, pow2};
use vstd::prelude::*;

verus! {

/// The low `w` bits of `v`, least significant first.
pub open spec fn num_bits(v: nat, w: nat) -> Seq<bool>
    decreases w,
{
    if w == 0 {
        Seq::empty()
    } else {
        seq![v % 2 == 1] + num_bits(v / 2, (w - 1) as nat)
    }
}

/// The number that bits spell, least significant first.
pub open spec fn bits_value(s: Seq<bool>) -> nat
    decreases s.len(),
{
    if s.len() == 0 {
        0
    } else {
        (if s[0] {
            1nat
        } else {
            0
        }) + 2 * bits_value(s.drop_first())
    }
}

/// The low `w` bits of `v`, most significant first.
pub open spec fn code_bits(v: nat, w: nat) -> Seq<bool>
    decreases w,
{
    if w == 0 {
        Seq::empty()
    } else {
        code_bits(v / 2, (w - 1) as nat).push(v % 2 == 1)
    }
}

/// The number that bits spell, most significant first.
pub open spec fn code_value(s: Seq<bool>) -> nat
    decreases s.len(),
{
    if s.len() == 0 {
        0
    } else {
        2 * code_value(s.drop_last()) + (if s.last() {
            1nat
        } else {
            0
        })
    }
}

/// The bits of octets, each least significant bit first.
pub open spec fn bytes_bits(s: Seq<u8>) -> Seq<bool>
    decreases s.len(),
{
    if s.len() == 0 {
        Seq::empty()
    } else {
        num_bits(s[0] as nat, 8) + bytes_bits(s.drop_first())
    }
}

/// Bits packed into octets, least significant bit first; the last octet is
/// filled up with zeros.
pub open spec fn pack(s: Seq<bool>) -> Seq<u8>
    decreases s.len(),
{
    if s.len() == 0 {
        Seq::empty()
    } else if s.len() < 8 {
        seq![bits_value(s) as u8]
    } else {
        seq![bits_value(s.take(8)) as u8] + pack(s.skip(8))
    }
}

pub proof fn lemma_num_bits_len(v: nat, w: nat)
    ensures
        num_bits(v, w).len() == w,
    decreases w,
{
    if w > 0 {
        lemma_num_bits_len(v / 2, (w - 1) as nat);
    }
}

pub proof fn lemma_code_bits_len(v: nat, w: nat)
    ensures
        code_bits(v, w).len() == w,
    decreases w,
{
    if w > 0 {
        lemma_code_bits_len(v / 2, (w - 1) as nat);
    }
}

/// A number comes back from its bits.
pub proof fn lemma_num_bits_value(v: nat, w: nat)
    requires
        v < pow2(w),
    ensures
        bits_value(num_bits(v, w)) == v,
    decreases w,
{
    if w > 0 {
        lemma_pow2_unfold(w);
        lemma_num_bits_value(v / 2, (w - 1) as nat);
        lemma_num_bits_len(v / 2, (w - 1) as nat);
        assert(num_bits(v, w).drop_first() =~= num_bits(v / 2, (w - 1) as nat));
    } else {
        lemma2_to64();
    }
}

/// A code comes back from its bits.
pub proof fn lemma_code_bits_value(v: nat, w: nat)
    requires
        v < pow2(w),
    ensures
        code_value(code_bits(v, w)) == v,
    decreases w,
{
    if w > 0 {
        lemma_pow2_unfold(w);
        lemma_code_bits_value(v / 2, (w - 1) as nat);
        assert(code_bits(v, w).drop_last() =~= code_bits(v / 2, (w - 1) as nat));
    } else {
        lemma2_to64();
    }
}

/// Bits come back from the number they spell.
pub proof fn lemma_bits_value_bits(s: Seq<bool>)
    ensures
        num_bits(bits_value(s), s.len()) == s,
        bits_value(s) < pow2(s.len()),
    decreases s.len(),
{
    if s.len() > 0 {
        lemma_bits_value_bits(s.drop_first());
        lemma_pow2_unfold(s.len());
        let rest = bits_value(s.drop_first());
        assert(bits_value(s) / 2 == rest);
        assert(num_bits(bits_value(s), s.len()) =~= s);
    } else {
        lemma2_to64();
        assert(num_bits(0, 0) =~= s);
    }
}

/// Numbers put side by side: the bits of the low part, then of the high part.
pub proof fn lemma_num_bits_concat(low: nat, n: nat, high: nat, w: nat)
    requires
        low < pow2(n),
    ensures
        num_bits(low + high * pow2(n), n + w) == num_bits(low, n) + num_bits(high, w),
    decreases n,
{
    if n == 0 {
        lemma2_to64();
        assert(high * pow2(0) == high) by (nonlinear_arith)
            requires
                pow2(0) == 1,
        ;
        assert(num_bits(low, 0) + num_bits(high, w) =~= num_bits(high, w));
    } else {
        lemma_pow2_unfold(n);
        let half = pow2((n - 1) as nat);
        assert(high * pow2(n) == 2 * (high * half)) by (nonlinear_arith)
            requires
                pow2(n) == 2 * half,
        ;
        let all = low + high * pow2(n);
        assert(all % 2 == low % 2);
        assert(all / 2 == low / 2 + high * half);
        lemma_num_bits_concat(low / 2, (n - 1) as nat, high, w);
        assert(num_bits(all, n + w) =~= num_bits(low, n) + num_bits(high, w));
    }
}

/// The bits of a number split after the low octet.
pub proof fn lemma_num_bits_low_octet(v: nat, w: nat)
    requires
        w >= 8,
    ensures
        num_bits(v, w) == num_bits(v % 256, 8) + num_bits(v / 256, (w - 8) as nat),
{
    lemma2_to64();
    lemma_num_bits_concat(v % 256, 8, v / 256, (w - 8) as nat);
}

pub proof fn lemma_bytes_bits_len(s: Seq<u8>)
    ensures
        bytes_bits(s).len() == 8 * s.len(),
    decreases s.len(),
{
    if s.len() > 0 {
        lemma_num_bits_len(s[0] as nat, 8);
        lemma_bytes_bits_len(s.drop_first());
    }
}

pub proof fn lemma_bytes_bits_push(s: Seq<u8>, b: u8)
    ensures
        bytes_bits(s.push(b)) == bytes_bits(s) + num_bits(b as nat, 8),
    decreases s.len(),
{
    if s.len() == 0 {
        reveal_with_fuel(bytes_bits, 2);
        assert(s.push(b).drop_first() =~= Seq::<u8>::empty());
        assert(bytes_bits(s.push(b)) =~= bytes_bits(s) + num_bits(b as nat, 8));
    } else {
        lemma_bytes_bits_push(s.drop_first(), b);
        assert(s.push(b).drop_first() =~= s.drop_first().push(b));
        assert(bytes_bits(s.push(b)) =~= bytes_bits(s) + num_bits(b as nat, 8));
    }
}

/// Whole octets are packed as they are, and the rest after them.
pub proof fn lemma_pack_bytes(s: Seq<u8>, rest: Seq<bool>)
    ensures
        pack(bytes_bits(s) + rest) == s + pack(rest),
    decreases s.len(),
{
    if s.len() == 0 {
        assert(bytes_bits(s) + rest =~= rest);
        assert(s + pack(rest) =~= pack(rest));
    } else {
        let all = bytes_bits(s) + rest;
        lemma_num_bits_len(s[0] as nat, 8);
        lemma_bytes_bits_len(s.drop_first());
        lemma2_to64();
        lemma_num_bits_value(s[0] as nat, 8);
        assert(all.take(8) =~= num_bits(s[0] as nat, 8));
        assert(all.skip(8) =~= bytes_bits(s.drop_first()) + rest);
        lemma_pack_bytes(s.drop_first(), rest);
        assert(s =~= seq![s[0]] + s.drop_first());
        assert(s + pack(rest) =~= seq![s[0]] + (s.drop_first() + pack(rest)));
    }
}

/// Packing keeps every bit; what is added fills the last octet.
pub proof fn lemma_pack_keeps_bits(s: Seq<bool>)
    ensures
        s.is_prefix_of(bytes_bits(pack(s))),
    decreases s.len(),
{
    if s.len() == 0 {
    } else if s.len() < 8 {
        lemma_bits_value_bits(s);
        lemma2_to64();
        let v = bits_value(s);
        vstd::arithmetic::power2::lemma_pow2_strictly_increases(s.len(), 8);
        reveal_with_fuel(bytes_bits, 2);
        assert(pack(s).drop_first() =~= Seq::<u8>::empty());
        assert(bytes_bits(pack(s)) =~= num_bits(v, 8));
        lemma_num_bits_concat(v, s.len(), 0, (8 - s.len()) as nat);
        assert(0 * pow2(s.len()) == 0);
        lemma_num_bits_len(0, (8 - s.len()) as nat);
    } else {
        lemma_bits_value_bits(s.take(8));
        lemma2_to64();
        lemma_pack_keeps_bits(s.skip(8));
        assert(pack(s).drop_first() =~= pack(s.skip(8)));
        assert(bytes_bits(pack(s)) =~= s.take(8) + bytes_bits(pack(s.skip(8))));
        let t = bytes_bits(pack(s));
        lemma_bytes_bits_len(pack(s.skip(8)));
        assert forall|i: int| 0 <= i < s.len() implies s[i] == t[i] by {
            if i >= 8 {
                assert(s.skip(8)[i - 8] == bytes_bits(pack(s.skip(8)))[i - 8]);
            }
        }
        assert(s =~= t.take(s.len() as int));
    }
}

} // verus!
