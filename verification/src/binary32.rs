//! Quotients as single-precision arithmetic gives them, printed to one decimal
//! place. Reports state sizes and ratios this way.
use crate::rounding::{
    coarse, half_even, lemma_half_even_bound, round_coarse, round_half_even, SINGLE,
};
use crate::text::{decimal, digit, digit_char, push_wide};
use vstd::prelude::*;

verus! {

/// `n / d` in parts of which `parts` make one, the parts halved until 24 bits
/// are used; how many parts, and how many make one.
pub open spec fn fine(n: nat, d: nat, parts: nat) -> (nat, nat)
    decreases d * 0x100_0000 - n,
{
    if n > 0 && n < d * 0x80_0000 {
        fine(2 * n, d, 2 * parts)
    } else {
        (half_even(n, d), parts)
    }
}

/// The number nearest to `n / d` that has 24 significant bits, as a fraction.
pub open spec fn single(n: nat, d: nat) -> (nat, nat) {
    if n >= d * 0x100_0000 {
        (coarse(SINGLE as nat, n, d, 1), 1)
    } else {
        fine(n, d, 1)
    }
}

/// The quotient of two whole numbers, each taken to single precision first.
pub open spec fn quotient(a: nat, b: nat) -> (nat, nat) {
    let (an, ad) = single(a, 1);
    let (bn, bd) = single(b, 1);
    single(an * bd, ad * bn)
}

/// The quotient in tenths.
pub open spec fn quotient_tenths(a: nat, b: nat) -> nat {
    let (n, d) = quotient(a, b);
    half_even(10 * n, d)
}

/// A number of tenths, written with one decimal place.
pub open spec fn one_decimal(tenths: nat) -> Seq<char> {
    decimal(tenths / 10).push('.').push(digit((tenths % 10) as int))
}

/// The nearest number with 24 significant bits, as a fraction.
fn to_single(n: u128, d: u128) -> (r: (u128, u128))
    requires
        0 < d <= 0x400_0000_0000_0000_0000_0000,
        n <= 0x400_0000_0000_0000_0000_0000,
    ensures
        (r.0 as nat, r.1 as nat) == single(n as nat, d as nat),
        0 < r.1,
        r.1 <= 0x4_0000_0000_0000_0000_0000_0000_0000,
        r.0 <= n * 2 + 0x100_0001,
        n > 0 ==> r.0 > 0,
        d == 1 && n <= u64::MAX ==> r.1 <= 0x100_0000 && r.0 <= 0x2_0000_0000_0000_0000,
{
    let mut n: u128 = n;
    let ghost n0 = n as nat;
    let ghost d0 = d as nat;
    if n >= d * 0x100_0000 {
        return (round_coarse(SINGLE, n, d), 1);
    }
    let mut parts: u128 = 1;
    proof {
        assert(fine(n0, d0, 1) == single(n0, d0));
    }
    while n > 0 && n < d * 0x80_0000
        invariant
            d == d0,
            0 < d <= 0x400_0000_0000_0000_0000_0000,
            n < d * 0x100_0000,
            n == n0 * parts,
            n0 > 0 ==> n > 0,
            n0 == 0 ==> n == 0,
            0 < parts,
            n0 > 0 ==> parts <= n,
            n0 == 0 ==> parts == 1,
            fine(n0, d0, 1) == fine(n as nat, d as nat, parts as nat),
        decreases d * 0x100_0000 - n,
    {
        proof {
            assert(n0 * (2 * parts) == 2 * (n0 * parts)) by (nonlinear_arith);
        }
        n = 2 * n;
        parts = 2 * parts;
    }
    proof {
        lemma_half_even_bound(n as nat, d as nat, 0x100_0000);
        if n > 0 {
            let q = n as nat / d as nat;
            vstd::arithmetic::div_mod::lemma_fundamental_div_mod(n as int, d as int);
            assert(q >= 0x80_0000) by (nonlinear_arith)
                requires
                    n == d * q + n % d,
                    0 <= n % d < d,
                    n >= d * 0x80_0000,
                    d > 0,
            ;
        }
    }
    (round_half_even(n, d), parts)
}

/// The quotient of two whole numbers in tenths, as single-precision arithmetic
/// and printing to one decimal place give it.
pub fn tenths(a: u64, b: u64) -> (r: u128)
    requires
        b > 0,
    ensures
        r == quotient_tenths(a as nat, b as nat),
        r <= 0xFFFF_FFFF_FFFF_FFFF_FFFF_FFFF_FFFF,
{
    let (an, ad) = to_single(a as u128, 1);
    let (bn, bd) = to_single(b as u128, 1);
    proof {
        assert(0 <= an * bd <= 0x400_0000_0000_0000_0000_0000) by (nonlinear_arith)
            requires
                0 <= an <= 0x2_0000_0000_0000_0000,
                0 <= bd <= 0x100_0000,
        ;
        assert(0 < ad * bn <= 0x400_0000_0000_0000_0000_0000) by (nonlinear_arith)
            requires
                0 < ad <= 0x100_0000,
                0 < bn <= 0x2_0000_0000_0000_0000,
        ;
    }
    let (n, d) = to_single(an * bd, ad * bn);
    round_half_even(10 * n, d)
}

/// Appends the quotient of two whole numbers with one decimal place.
pub fn push_quotient(out: &mut String, a: u64, b: u64)
    requires
        b > 0,
    ensures
        final(out)@ == old(out)@ + one_decimal(quotient_tenths(a as nat, b as nat)),
{
    let t: u128 = tenths(a, b);
    push_wide(out, t / 10);
    out.push('.');
    out.push(digit_char((t % 10) as u64));
    proof {
        assert(out@ =~= old(out)@ + one_decimal(t as nat));
    }
}

} // verus!
