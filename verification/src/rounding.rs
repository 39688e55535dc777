//! Rounding as binary floating-point arithmetic does it, on whole numbers.
use vstd::prelude::*;

verus! {

/// The first number that has a bit too many for single precision.
pub const SINGLE: u128 = 0x100_0000;

/// The first number that has a bit too many for double precision.
pub const DOUBLE: u128 = 0x20_0000_0000_0000;

/// So many fine units make one: two to the power of 54.
pub const FINE: i128 = 0x40_0000_0000_0000;

/// The integer nearest to `n / d`, the even one of two that are equally near.
pub open spec fn half_even(n: nat, d: nat) -> nat {
    let q = n / d;
    let r = n % d;
    if 2 * r < d || (2 * r == d && q % 2 == 0) {
        q
    } else {
        q + 1
    }
}

/// `n / d` in units of `unit`, the unit doubled until the number of units is
/// under `top`; the rounded value.
pub open spec fn coarse(top: nat, n: nat, d: nat, unit: nat) -> nat
    decreases n - d,
{
    if d > 0 && top >= 2 && n >= d * top {
        proof {
            assert(2 * d <= d * top) by (nonlinear_arith)
                requires
                    top >= 2,
            ;
        }
        coarse(top, n, 2 * d, 2 * unit)
    } else {
        half_even(n, d) * unit
    }
}

/// The whole number nearest to `v` that has no more significant bits than
/// those under `top`.
pub open spec fn whole(top: nat, v: int) -> int {
    if v < 0 {
        -(coarse(top, (-v) as nat, 1, 1) as int)
    } else {
        coarse(top, v as nat, 1, 1) as int
    }
}

/// The nearest whole number that single precision has.
pub open spec fn single(v: int) -> int {
    whole(SINGLE as nat, v)
}

/// A number in binary: its significant bits and the power of two of the last.
/// The bits are as many as they may be, unless the number is zero.
pub struct Binary {
    pub bits: u128,
    pub power: i128,
}

/// So many bits under `top`, at a power of two; at the next power if rounding
/// made them one too many.
pub open spec fn carried(top: nat, bits: nat, power: int) -> (nat, int) {
    if bits == top {
        (top / 2, power + 1)
    } else {
        (bits, power)
    }
}

/// `n / d` times a power of two, where it has too many bits before the point.
pub open spec fn narrowed(top: nat, n: nat, d: nat, power: int) -> (nat, int)
    decreases n - d,
{
    if d > 0 && top >= 2 && n >= d * top {
        proof {
            assert(2 * d <= d * top) by (nonlinear_arith)
                requires
                    top >= 2,
            ;
        }
        narrowed(top, n, 2 * d, power + 1)
    } else {
        carried(top, half_even(n, d), power)
    }
}

/// `n / d` times a power of two, where it has too few bits before the point.
pub open spec fn widened(top: nat, n: nat, d: nat, power: int) -> (nat, int)
    decreases d * top - n,
{
    if n > 0 && 2 * n < d * top {
        widened(top, 2 * n, d, power - 1)
    } else {
        carried(top, half_even(n, d), power)
    }
}

/// The number nearest to `n / d` that has as many significant bits as those
/// under `top`: the bits, and the power of two of the last.
pub open spec fn nearest(top: nat, n: nat, d: nat) -> (nat, int) {
    if n >= d * top {
        narrowed(top, n, d, 0)
    } else {
        widened(top, n, d, 0)
    }
}

/// The first number is greater than the second; both have as many bits as they
/// may have.
pub open spec fn above(a: (nat, int), b: (nat, int)) -> bool {
    a.0 > 0 && (b.0 == 0 || a.1 > b.1 || (a.1 == b.1 && a.0 > b.0))
}

impl View for Binary {
    type V = (nat, int);

    open spec fn view(&self) -> (nat, int) {
        (self.bits as nat, self.power as int)
    }
}

impl Binary {
    /// Whether this number is greater than the other.
    pub fn is_above(&self, other: &Binary) -> (r: bool)
        ensures
            r == above(self@, other@),
    {
        self.bits > 0 && (other.bits == 0 || self.power > other.power || (self.power == other.power
            && self.bits > other.bits))
    }
}

/// The integer nearest to a quotient.
pub fn round_half_even(n: u128, d: u128) -> (r: u128)
    requires
        0 < d <= 0x4000_0000_0000_0000_0000_0000_0000_0000,
        n <= 0x4000_0000_0000_0000_0000_0000_0000_0000,
    ensures
        r == half_even(n as nat, d as nat),
        r <= n + 1,
{
    let q: u128 = n / d;
    let r: u128 = n % d;
    proof {
        assert(q <= n) by (nonlinear_arith)
            requires
                q == n / d,
                0 < d,
        ;
    }
    if 2 * r < d || (2 * r == d && q % 2 == 0) {
        q
    } else {
        q + 1
    }
}

pub proof fn lemma_half_even_bound(n: nat, d: nat, limit: nat)
    requires
        d > 0,
        n <= d * limit,
    ensures
        half_even(n, d) <= limit,
{
    let q = n / d;
    let r = n % d;
    vstd::arithmetic::div_mod::lemma_fundamental_div_mod(n as int, d as int);
    assert(n == d * q + r);
    assert(q <= limit) by (nonlinear_arith)
        requires
            d * q <= d * limit,
            d > 0,
    ;
    if q == limit {
        assert(r == 0);
    }
}

/// The rounded value of a quotient that is to keep the bits under `top`.
pub fn round_coarse(top: u128, n: u128, d: u128) -> (r: u128)
    requires
        2 <= top <= DOUBLE,
        0 < d,
        d * top <= 0x4000_0000_0000_0000_0000_0000_0000_0000,
        n <= 0x2000_0000_0000_0000_0000_0000_0000_0000,
    ensures
        r == coarse(top as nat, n as nat, d as nat, 1),
        r <= 2 * n + 1,
        n >= d ==> r > 0,
{
    let mut d: u128 = d;
    let ghost d0 = d;
    let mut unit: u128 = 1;
    while n >= d * top
        invariant
            2 <= top <= DOUBLE,
            n <= 0x2000_0000_0000_0000_0000_0000_0000_0000,
            0 < d,
            0 <= d * top <= 0x4000_0000_0000_0000_0000_0000_0000_0000,
            0 < d0,
            0 < unit <= d,
            d == d0 * unit,
            d == d0 && unit == 1 || n >= d,
            coarse(top as nat, n as nat, d0 as nat, 1) == coarse(
                top as nat,
                n as nat,
                d as nat,
                unit as nat,
            ),
        decreases n - d,
    {
        proof {
            assert(2 * d <= d * top) by (nonlinear_arith)
                requires
                    2 <= top,
                    0 < d,
            ;
            assert(0 <= (2 * d) * top <= 2 * n) by (nonlinear_arith)
                requires
                    n >= d * top,
                    0 < d,
                    0 < top,
            ;
            assert(d0 * (2 * unit) == 2 * (d0 * unit)) by (nonlinear_arith);
        }
        d = 2 * d;
        unit = 2 * unit;
    }
    proof {
        assert(d <= 0x4000_0000_0000_0000_0000_0000_0000_0000) by (nonlinear_arith)
            requires
                0 <= d * top <= 0x4000_0000_0000_0000_0000_0000_0000_0000,
                1 <= top,
                0 < d,
        ;
    }
    let m: u128 = round_half_even(n, d);
    proof {
        let q = n as nat / d as nat;
        vstd::arithmetic::div_mod::lemma_fundamental_div_mod(n as int, d as int);
        assert(d * q <= n);
        assert(unit * q <= d * q) by (nonlinear_arith)
            requires
                unit <= d,
                q >= 0,
        ;
        assert(0 <= m * unit <= (q + 1) * unit) by (nonlinear_arith)
            requires
                0 <= m <= q + 1,
                unit > 0,
        ;
        assert((q + 1) * unit == unit * q + unit) by (nonlinear_arith);
        if n >= d {
            assert(q >= 1) by (nonlinear_arith)
                requires
                    n == d * q + n % d,
                    0 <= n % d < d,
                    n >= d,
                    d > 0,
            ;
            assert(m * unit > 0) by (nonlinear_arith)
                requires
                    m >= 1,
                    unit > 0,
            ;
        }
    }
    m * unit
}

/// The whole number nearest to `v` that keeps the bits under `top`.
pub fn round_whole(top: u128, v: i128) -> (r: i128)
    requires
        2 <= top <= DOUBLE,
        -0x2000_0000_0000_0000_0000_0000_0000_0000 <= v
            <= 0x2000_0000_0000_0000_0000_0000_0000_0000,
    ensures
        r == whole(top as nat, v as int),
        v >= 0 ==> 0 <= r <= 2 * v + 1,
        v < 0 ==> 2 * v - 1 <= r <= 0,
        v > 0 ==> r > 0,
{
    if v < 0 {
        -(round_coarse(top, (-v) as u128, 1) as i128)
    } else {
        round_coarse(top, v as u128, 1) as i128
    }
}

/// The number nearest to a quotient, with the bits under `top`.
pub fn round_quotient(top: u128, n: u128, d: u128) -> (r: Binary)
    requires
        2 <= top <= DOUBLE,
        0 < d,
        d * top <= 0x1000_0000_0000_0000_0000_0000_0000_0000,
        n <= 0x1000_0000_0000_0000_0000_0000_0000_0000,
    ensures
        r@ == nearest(top as nat, n as nat, d as nat),
{
    let mut n: u128 = n;
    let mut d: u128 = d;
    let ghost n0 = n as nat;
    let ghost d0 = d as nat;
    let mut power: i128 = 0;
    if n >= d * top {
        while n >= d * top
            invariant
                n == n0,
                2 <= top <= DOUBLE,
                n <= 0x1000_0000_0000_0000_0000_0000_0000_0000,
                0 < d,
                0 <= d * top <= 0x2000_0000_0000_0000_0000_0000_0000_0000,
                0 <= power <= d,
                narrowed(top as nat, n0, d0, 0) == narrowed(
                    top as nat,
                    n as nat,
                    d as nat,
                    power as int,
                ),
            decreases n - d,
        {
            proof {
                assert(2 * d <= d * top) by (nonlinear_arith)
                    requires
                        2 <= top,
                        0 < d,
                ;
                assert(0 <= (2 * d) * top <= 2 * n) by (nonlinear_arith)
                    requires
                        n >= d * top,
                        0 < d,
                        0 < top,
                ;
            }
            d = 2 * d;
            power = power + 1;
        }
    } else {
        while n > 0 && 2 * n < d * top
            invariant
                d == d0,
                0 < d,
                0 <= d * top <= 0x1000_0000_0000_0000_0000_0000_0000_0000,
                2 <= top <= DOUBLE,
                n <= 0x1000_0000_0000_0000_0000_0000_0000_0000,
                -(n as int) <= power <= 0,
                widened(top as nat, n0, d0, 0) == widened(
                    top as nat,
                    n as nat,
                    d as nat,
                    power as int,
                ),
            decreases d * top - n,
        {
            n = 2 * n;
            power = power - 1;
        }
    }
    proof {
        assert(d <= 0x2000_0000_0000_0000_0000_0000_0000_0000) by (nonlinear_arith)
            requires
                0 <= d * top <= 0x2000_0000_0000_0000_0000_0000_0000_0000,
                1 <= top,
                0 < d,
        ;
    }
    let m: u128 = round_half_even(n, d);
    if m == top {
        Binary { bits: top / 2, power: power + 1 }
    } else {
        Binary { bits: m, power }
    }
}

// ----------------------------------------------------------------------- laws

/// The rounded quotient is a whole number nearest to the quotient, and the even
/// one where two are.
pub proof fn law_nearest_is_taken(n: nat, d: nat)
    requires
        0 < d,
    ensures
        2 * (n - half_even(n, d) * d) <= d,
        2 * (half_even(n, d) * d - n) <= d,
        2 * (n - half_even(n, d) * d) == d || 2 * (half_even(n, d) * d - n) == d ==> half_even(n, d)
            % 2 == 0,
{
    let q = n / d;
    vstd::arithmetic::div_mod::lemma_fundamental_div_mod(n as int, d as int);
    assert(q * d == d * q) by (nonlinear_arith);
    assert((q + 1) * d == q * d + d) by (nonlinear_arith);
}

/// A quotient with few enough bits is rounded to a whole number; one with more
/// is rounded to as many units as fit, of the smallest power of two that lets
/// them.
pub proof fn law_finest_unit_is_taken(top: nat, n: nat, d: nat) -> (k: nat)
    requires
        0 < d,
        2 <= top,
    ensures
        ({
            let unit = vstd::arithmetic::power2::pow2(k);
            &&& coarse(top, n, d, 1) == half_even(n, d * unit) * unit
            &&& n < d * unit * top
            &&& k > 0 ==> n >= d * vstd::arithmetic::power2::pow2((k - 1) as nat) * top
        }),
{
    vstd::arithmetic::power2::lemma2_to64();
    assert(d * 1 == d);
    lemma_finest(top, n, d, 0)
}

proof fn lemma_finest(top: nat, n: nat, d: nat, from: nat) -> (k: nat)
    requires
        0 < d,
        2 <= top,
        from > 0 ==> n >= d * vstd::arithmetic::power2::pow2((from - 1) as nat) * top,
    ensures
        from <= k,
        ({
            let unit = vstd::arithmetic::power2::pow2(k);
            let first = vstd::arithmetic::power2::pow2(from);
            &&& coarse(top, n, d * first, first) == half_even(n, d * unit) * unit
            &&& n < d * unit * top
            &&& k > 0 ==> n >= d * vstd::arithmetic::power2::pow2((k - 1) as nat) * top
        }),
    decreases n - d * vstd::arithmetic::power2::pow2(from),
{
    let first = vstd::arithmetic::power2::pow2(from);
    vstd::arithmetic::power2::lemma_pow2_pos(from);
    assert(0 < d * first) by (nonlinear_arith)
        requires
            0 < d,
            0 < first,
    ;
    if n >= d * first * top {
        vstd::arithmetic::power2::lemma_pow2_unfold((from + 1) as nat);
        let next = vstd::arithmetic::power2::pow2((from + 1) as nat);
        assert(next == 2 * first);
        assert(d * next == 2 * (d * first)) by (nonlinear_arith)
            requires
                next == 2 * first,
        ;
        assert(2 * (d * first) <= d * first * top) by (nonlinear_arith)
            requires
                2 <= top,
                0 < d * first,
        ;
        lemma_finest(top, n, d, (from + 1) as nat)
    } else {
        from
    }
}

/// A whole number with few enough bits stays what it is, and one below zero is
/// rounded as its opposite is.
pub proof fn law_short_numbers_stay(top: nat, v: int)
    requires
        2 <= top,
    ensures
        -top < v < top ==> whole(top, v) == v,
        whole(top, -v) == -whole(top, v),
{
    if -top < v < top {
        let n = (if v < 0 {
            -v
        } else {
            v
        }) as nat;
        law_nearest_is_taken(n, 1);
        assert(half_even(n, 1) * 1 == half_even(n, 1));
        assert(1 * top == top);
    }
    if v == 0 {
        law_nearest_is_taken(0, 1);
        assert(1 * top == top);
        assert(half_even(0, 1) * 1 == half_even(0, 1));
    }
}

} // verus!
