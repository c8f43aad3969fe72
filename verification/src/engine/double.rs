//! Double-precision arithmetic on numbers that are not negative, in integers.
//!
//! A number is counted in units of the smallest positive double, `1 / unit()`, so
//! that every double below overflow is a whole number of units. An operation gives
//! the exact result, rounded to 53 binary digits, ties to even.

use vstd::arithmetic::power2::pow2;
use vstd::prelude::*;

verus! {

/// The smallest mantissa of 53 binary digits.
pub const LEAST: u64 = 0x10_0000_0000_0000;

/// One more than the largest mantissa of 53 binary digits.
pub const LIMIT: u64 = 0x20_0000_0000_0000;

/// The units in one.
pub open spec fn unit() -> int {
    pow2(1074) as int
}

/// `n / d` as a whole number: the nearest one, and the even one of two that are
/// equally near.
pub open spec fn half_even(n: int, d: int) -> int {
    let q = n / d;
    let r = n % d;
    if 2 * r < d || (2 * r == d && q % 2 == 0) {
        q
    } else {
        q + 1
    }
}

/// How many binary digits of `n / d` are beyond the first 53.
pub open spec fn excess(n: int, d: int) -> nat
    decreases n - d,
{
    if d <= 0 || n < LIMIT * d {
        0
    } else {
        1 + excess(n, 2 * d)
    }
}

/// `n / d` units, rounded to a double.
pub open spec fn nearest(n: int, d: int) -> int {
    let step = pow2(excess(n, d)) as int;
    half_even(n, d * step) * step
}

/// The whole number `n`, as a double.
pub open spec fn of(n: int) -> int {
    nearest(n * unit(), 1)
}

/// The sum of two doubles.
pub open spec fn plus(a: int, b: int) -> int {
    nearest(a + b, 1)
}

/// The product of two doubles.
pub open spec fn times(a: int, b: int) -> int {
    nearest(a * b, unit())
}

/// The quotient of two doubles.
pub open spec fn over(a: int, b: int) -> int {
    nearest(a * unit(), b)
}

/// A double without its fraction; the largest `u64` where it is larger.
pub open spec fn whole(a: int) -> int {
    if a / unit() <= u64::MAX {
        a / unit()
    } else {
        u64::MAX as int
    }
}

// ─── Rounding ────────────────────────────────────────────────────────────────

proof fn lemma_excess_bounds(n: int, d: int)
    requires
        0 < d,
    ensures
        n < LIMIT * (d * pow2(excess(n, d))),
        excess(n, d) > 0 ==> n >= LEAST * (d * pow2(excess(n, d))),
    decreases n - d,
{
    let k = excess(n, d);
    vstd::arithmetic::power2::lemma2_to64();
    if n >= LIMIT * d {
        lemma_excess_bounds(n, 2 * d);
        vstd::arithmetic::power2::lemma_pow2_unfold(k);
        let p = pow2((k - 1) as nat) as int;
        assert(d * (2 * p) == (2 * d) * p) by (nonlinear_arith);
        if k == 1 {
            assert((2 * d) * p == 2 * d) by (nonlinear_arith)
                requires
                    p == 1,
            ;
        }
    } else {
        assert(d * 1 == d);
    }
}

proof fn lemma_excess_is(n: int, d: int, k: nat)
    requires
        0 < d,
        LEAST * (d * pow2(k)) <= n < LIMIT * (d * pow2(k)),
    ensures
        excess(n, d) == k,
    decreases k,
{
    vstd::arithmetic::power2::lemma2_to64();
    if k > 0 {
        vstd::arithmetic::power2::lemma_pow2_unfold(k);
        vstd::arithmetic::power2::lemma_pow2_pos((k - 1) as nat);
        let p = pow2((k - 1) as nat) as int;
        assert(d * (2 * p) == (2 * d) * p && (2 * d) * p >= 2 * d) by (nonlinear_arith)
            requires
                0 < d,
                1 <= p,
        ;
        lemma_excess_is(n, 2 * d, (k - 1) as nat);
    } else {
        assert(d * 1 == d);
    }
}

proof fn lemma_half_even_scaled(n: int, d: int, c: int)
    requires
        0 < d,
        0 < c,
    ensures
        half_even(n * c, d * c) == half_even(n, d),
{
    let q = n / d;
    let r = n % d;
    vstd::arithmetic::div_mod::lemma_fundamental_div_mod(n, d);
    assert(n * c == q * (d * c) + r * c && 0 <= r * c < d * c && 0 < d * c) by (nonlinear_arith)
        requires
            n == d * q + r,
            0 <= r < d,
            0 < c,
    ;
    vstd::arithmetic::div_mod::lemma_fundamental_div_mod_converse(n * c, d * c, q, r * c);
    assert((2 * (r * c) < d * c <==> 2 * r < d) && (2 * (r * c) == d * c <==> 2 * r == d))
        by (nonlinear_arith)
        requires
            0 < c,
    ;
}

/// Both numbers made larger alike leave the result as it is.
proof fn lemma_nearest_scaled(n: int, d: int, c: int)
    requires
        0 < d,
        0 < c,
        0 <= n,
    ensures
        nearest(n * c, d * c) == nearest(n, d),
{
    let k = excess(n, d);
    let p = pow2(k) as int;
    vstd::arithmetic::power2::lemma_pow2_pos(k);
    vstd::arithmetic::power2::lemma2_to64();
    lemma_excess_bounds(n, d);
    assert((d * c) * p == (d * p) * c && 0 < d * c && 0 < d * p) by (nonlinear_arith)
        requires
            0 < d,
            0 < c,
            0 < p,
    ;
    assert(n * c < LIMIT * ((d * p) * c)) by (nonlinear_arith)
        requires
            n < LIMIT * (d * p),
            0 < c,
    ;
    if k > 0 {
        assert(n * c >= LEAST * ((d * p) * c)) by (nonlinear_arith)
            requires
                n >= LEAST * (d * p),
                0 < c,
        ;
        lemma_excess_is(n * c, d * c, k);
    } else {
        assert((d * c) * 1 == d * c);
        assert(excess(n * c, d * c) == 0);
    }
    lemma_half_even_scaled(n, d * p, c);
}

/// A power of two passes through the rounding, where all 53 digits are there.
proof fn lemma_nearest_shifted(n: int, d: int, j: nat)
    requires
        0 < d,
        LEAST * d <= n,
    ensures
        nearest(n * pow2(j), d) == nearest(n, d) * pow2(j),
{
    let k = excess(n, d);
    let p = pow2(k) as int;
    let s = pow2(j) as int;
    vstd::arithmetic::power2::lemma_pow2_pos(k);
    vstd::arithmetic::power2::lemma_pow2_pos(j);
    vstd::arithmetic::power2::lemma_pow2_adds(k, j);
    vstd::arithmetic::power2::lemma2_to64();
    lemma_excess_bounds(n, d);
    if k == 0 {
        assert(d * 1 == d);
    }
    assert(d * (p * s) == (d * p) * s && 0 < d * p) by (nonlinear_arith)
        requires
            0 < d,
            0 < p,
    ;
    assert(LEAST * ((d * p) * s) <= n * s < LIMIT * ((d * p) * s)) by (nonlinear_arith)
        requires
            LEAST * (d * p) <= n < LIMIT * (d * p),
            0 < s,
    ;
    lemma_excess_is(n * s, d, k + j);
    lemma_half_even_scaled(n, d * p, s);
    let h = half_even(n, d * p);
    assert(h * (p * s) == (h * p) * s) by (nonlinear_arith);
}

// ─── Doubles ─────────────────────────────────────────────────────────────────

/// A double that is not negative: `mantissa` times two to the power of `exponent`,
/// in units.
#[derive(Debug, Clone, Copy)]
pub struct Double {
    mantissa: u64,
    exponent: u32,
}

impl View for Double {
    type V = int;

    closed spec fn view(&self) -> int {
        self.mantissa * pow2(self.exponent as nat)
    }
}

proof fn lemma_exponent_bound(k: nat, dd: int)
    requires
        pow2(k) <= dd < 0x10_0000_0000_0000_0000_0000,
    ensures
        k < 84,
{
    if k >= 84 {
        vstd::arithmetic::power2::lemma2_to64();
        vstd::arithmetic::power2::lemma_pow2_adds(64, 20);
        if k > 84 {
            vstd::arithmetic::power2::lemma_pow2_strictly_increases(84, k);
        }
    }
}

/// Round `n / d`: a mantissa of 53 digits, and the power of two that it is to be
/// multiplied by.
fn round(n: u128, d: u128) -> (r: (u64, u32))
    requires
        0 < d,
        LEAST * d <= n < 0x1_0000_0000_0000_0000_0000_0000_0000_00,
    ensures
        LEAST <= r.0 < LIMIT,
        r.0 * pow2(r.1 as nat) == nearest(n as int, d as int),
        r.1 <= 84,
        LEAST * pow2(r.1 as nat) <= 2 * n,
{
    let mut dd: u128 = d;
    let mut k: u32 = 0;
    proof {
        vstd::arithmetic::power2::lemma2_to64();
        assert(d * 1 == d);
    }
    while n / LIMIT as u128 >= dd
        invariant
            0 < d <= dd,
            LEAST * dd <= n < 0x1_0000_0000_0000_0000_0000_0000_0000_00,
            dd == d * pow2(k as nat),
            k < 84,
            excess(n as int, d as int) == k + excess(n as int, dd as int),
        decreases n - dd,
    {
        proof {
            vstd::arithmetic::power2::lemma_pow2_unfold((k + 1) as nat);
            vstd::arithmetic::power2::lemma_pow2_pos(k as nat);
            let p = pow2(k as nat) as int;
            assert(d * (2 * p) == 2 * (d * p) && 2 * p <= d * (2 * p)) by (nonlinear_arith)
                requires
                    1 <= d,
                    0 < p,
            ;
            lemma_exponent_bound((k + 1) as nat, 2 * dd);
        }
        dd = 2 * dd;
        k = k + 1;
    }
    let q: u128 = n / dd;
    let r: u128 = n % dd;
    proof {
        vstd::arithmetic::div_mod::lemma_fundamental_div_mod(n as int, dd as int);
        let qi = q as int;
        let di = dd as int;
        assert(LEAST <= qi < LIMIT) by (nonlinear_arith)
            requires
                n == di * qi + r,
                0 <= r < di,
                LEAST * di <= n < LIMIT * di,
        ;
        assert(excess(n as int, d as int) == k);
        let p = pow2(k as nat) as int;
        vstd::arithmetic::power2::lemma_pow2_pos(k as nat);
        assert(LEAST * p <= n) by (nonlinear_arith)
            requires
                LEAST * (d * p) <= n,
                1 <= d,
                0 < p,
        ;
    }
    let up = 2 * r > dd || (2 * r == dd && q % 2 == 1);
    let m: u64 = if up {
        (q + 1) as u64
    } else {
        q as u64
    };
    if m == LIMIT {
        proof {
            vstd::arithmetic::power2::lemma_pow2_unfold((k + 1) as nat);
            let p = pow2(k as nat) as int;
            assert(LEAST * (2 * p) == LIMIT * p) by (nonlinear_arith);
        }
        (LEAST, k + 1)
    } else {
        (m, k)
    }
}

proof fn lemma_nearest_zero(d: int)
    requires
        0 < d,
    ensures
        nearest(0, d) == 0,
{
    vstd::arithmetic::power2::lemma2_to64();
    assert(d * 1 == d);
    vstd::arithmetic::div_mod::lemma_fundamental_div_mod_converse(0, d, 0, 0);
    assert(excess(0, d) == 0);
    let step = pow2(excess(0, d)) as int;
    assert(d * step == d) by (nonlinear_arith)
        requires
            step == 1,
    ;
    assert(half_even(0, d) * step == 0) by (nonlinear_arith)
        requires
            half_even(0, d) == 0,
    ;
}

/// A mantissa of 53 digits, or nothing, times a power of two is a double already.
proof fn lemma_double_stays(mantissa: int, x: nat)
    requires
        mantissa == 0 || LEAST <= mantissa < LIMIT,
    ensures
        nearest(mantissa * pow2(x), 1) == mantissa * pow2(x),
{
    vstd::arithmetic::power2::lemma2_to64();
    if mantissa == 0 {
        assert(0 * pow2(x) == 0);
        lemma_nearest_zero(1);
    } else {
        lemma_nearest_shifted(mantissa, 1, x);
        vstd::arithmetic::div_mod::lemma_fundamental_div_mod_converse(mantissa, 1, mantissa, 0);
    }
}

proof fn lemma_pow2_between(low: nat, high: nat)
    requires
        low <= high,
    ensures
        0 < pow2(low) <= pow2(high),
{
    vstd::arithmetic::power2::lemma_pow2_pos(low);
    if low < high {
        vstd::arithmetic::power2::lemma_pow2_strictly_increases(low, high);
    }
}

/// Two to the power of `e`.
fn two_to(e: u32) -> (n: u128)
    requires
        e <= 64,
    ensures
        n == pow2(e as nat),
{
    let mut n: u128 = 1;
    let mut i: u32 = 0;
    proof {
        vstd::arithmetic::power2::lemma2_to64();
    }
    while i < e
        invariant
            i <= e <= 64,
            n == pow2(i as nat),
        decreases e - i,
    {
        proof {
            vstd::arithmetic::power2::lemma2_to64();
            lemma_pow2_between(i as nat, 64);
            vstd::arithmetic::power2::lemma_pow2_unfold((i + 1) as nat);
        }
        n = 2 * n;
        i = i + 1;
    }
    n
}

impl Double {
    /// A mantissa of 53 digits, or nothing.
    pub closed spec fn wf(self) -> bool {
        &&& self.mantissa == 0 || LEAST <= self.mantissa < LIMIT
        &&& self.exponent <= 10000
    }

    /// The power of two that the mantissa is multiplied by.
    pub closed spec fn scale(self) -> int {
        self.exponent as int
    }

    /// The whole number `n`.
    pub fn from_whole(n: u128) -> (x: Self)
        requires
            n < 0x1_0000_0000_0000_0000_0000_0000_0000_00,
        ensures
            x.wf(),
            x@ == of(n as int),
            1022 <= x.scale() <= 1158,
    {
        proof {
            vstd::arithmetic::power2::lemma2_to64();
            vstd::arithmetic::power2::lemma2_to64_rest();
            vstd::arithmetic::power2::lemma_pow2_adds(52, 1022);
        }
        if n == 0 {
            proof {
                lemma_nearest_zero(1);
                assert(0 * unit() == 0 && 0 * pow2(1074) == 0) by (nonlinear_arith);
            }
            return Double { mantissa: 0, exponent: 1074 };
        }
        if n < LEAST as u128 {
            let (mantissa, k) = round(n * LEAST as u128, 1);
            proof {
                let u = pow2(1022) as int;
                assert(n * (LEAST * u) == (n * LEAST) * u) by (nonlinear_arith);
                lemma_nearest_shifted(n * LEAST, 1, 1022);
                vstd::arithmetic::power2::lemma_pow2_adds(k as nat, 1022);
                let p = pow2(k as nat) as int;
                assert(mantissa * (p * u) == (mantissa * p) * u) by (nonlinear_arith);
            }
            Double { mantissa, exponent: 1022 + k }
        } else {
            let (mantissa, k) = round(n, 1);
            proof {
                lemma_nearest_shifted(n as int, 1, 1074);
                vstd::arithmetic::power2::lemma_pow2_adds(k as nat, 1074);
                let p = pow2(k as nat) as int;
                let u = pow2(1074) as int;
                assert(mantissa * (p * u) == (mantissa * p) * u) by (nonlinear_arith);
            }
            Double { mantissa, exponent: 1074 + k }
        }
    }

    /// The product.
    pub fn times(self, other: Self) -> (x: Self)
        requires
            self.wf(),
            other.wf(),
            1074 <= self.scale() + other.scale() <= 5000,
        ensures
            x.wf(),
            x@ == times(self@, other@),
            self.scale() + other.scale() - 1074 <= x.scale() <= self.scale() + other.scale() - 990,
    {
        let s: u32 = self.exponent + other.exponent - 1074;
        let ghost a = self.mantissa as int;
        let ghost b = other.mantissa as int;
        let ghost pa = pow2(self.exponent as nat) as int;
        let ghost pb = pow2(other.exponent as nat) as int;
        let ghost ps = pow2(s as nat) as int;
        proof {
            vstd::arithmetic::power2::lemma_pow2_pos(1074);
            vstd::arithmetic::power2::lemma_pow2_adds(
                self.exponent as nat,
                other.exponent as nat,
            );
            vstd::arithmetic::power2::lemma_pow2_adds(s as nat, 1074);
            assert((a * pa) * (b * pb) == ((a * b) * ps) * unit()) by (nonlinear_arith)
                requires
                    pa * pb == ps * unit(),
            ;
        }
        if self.mantissa == 0 || other.mantissa == 0 {
            proof {
                assert(a * b == 0 && (a * b) * ps == 0 && ((a * b) * ps) * unit() == 0)
                    by (nonlinear_arith)
                    requires
                        a == 0 || b == 0,
                ;
                lemma_nearest_zero(unit());
                assert(0 * pow2(s as nat) == 0);
            }
            return Double { mantissa: 0, exponent: s };
        }
        assert(LEAST * LEAST <= a * b < LIMIT * LIMIT) by (nonlinear_arith)
            requires
                LEAST <= a < LIMIT,
                LEAST <= b < LIMIT,
        ;
        let (mantissa, k) = round(self.mantissa as u128 * other.mantissa as u128, 1);
        proof {
            vstd::arithmetic::power2::lemma_pow2_pos(s as nat);
            assert(0 <= (a * b) * ps) by (nonlinear_arith)
                requires
                    0 <= a * b,
                    0 < ps,
            ;
            lemma_nearest_scaled((a * b) * ps, 1, unit());
            assert(1 * unit() == unit());
            lemma_nearest_shifted(a * b, 1, s as nat);
            vstd::arithmetic::power2::lemma_pow2_adds(k as nat, s as nat);
            let p = pow2(k as nat) as int;
            assert(mantissa * (p * ps) == (mantissa * p) * ps) by (nonlinear_arith);
        }
        Double { mantissa, exponent: s + k }
    }

    /// The quotient.
    pub fn over(self, other: Self) -> (x: Self)
        requires
            self.wf(),
            other.wf(),
            other@ > 0,
            0 <= self.scale() + 1010 - other.scale() <= 5000,
        ensures
            x.wf(),
            x@ == over(self@, other@),
            self.scale() + 1010 - other.scale() <= x.scale() <= self.scale() + 1094
                - other.scale(),
    {
        let s: u32 = self.exponent + 1010 - other.exponent;
        let ghost a = self.mantissa as int;
        let ghost b = other.mantissa as int;
        let ghost pa = pow2(self.exponent as nat) as int;
        let ghost pb = pow2(other.exponent as nat) as int;
        let ghost ps = pow2(s as nat) as int;
        let ghost top = pow2(64) as int;
        proof {
            vstd::arithmetic::power2::lemma2_to64();
            vstd::arithmetic::power2::lemma_pow2_pos(other.exponent as nat);
            vstd::arithmetic::power2::lemma_pow2_pos(s as nat);
            vstd::arithmetic::power2::lemma_pow2_adds(self.exponent as nat, 1074);
            vstd::arithmetic::power2::lemma_pow2_adds(s as nat, 64);
            vstd::arithmetic::power2::lemma_pow2_adds((s + 64) as nat, other.exponent as nat);
            assert(b > 0) by {
                if b == 0 {
                    assert(0 * pow2(other.exponent as nat) == 0) by (nonlinear_arith);
                }
            }
            assert((a * pa) * unit() == (((a * top) * ps) * pb)) by (nonlinear_arith)
                requires
                    pa * unit() == (ps * top) * pb,
            ;
            assert(0 <= (a * top) * ps) by (nonlinear_arith)
                requires
                    0 <= a,
                    0 < top,
                    0 < ps,
            ;
            lemma_nearest_scaled((a * top) * ps, b, pb);
        }
        if self.mantissa == 0 {
            proof {
                assert((0 * top) * ps == 0) by (nonlinear_arith);
                lemma_nearest_zero(b);
                assert(0 * pow2(s as nat) == 0);
            }
            return Double { mantissa: 0, exponent: s };
        }
        let n: u128 = self.mantissa as u128 * 0x1_0000_0000_0000_0000;
        let (mantissa, k) = round(n, other.mantissa as u128);
        proof {
            lemma_nearest_shifted(a * top, b, s as nat);
            vstd::arithmetic::power2::lemma_pow2_adds(k as nat, s as nat);
            let p = pow2(k as nat) as int;
            assert(mantissa * (p * ps) == (mantissa * p) * ps) by (nonlinear_arith);
        }
        Double { mantissa, exponent: s + k }
    }

    /// The sum.
    pub fn plus(self, other: Self) -> (x: Self)
        requires
            self.wf(),
            other.wf(),
            self.scale() <= 5000,
            other.scale() <= 5000,
        ensures
            x.wf(),
            x@ == plus(self@, other@),
            x.scale() >= self.scale() || x.scale() >= other.scale(),
            x.scale() <= self.scale() + 84 || x.scale() <= other.scale() + 84,
    {
        if self.exponent >= other.exponent {
            self.plus_lower(other)
        } else {
            other.plus_lower(self)
        }
    }

    fn plus_lower(self, other: Self) -> (x: Self)
        requires
            self.wf(),
            other.wf(),
            other.scale() <= self.scale() <= 5000,
        ensures
            x.wf(),
            x@ == plus(self@, other@),
            x.scale() >= other.scale(),
            x.scale() <= self.scale() + 84,
    {
        let ghost a = self.mantissa as int;
        let ghost b = other.mantissa as int;
        let ghost pa = pow2(self.exponent as nat) as int;
        let ghost pb = pow2(other.exponent as nat) as int;
        if self.mantissa == 0 {
            proof {
                lemma_double_stays(b, other.exponent as nat);
                assert(0 * pa == 0) by (nonlinear_arith);
            }
            return other;
        }
        let gap: u32 = self.exponent - other.exponent;
        let ghost pg = pow2(gap as nat) as int;
        proof {
            vstd::arithmetic::power2::lemma_pow2_adds(gap as nat, other.exponent as nat);
            assert(a * pa + b * pb == (a * pg + b) * pb) by (nonlinear_arith)
                requires
                    pa == pg * pb,
            ;
            lemma_pow2_between(0, gap as nat);
            vstd::arithmetic::power2::lemma2_to64();
            assert(LEAST * pg <= a * pg && LEAST <= LEAST * pg) by (nonlinear_arith)
                requires
                    LEAST <= a,
                    1 <= pg,
            ;
            lemma_nearest_shifted(a * pg + b, 1, other.exponent as nat);
        }
        if gap > 60 {
            proof {
                lemma_pow2_between(60, gap as nat);
                vstd::arithmetic::power2::lemma2_to64_rest();
                assert(LEAST * (1 * pg) <= a * pg + b < LIMIT * (1 * pg)) by (nonlinear_arith)
                    requires
                        LEAST <= a <= LIMIT - 1,
                        0 <= b < pg,
                ;
                lemma_excess_is(a * pg + b, 1, gap as nat);
                vstd::arithmetic::div_mod::lemma_fundamental_div_mod_converse(
                    a * pg + b,
                    1 * pg,
                    a,
                    b,
                );
                assert((a * pg) * pb == a * pa) by (nonlinear_arith)
                    requires
                        pa == pg * pb,
                ;
            }
            return self;
        }
        proof {
            lemma_pow2_between(gap as nat, 60);
            vstd::arithmetic::power2::lemma2_to64_rest();
            assert(a * pg <= LIMIT * 0x1000_0000_0000_0000) by (nonlinear_arith)
                requires
                    0 <= a <= LIMIT,
                    0 < pg <= 0x1000_0000_0000_0000,
            ;
        }
        let n: u128 = self.mantissa as u128 * two_to(gap) + other.mantissa as u128;
        let (mantissa, k) = round(n, 1);
        proof {
            vstd::arithmetic::power2::lemma_pow2_adds(k as nat, other.exponent as nat);
            let p = pow2(k as nat) as int;
            assert(mantissa * (p * pb) == (mantissa * p) * pb) by (nonlinear_arith);
        }
        Double { mantissa, exponent: other.exponent + k }
    }

    /// The number without its fraction; the largest `u64` where it is larger.
    pub fn whole(self) -> (n: u64)
        requires
            self.wf(),
        ensures
            n == whole(self@),
    {
        let ghost m = self.mantissa as int;
        let ghost px = pow2(self.exponent as nat) as int;
        proof {
            vstd::arithmetic::power2::lemma_pow2_pos(self.exponent as nat);
            vstd::arithmetic::power2::lemma_pow2_pos(1074);
        }
        if self.exponent >= 1074 {
            let up: u32 = self.exponent - 1074;
            let ghost pu = pow2(up as nat) as int;
            proof {
                vstd::arithmetic::power2::lemma_pow2_adds(up as nat, 1074);
                assert(m * (pu * unit()) == (m * pu) * unit() + 0) by (nonlinear_arith);
                vstd::arithmetic::div_mod::lemma_fundamental_div_mod_converse(
                    m * px,
                    unit(),
                    m * pu,
                    0,
                );
            }
            if self.mantissa == 0 {
                assert(0 * pu == 0) by (nonlinear_arith);
                return 0;
            }
            if up > 64 {
                proof {
                    vstd::arithmetic::power2::lemma2_to64();
                    lemma_pow2_between(64, up as nat);
                    assert(m * pu > u64::MAX) by (nonlinear_arith)
                        requires
                            1 <= m,
                            pu > u64::MAX,
                    ;
                }
                return u64::MAX;
            }
            proof {
                vstd::arithmetic::power2::lemma2_to64();
                lemma_pow2_between(up as nat, 64);
                assert(0 <= m * pu <= LIMIT * 0x1_0000_0000_0000_0000) by (nonlinear_arith)
                    requires
                        0 <= m <= LIMIT,
                        0 <= pu <= 0x1_0000_0000_0000_0000,
                ;
            }
            let n: u128 = self.mantissa as u128 * two_to(up);
            if n <= u64::MAX as u128 {
                n as u64
            } else {
                u64::MAX
            }
        } else {
            let down: u32 = 1074 - self.exponent;
            let ghost pd = pow2(down as nat) as int;
            proof {
                vstd::arithmetic::power2::lemma_pow2_adds(down as nat, self.exponent as nat);
                vstd::arithmetic::power2::lemma_pow2_pos(down as nat);
                lemma_div_by_power(m, pd, px);
            }
            if down > 64 {
                proof {
                    vstd::arithmetic::power2::lemma2_to64();
                    lemma_pow2_between(64, down as nat);
                    vstd::arithmetic::div_mod::lemma_fundamental_div_mod_converse(m, pd, 0, m);
                }
                return 0;
            }
            let n: u128 = self.mantissa as u128 / two_to(down);
            proof {
                vstd::arithmetic::div_mod::lemma_div_is_ordered_by_denominator(m, 1, pd);
                vstd::arithmetic::div_mod::lemma_fundamental_div_mod(m, pd);
                assert(n <= m) by (nonlinear_arith)
                    requires
                        n == m / pd,
                        m == pd * (m / pd) + m % pd,
                        0 <= m % pd,
                        1 <= pd,
                        0 <= m,
                ;
            }
            n as u64
        }
    }

    /// Whether the number is nothing.
    pub fn is_zero(self) -> (r: bool)
        requires
            self.wf(),
        ensures
            r == (self@ == 0),
    {
        proof {
            let p = pow2(self.exponent as nat) as int;
            vstd::arithmetic::power2::lemma_pow2_pos(self.exponent as nat);
            assert((self.mantissa * p == 0) == (self.mantissa == 0)) by (nonlinear_arith)
                requires
                    0 < p,
                    0 <= self.mantissa,
            ;
        }
        self.mantissa == 0
    }

    /// The fraction.
    pub fn fraction(self) -> (x: Self)
        requires
            self.wf(),
            self.scale() >= 64,
        ensures
            x.wf(),
            x@ == self@ % unit(),
            self.scale() - 60 <= x.scale() <= self.scale(),
    {
        let ghost m = self.mantissa as int;
        let ghost px = pow2(self.exponent as nat) as int;
        proof {
            vstd::arithmetic::power2::lemma_pow2_pos(self.exponent as nat);
            vstd::arithmetic::power2::lemma_pow2_pos(1074);
        }
        if self.exponent >= 1074 {
            let ghost up = (self.exponent - 1074) as nat;
            proof {
                vstd::arithmetic::power2::lemma_pow2_adds(up, 1074);
                let pu = pow2(up) as int;
                assert(m * (pu * unit()) == (m * pu) * unit() + 0) by (nonlinear_arith);
                vstd::arithmetic::div_mod::lemma_fundamental_div_mod_converse(
                    m * px,
                    unit(),
                    m * pu,
                    0,
                );
                assert(0 * px == 0) by (nonlinear_arith);
            }
            return Double { mantissa: 0, exponent: self.exponent };
        }
        let down: u32 = 1074 - self.exponent;
        let ghost pd = pow2(down as nat) as int;
        proof {
            vstd::arithmetic::power2::lemma_pow2_adds(down as nat, self.exponent as nat);
            vstd::arithmetic::power2::lemma_pow2_pos(down as nat);
            lemma_div_by_power(m, pd, px);
        }
        if down > 64 {
            proof {
                vstd::arithmetic::power2::lemma2_to64();
                lemma_pow2_between(64, down as nat);
                vstd::arithmetic::div_mod::lemma_fundamental_div_mod_converse(m, pd, 0, m);
            }
            return self;
        }
        let r: u128 = self.mantissa as u128 % two_to(down);
        proof {
            vstd::arithmetic::div_mod::lemma_fundamental_div_mod(m, pd);
            assert(r <= m) by (nonlinear_arith)
                requires
                    r == m % pd,
                    m == pd * (m / pd) + m % pd,
                    0 <= m / pd,
                    1 <= pd,
            ;
        }
        if r == 0 {
            assert(0 * px == 0) by (nonlinear_arith);
            return Double { mantissa: 0, exponent: self.exponent };
        }
        let mut mantissa: u64 = r as u64;
        let mut exponent: u32 = self.exponent;
        let ghost mut steps: int = 0;
        proof {
            vstd::arithmetic::power2::lemma2_to64();
        }
        while mantissa < LEAST
            invariant
                0 < mantissa < LIMIT,
                mantissa * pow2(exponent as nat) == r * px,
                0 <= steps <= 52,
                exponent == self.exponent - steps,
                self.exponent >= 64,
                mantissa >= pow2(steps as nat),
            decreases LIMIT - mantissa,
        {
            proof {
                vstd::arithmetic::power2::lemma2_to64();
                vstd::arithmetic::power2::lemma2_to64_rest();
                if steps == 52 {
                    assert(false);
                }
                vstd::arithmetic::power2::lemma_pow2_unfold(exponent as nat);
                vstd::arithmetic::power2::lemma_pow2_unfold((steps + 1) as nat);
                let p = pow2((exponent - 1) as nat) as int;
                assert(mantissa * (2 * p) == (2 * mantissa) * p) by (nonlinear_arith);
                steps = steps + 1;
            }
            mantissa = 2 * mantissa;
            exponent = exponent - 1;
        }
        Double { mantissa, exponent }
    }
}

/// The whole number that a `u64` becomes as a double.
pub fn rounded(n: u64) -> (r: u128)
    ensures
        of(n as int) == r * unit(),
        r <= 0x1_0000_0000_0000_0000,
{
    if n <= LIMIT {
        proof {
            short_numbers_stay(n as int, 1074);
        }
        return n as u128;
    }
    let (mantissa, k) = round(n as u128, 1);
    proof {
        vstd::arithmetic::power2::lemma2_to64();
        vstd::arithmetic::power2::lemma_pow2_pos(k as nat);
        lemma_nearest_shifted(n as int, 1, 1074);
        if k > 13 {
            lemma_pow2_between(14, k as nat);
        }
        lemma_pow2_between(k as nat, 13);
        short_numbers_stay(1, 64);
        rounding_stays_below(n as int, 1, 0x1_0000_0000_0000_0000);
        assert(0 <= mantissa * pow2(k as nat) <= LIMIT * 8192) by (nonlinear_arith)
            requires
                0 <= mantissa <= LIMIT,
                0 <= pow2(k as nat) <= 8192,
        ;
    }
    mantissa as u128 * two_to(k)
}

proof fn lemma_div_by_power(m: int, pd: int, px: int)
    requires
        0 <= m,
        0 < pd,
        0 < px,
    ensures
        (m * px) / (pd * px) == m / pd,
        (m * px) % (pd * px) == (m % pd) * px,
{
    vstd::arithmetic::div_mod::lemma_fundamental_div_mod(m, pd);
    let q = m / pd;
    let r = m % pd;
    assert(m * px == q * (pd * px) + r * px && 0 <= r * px < pd * px) by (nonlinear_arith)
        requires
            m == pd * q + r,
            0 <= r < pd,
            0 < px,
    ;
    vstd::arithmetic::div_mod::lemma_fundamental_div_mod_converse(m * px, pd * px, q, r * px);
}

// ─── Laws ────────────────────────────────────────────────────────────────────

/// What has no more than 53 digits is not rounded.
pub proof fn short_numbers_stay(c: int, k: nat)
    requires
        0 <= c <= LIMIT,
    ensures
        nearest(c * pow2(k), 1) == c * pow2(k),
{
    let n = c * pow2(k);
    let e = excess(n, 1);
    let pe = pow2(e) as int;
    let pk = pow2(k) as int;
    vstd::arithmetic::power2::lemma2_to64();
    vstd::arithmetic::power2::lemma_pow2_pos(k);
    vstd::arithmetic::power2::lemma_pow2_pos(e);
    lemma_excess_bounds(n, 1);
    assert(0 <= c * pk) by (nonlinear_arith)
        requires
            0 <= c,
            0 < pk,
    ;
    let w: int = if e == 0 {
        assert(n * 1 == n);
        n
    } else if k >= e {
        vstd::arithmetic::power2::lemma_pow2_adds((k - e) as nat, e);
        let rest = pow2((k - e) as nat) as int;
        assert(c * (rest * pe) == (c * rest) * pe) by (nonlinear_arith);
        c * rest
    } else {
        lemma_pow2_between(k, (e - 1) as nat);
        vstd::arithmetic::power2::lemma_pow2_unfold(e);
        let half = pow2((e - 1) as nat) as int;
        assert(c == LIMIT && pk == half) by (nonlinear_arith)
            requires
                0 <= c <= LIMIT,
                LEAST * (1 * (2 * half)) <= c * pk,
                0 < pk <= half,
                LIMIT == 2 * LEAST,
        ;
        assert(LIMIT * half == LEAST * (2 * half)) by (nonlinear_arith);
        LEAST as int
    };
    assert(n == w * pe);
    vstd::arithmetic::div_mod::lemma_fundamental_div_mod_converse(n, pe, w, 0);
}

proof fn lemma_step_divides(v: int, k: nat)
    requires
        nearest(v, 1) == v,
        LEAST * pow2(k) <= v,
    ensures
        v % (pow2(k) as int) == 0,
{
    let e = excess(v, 1);
    let pk = pow2(k) as int;
    let pe = pow2(e) as int;
    vstd::arithmetic::power2::lemma_pow2_pos(k);
    lemma_excess_bounds(v, 1);
    if e < k {
        lemma_pow2_between(e, (k - 1) as nat);
        vstd::arithmetic::power2::lemma_pow2_unfold(k);
        let half = pow2((k - 1) as nat) as int;
        assert(false) by (nonlinear_arith)
            requires
                LEAST * (2 * half) <= v < LIMIT * (1 * pe),
                0 < pe <= half,
                LIMIT == 2 * LEAST,
        ;
    }
    vstd::arithmetic::power2::lemma_pow2_adds((e - k) as nat, k);
    let rest = pow2((e - k) as nat) as int;
    let h = half_even(v, 1 * pe);
    assert(h * (rest * pk) == (h * rest) * pk + 0) by (nonlinear_arith);
    vstd::arithmetic::div_mod::lemma_fundamental_div_mod_converse(v, pk, h * rest, 0);
}

/// Rounding keeps the order.
pub proof fn rounding_keeps_order(a: int, b: int, d: int)
    requires
        0 < d,
        0 <= a <= b,
    ensures
        nearest(a, d) <= nearest(b, d),
{
    let ka = excess(a, d);
    let kb = excess(b, d);
    let pa = pow2(ka) as int;
    let pb = pow2(kb) as int;
    vstd::arithmetic::power2::lemma2_to64();
    vstd::arithmetic::power2::lemma_pow2_pos(ka);
    vstd::arithmetic::power2::lemma_pow2_pos(kb);
    lemma_excess_bounds(a, d);
    lemma_excess_bounds(b, d);
    assert(0 < d * pa && 0 < d * pb) by (nonlinear_arith)
        requires
            0 < d,
            0 < pa,
            0 < pb,
    ;
    let da = d * pa;
    let db = d * pb;
    vstd::arithmetic::div_mod::lemma_fundamental_div_mod(a, da);
    vstd::arithmetic::div_mod::lemma_fundamental_div_mod(b, db);
    let ha = half_even(a, da);
    let hb = half_even(b, db);
    if ka == kb {
        assert(ha <= hb) by {
            let (qa, ra, qb, rb) = (a / da, a % da, b / db, b % db);
            assert(qa < qb || (qa == qb && ra <= rb)) by (nonlinear_arith)
                requires
                    a == da * qa + ra,
                    b == da * qb + rb,
                    0 <= ra < da,
                    0 <= rb < da,
                    a <= b,
            ;
        }
        assert(ha * pa <= hb * pa) by (nonlinear_arith)
            requires
                ha <= hb,
                0 < pa,
        ;
    } else if ka < kb {
        lemma_pow2_between((ka + 1) as nat, kb);
        vstd::arithmetic::power2::lemma_pow2_unfold((ka + 1) as nat);
        let (qa, ra, qb, rb) = (a / da, a % da, b / db, b % db);
        assert(qa < LIMIT) by (nonlinear_arith)
            requires
                a == da * qa + ra,
                0 <= ra < da,
                a < LIMIT * da,
        ;
        assert(LEAST <= qb) by (nonlinear_arith)
            requires
                b == db * qb + rb,
                0 <= rb < db,
                LEAST * db <= b,
        ;
        assert(ha * pa <= LIMIT * pa && LIMIT * pa == LEAST * (2 * pa) && LEAST * (2 * pa)
            <= LEAST * pb && LEAST * pb <= hb * pb) by (nonlinear_arith)
            requires
                ha <= LIMIT,
                LEAST <= hb,
                0 < pa,
                2 * pa <= pb,
                LIMIT == 2 * LEAST,
        ;
    } else {
        lemma_pow2_between((kb + 1) as nat, ka);
        vstd::arithmetic::power2::lemma_pow2_unfold((kb + 1) as nat);
        assert(false) by (nonlinear_arith)
            requires
                LEAST * (d * pa) <= a,
                a <= b < LIMIT * (d * pb),
                2 * pb <= pa,
                0 < d,
                0 < pb,
                LIMIT == 2 * LEAST,
        ;
    }
}

/// What was rounded is a double.
pub proof fn rounding_is_final(n: int, d: int)
    requires
        0 < d,
        0 <= n,
    ensures
        nearest(nearest(n, d), 1) == nearest(n, d),
        0 <= nearest(n, d),
{
    let k = excess(n, d);
    let p = pow2(k) as int;
    vstd::arithmetic::power2::lemma2_to64();
    vstd::arithmetic::power2::lemma_pow2_pos(k);
    lemma_excess_bounds(n, d);
    let dp = d * p;
    assert(0 < dp) by (nonlinear_arith)
        requires
            0 < d,
            0 < p,
            dp == d * p,
    ;
    vstd::arithmetic::div_mod::lemma_fundamental_div_mod(n, dp);
    let (q, r) = (n / dp, n % dp);
    assert(0 <= q < LIMIT) by (nonlinear_arith)
        requires
            n == dp * q + r,
            0 <= r < dp,
            0 <= n < LIMIT * dp,
    ;
    short_numbers_stay(half_even(n, dp), k);
    assert(0 <= half_even(n, dp) * p) by (nonlinear_arith)
        requires
            0 <= half_even(n, dp),
            0 < p,
    ;
}

/// Rounding does not go beyond a double.
pub proof fn rounding_stays_below(n: int, d: int, v: int)
    requires
        0 < d,
        0 <= n <= v * d,
        nearest(v, 1) == v,
    ensures
        nearest(n, d) <= v,
{
    let k = excess(n, d);
    let p = pow2(k) as int;
    vstd::arithmetic::power2::lemma2_to64();
    vstd::arithmetic::power2::lemma_pow2_pos(k);
    lemma_excess_bounds(n, d);
    if k > 0 {
        assert(LEAST * p <= v) by (nonlinear_arith)
            requires
                LEAST * (d * p) <= n <= v * d,
                0 < d,
        ;
        lemma_step_divides(v, k);
    }
    let w = v / p;
    vstd::arithmetic::div_mod::lemma_fundamental_div_mod(v, p);
    assert(v == p * w);
    let dp = d * p;
    let q = n / dp;
    let r = n % dp;
    assert(0 < dp) by (nonlinear_arith)
        requires
            0 < d,
            0 < p,
            dp == d * p,
    ;
    vstd::arithmetic::div_mod::lemma_fundamental_div_mod(n, dp);
    assert(q <= w && (q == w ==> r == 0)) by (nonlinear_arith)
        requires
            n == dp * q + r,
            0 <= r < dp,
            n <= (p * w) * d,
            dp == d * p,
            0 < dp,
    ;
    let h = half_even(n, dp);
    assert(h <= w);
    assert(h * p <= p * w) by (nonlinear_arith)
        requires
            h <= w,
            0 < p,
    ;
}

/// Rounding does not fall behind a double.
pub proof fn rounding_stays_above(n: int, d: int, v: int)
    requires
        0 < d,
        0 <= v * d <= n,
        0 <= v,
        nearest(v, 1) == v,
    ensures
        v <= nearest(n, d),
{
    let k = excess(n, d);
    let p = pow2(k) as int;
    vstd::arithmetic::power2::lemma2_to64();
    vstd::arithmetic::power2::lemma_pow2_pos(k);
    lemma_excess_bounds(n, d);
    let dp = d * p;
    let q = n / dp;
    let r = n % dp;
    assert(0 < dp) by (nonlinear_arith)
        requires
            0 < d,
            0 < p,
            dp == d * p,
    ;
    vstd::arithmetic::div_mod::lemma_fundamental_div_mod(n, dp);
    let h = half_even(n, dp);
    if k == 0 || v >= LEAST * p {
        if k > 0 {
            lemma_step_divides(v, k);
        }
        let w = v / p;
        vstd::arithmetic::div_mod::lemma_fundamental_div_mod(v, p);
        assert(q >= w) by (nonlinear_arith)
            requires
                n == dp * q + r,
                0 <= r < dp,
                (p * w) * d <= n,
                dp == d * p,
                0 < dp,
        ;
        assert(h * p >= p * w) by (nonlinear_arith)
            requires
                h >= w,
                0 < p,
        ;
    } else {
        assert(q >= LEAST) by (nonlinear_arith)
            requires
                n == dp * q + r,
                0 <= r < dp,
                LEAST * dp <= n,
                0 < dp,
        ;
        assert(h * p >= LEAST * p) by (nonlinear_arith)
            requires
                h >= LEAST,
                0 < p,
        ;
    }
}

/// Rounding changes a number of 53 digits or more by less than one part in
/// `LEAST`.
pub proof fn rounding_is_close(n: int, d: int)
    requires
        0 < d,
        LEAST * d <= n,
    ensures
        nearest(n, d) * (d * LEAST) <= n * (LEAST + 1),
{
    let k = excess(n, d);
    let p = pow2(k) as int;
    vstd::arithmetic::power2::lemma2_to64();
    vstd::arithmetic::power2::lemma_pow2_pos(k);
    lemma_excess_bounds(n, d);
    let dp = d * p;
    assert(0 < dp) by (nonlinear_arith)
        requires
            0 < d,
            0 < p,
            dp == d * p,
    ;
    if k == 0 {
        assert(d * 1 == d);
    }
    vstd::arithmetic::div_mod::lemma_fundamental_div_mod(n, dp);
    let q = n / dp;
    let r = n % dp;
    let h = half_even(n, dp);
    assert(h * dp <= n + dp) by (nonlinear_arith)
        requires
            n == dp * q + r,
            0 <= r < dp,
            h <= q + 1,
            0 < dp,
    ;
    assert((h * p) * (d * LEAST) == (h * dp) * LEAST) by (nonlinear_arith)
        requires
            dp == d * p,
    ;
    assert((h * dp) * LEAST <= n * LEAST + dp * LEAST) by (nonlinear_arith)
        requires
            h * dp <= n + dp,
    ;
}

/// Rounding takes less than one part in `LEAST` from a number of 53 digits or more.
pub proof fn rounding_takes_little(n: int, d: int)
    requires
        0 < d,
        LEAST * d <= n,
    ensures
        n * (LEAST - 1) <= nearest(n, d) * (d * LEAST),
{
    let k = excess(n, d);
    let p = pow2(k) as int;
    vstd::arithmetic::power2::lemma2_to64();
    vstd::arithmetic::power2::lemma_pow2_pos(k);
    lemma_excess_bounds(n, d);
    let dp = d * p;
    assert(0 < dp) by (nonlinear_arith)
        requires
            0 < d,
            0 < p,
            dp == d * p,
    ;
    if k == 0 {
        assert(d * 1 == d);
    }
    vstd::arithmetic::div_mod::lemma_fundamental_div_mod(n, dp);
    let q = n / dp;
    let r = n % dp;
    let h = half_even(n, dp);
    assert(n - dp <= h * dp) by (nonlinear_arith)
        requires
            n == dp * q + r,
            0 <= r < dp,
            q <= h,
            0 < dp,
    ;
    assert((h * p) * (d * LEAST) == (h * dp) * LEAST) by (nonlinear_arith)
        requires
            dp == d * p,
    ;
    assert(n * LEAST - dp * LEAST <= (h * dp) * LEAST) by (nonlinear_arith)
        requires
            n - dp <= h * dp,
    ;
}

/// A quotient that is a double is not rounded.
pub proof fn exact_quotients_stay(n: int, d: int, v: int)
    requires
        0 < d,
        0 <= v,
        n == v * d,
        nearest(v, 1) == v,
    ensures
        nearest(n, d) == v,
{
    assert(0 <= v * d) by (nonlinear_arith)
        requires
            0 <= v,
            0 < d,
    ;
    rounding_stays_below(n, d, v);
    rounding_stays_above(n, d, v);
}

proof fn lemma_excess_factor(n: int, d: int, c: int)
    requires
        0 < d,
        0 < c,
    ensures
        excess(n * c, d * c) == excess(n, d),
    decreases n - d,
{
    vstd::arithmetic::power2::lemma2_to64();
    assert(0 < d * c) by (nonlinear_arith)
        requires
            0 < d,
            0 < c,
    ;
    assert(n * c < LIMIT * (d * c) <==> n < LIMIT * d) by (nonlinear_arith)
        requires
            0 < c,
    ;
    if n >= LIMIT * d {
        lemma_excess_factor(n, 2 * d, c);
        assert(2 * (d * c) == (2 * d) * c) by (nonlinear_arith);
    }
}

/// Rounding a fraction does not depend on how it is written.
pub proof fn common_factors_do_not_matter(n: int, d: int, c: int)
    requires
        0 <= n,
        0 < d,
        0 < c,
    ensures
        nearest(n * c, d * c) == nearest(n, d),
{
    lemma_excess_factor(n, d, c);
    let k = excess(n, d);
    let p = pow2(k) as int;
    vstd::arithmetic::power2::lemma_pow2_pos(k);
    let dp = d * p;
    assert(0 < dp && (d * c) * p == dp * c) by (nonlinear_arith)
        requires
            0 < d,
            0 < p,
            dp == d * p,
    ;
    vstd::arithmetic::div_mod::lemma_fundamental_div_mod(n, dp);
    let q = n / dp;
    let r = n % dp;
    assert(n * c == q * (dp * c) + r * c && 0 <= r * c < dp * c) by (nonlinear_arith)
        requires
            n == dp * q + r,
            0 <= r < dp,
            0 < c,
    ;
    vstd::arithmetic::div_mod::lemma_fundamental_div_mod_converse(n * c, dp * c, q, r * c);
    assert((2 * (r * c) < dp * c <==> 2 * r < dp) && (2 * (r * c) == dp * c <==> 2 * r == dp))
        by (nonlinear_arith)
        requires
            0 < c,
    ;
}

/// What is divided by more is no more.
pub proof fn larger_divisors_give_less(n: int, d: int, e: int)
    requires
        0 <= n,
        0 < d <= e,
    ensures
        nearest(n, e) <= nearest(n, d),
{
    common_factors_do_not_matter(n, d, e);
    common_factors_do_not_matter(n, e, d);
    assert(0 <= n * d <= n * e && d * e == e * d && 0 < d * e) by (nonlinear_arith)
        requires
            0 <= n,
            0 < d <= e,
    ;
    rounding_keeps_order(n * d, n * e, d * e);
}

/// The arithmetic of doubles is that of numbers wherever the result is a double: whole
/// numbers of up to 53 digits are their own doubles, and sums, products and quotients
/// that are doubles are exact.
pub proof fn exact_results_are_not_rounded(n: int, a: int, b: int, v: int)
    requires
        0 <= n <= LIMIT,
        0 <= v,
        nearest(v, 1) == v,
    ensures
        of(n) == n * unit(),
        a + b == v ==> plus(a, b) == v,
        a * b == v * unit() ==> times(a, b) == v,
        0 < b && a * unit() == v * b ==> over(a, b) == v,
        v < u64::MAX * unit() ==> whole(v) * unit() <= v < whole(v) * unit() + unit(),
{
    let u = unit();
    vstd::arithmetic::power2::lemma_pow2_pos(1074);
    short_numbers_stay(n, 1074);
    if a * b == v * u {
        exact_quotients_stay(a * b, u, v);
    }
    if 0 < b && a * u == v * b {
        exact_quotients_stay(a * u, b, v);
    }
    vstd::arithmetic::div_mod::lemma_fundamental_div_mod(v, u);
    if v < u64::MAX * u {
        let w = v / u;
        assert(w <= u64::MAX) by (nonlinear_arith)
            requires
                v == u * w + v % u,
                0 <= v % u,
                v < u64::MAX * u,
                0 < u,
        ;
        assert(u * w == w * u) by (nonlinear_arith);
    }
}

/// What is larger than every `u64` becomes the largest one.
pub proof fn what_is_too_large_becomes_the_largest(v: int)
    requires
        (u64::MAX + 1) * unit() <= v,
    ensures
        whole(v) == u64::MAX,
{
    let u = unit();
    vstd::arithmetic::power2::lemma_pow2_pos(1074);
    vstd::arithmetic::div_mod::lemma_fundamental_div_mod(v, u);
    let w = v / u;
    assert(u64::MAX < w) by (nonlinear_arith)
        requires
            v == u * w + v % u,
            v % u < u,
            (u64::MAX + 1) * u <= v,
            0 < u,
    ;
}

} // verus!
