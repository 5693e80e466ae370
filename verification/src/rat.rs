//! Exact rational arithmetic.
//!
//! Tempo values, time-signature multipliers, quarter-note positions and
//! second timestamps are all kept as exact rationals `num / den` with a
//! positive denominator. Every checked operation reduces its result to
//! lowest terms — so denominators stay small across long computations —
//! and returns `None` only when even the reduced numerator or
//! denominator falls outside `i64`. Each operation is a total function
//! of its arguments.

use vstd::arithmetic::div_mod::{
    lemma_fundamental_div_mod, lemma_mod_multiples_basic, lemma_mod_self_0,
};
use vstd::math::abs;
use vstd::prelude::*;

verus! {

/// An exact rational number `num / den`; well-formed values have `den >= 1`.
#[derive(Clone, Copy, Debug, PartialEq, Eq, Structural)]
pub struct Rat {
    pub num: i64,
    pub den: i64,
}

/// `x` fits in an `i64`.
pub open spec fn in_i64(x: int) -> bool {
    i64::MIN <= x <= i64::MAX
}

/// Greatest common divisor, by Euclid's algorithm; `gcd(a, 0) == a`.
pub open spec fn gcd(a: nat, b: nat) -> nat
    decreases b,
{
    if b == 0 {
        a
    } else {
        gcd(b, a % b)
    }
}

/// The greatest common divisor exactly divides both arguments and is
/// positive when the second is.
pub proof fn lemma_gcd(a: nat, b: nat)
    requires
        b >= 1,
    ensures
        gcd(a, b) >= 1,
        a as int % (gcd(a, b) as int) == 0,
        b as int % (gcd(a, b) as int) == 0,
    decreases b,
{
    let g = gcd(a, b) as int;
    let r = a % b;
    if r == 0 {
        assert(gcd(a, b) == gcd(b, 0) == b);
        lemma_mod_self_0(b as int);
    } else {
        lemma_gcd(b, r);
        assert(gcd(a, b) == gcd(b, r));
        lemma_fundamental_div_mod(a as int, b as int);
        lemma_fundamental_div_mod(b as int, g);
        lemma_fundamental_div_mod(r as int, g);
        let q = a as int / b as int;
        let k1 = b as int / g;
        let k2 = r as int / g;
        assert(a as int == g * (k1 * q + k2)) by (nonlinear_arith)
            requires
                a as int == (b as int) * q + r,
                b as int == g * k1,
                r as int == g * k2,
        ;
        lemma_mod_multiples_basic(k1 * q + k2, g);
        assert(a as int % g == 0) by {
            assert(g * (k1 * q + k2) == (k1 * q + k2) * g) by (nonlinear_arith);
        }
    }
}

/// The numerator of `n / d` in lowest terms.
pub open spec fn reduced_num(n: int, d: int) -> int {
    n / (gcd(abs(n), d as nat) as int)
}

/// The denominator of `n / d` in lowest terms.
pub open spec fn reduced_den(n: int, d: int) -> int {
    d / (gcd(abs(n), d as nat) as int)
}

/// Equal products of equal factors cancel.
proof fn lemma_cancel(x: int, y: int, g: int)
    by (nonlinear_arith)
    requires
        g >= 1,
        x * g == y * g,
    ensures
        x == y,
{
}

/// Reduction facts for a pair with a positive denominator: the reduced
/// denominator stays positive, the division is exact, and the value is
/// unchanged.
pub proof fn lemma_reduced(n: int, d: int)
    requires
        d >= 1,
    ensures
        reduced_den(n, d) >= 1,
        reduced_num(n, d) * (gcd(abs(n), d as nat) as int) == n,
        reduced_den(n, d) * (gcd(abs(n), d as nat) as int) == d,
        reduced_num(n, d) * d == n * reduced_den(n, d),
{
    let g = gcd(abs(n), d as nat) as int;
    lemma_gcd(abs(n), d as nat);
    lemma_fundamental_div_mod(d, g);
    assert(d == g * (d / g));
    assert(reduced_den(n, d) * g == d) by (nonlinear_arith)
        requires
            d == g * (d / g),
            reduced_den(n, d) == d / g,
    ;
    assert(reduced_den(n, d) >= 1) by (nonlinear_arith)
        requires
            reduced_den(n, d) * g == d,
            d >= 1,
            g >= 1,
    ;
    // the numerator's magnitude is exactly divisible, hence so is it
    assert(abs(n) as int % g == 0);
    if n >= 0 {
        lemma_fundamental_div_mod(n, g);
        assert(n == g * (n / g));
    } else {
        lemma_fundamental_div_mod(abs(n) as int, g);
        assert(abs(n) as int == g * (abs(n) as int / g));
        let k = abs(n) as int / g;
        assert(n == g * (-k)) by (nonlinear_arith)
            requires
                abs(n) as int == g * k,
                n == -(abs(n) as int),
        ;
        vstd::arithmetic::div_mod::lemma_div_multiples_vanish(-k, g);
        assert(n / g == -k);
        assert(n == g * (n / g));
    }
    assert(reduced_num(n, d) * g == n) by (nonlinear_arith)
        requires
            n == g * (n / g),
            reduced_num(n, d) == n / g,
    ;
    assert(reduced_num(n, d) * d == n * reduced_den(n, d)) by (nonlinear_arith)
        requires
            reduced_num(n, d) * g == n,
            reduced_den(n, d) * g == d,
    ;
}

/// Greatest common divisor of two machine integers.
fn gcd_u128(a: u128, b: u128) -> (g: u128)
    ensures
        g as nat == gcd(a as nat, b as nat),
{
    let mut x = a;
    let mut y = b;
    while y != 0
        invariant
            gcd(x as nat, y as nat) == gcd(a as nat, b as nat),
        decreases y,
    {
        let t = x % y;
        x = y;
        y = t;
    }
    x
}

/// Divide out the greatest common divisor of an exact wide pair and
/// narrow to `i64`.
fn reduce_pair(n: i128, d: i128) -> (r: Option<Rat>)
    requires
        1 <= d,
        i128::MIN < n,
    ensures
        r is Some <==> in_i64(reduced_num(n as int, d as int)) && reduced_den(n as int, d as int)
            <= i64::MAX,
        r matches Some(v) ==> v.num == reduced_num(n as int, d as int) && v.den == reduced_den(
            n as int,
            d as int,
        ) && v.wf(),
{
    let neg = n < 0;
    let mag: u128 = if neg {
        (-n) as u128
    } else {
        n as u128
    };
    proof {
        assert(mag as nat == abs(n as int));
    }
    let g: u128 = gcd_u128(mag, d as u128);
    proof {
        lemma_gcd(mag as nat, d as nat);
        lemma_reduced(n as int, d as int);
    }
    let rn: u128 = mag / g;
    let rd: u128 = (d as u128) / g;
    proof {
        let gi = gcd(abs(n as int), d as nat) as int;
        // the unsigned quotients are the reduced magnitude and denominator
        assert(rd as int == reduced_den(n as int, d as int));
        lemma_fundamental_div_mod(mag as int, gi);
        if neg {
            assert(reduced_num(n as int, d as int) == -(rn as int)) by {
                assert((-(rn as int)) * gi == n as int) by (nonlinear_arith)
                    requires
                        mag as int == gi * (rn as int) + (mag as int % gi),
                        mag as int % gi == 0,
                        n as int == -(mag as int),
                ;
                lemma_cancel(-(rn as int), reduced_num(n as int, d as int), gi);
            }
        } else {
            assert(reduced_num(n as int, d as int) == rn as int) by {
                assert((rn as int) * gi == n as int) by (nonlinear_arith)
                    requires
                        mag as int == gi * (rn as int) + (mag as int % gi),
                        mag as int % gi == 0,
                        n as int == mag as int,
                ;
                lemma_cancel(rn as int, reduced_num(n as int, d as int), gi);
            }
        }
    }
    if rd > i64::MAX as u128 {
        return None;
    }
    if neg {
        if rn > 0x8000_0000_0000_0000u128 {
            return None;
        }
        let num: i64 = (-(rn as i128)) as i64;
        Some(Rat { num, den: rd as i64 })
    } else {
        if rn > i64::MAX as u128 {
            return None;
        }
        Some(Rat { num: rn as i64, den: rd as i64 })
    }
}

proof fn lemma_mul_pos(x: int, y: int)
    by (nonlinear_arith)
    requires
        x >= 1,
        y >= 1,
    ensures
        x * y >= 1,
{
}

/// Bounds on a product from symmetric bounds on its factors.
pub proof fn lemma_mul_bounds(x: int, y: int, a: int, b: int)
    by (nonlinear_arith)
    requires
        -a <= x <= a,
        -b <= y <= b,
        0 <= a,
        0 <= b,
    ensures
        -(a * b) <= x * y <= a * b,
{
}

impl Rat {
    /// Well-formed: the denominator is positive.
    pub open spec fn wf(self) -> bool {
        self.den >= 1
    }

    /// The two rationals denote the same value.
    pub open spec fn spec_eqv(self, other: Rat) -> bool {
        self.num * other.den == other.num * self.den
    }

    pub open spec fn spec_le(self, other: Rat) -> bool {
        self.num * other.den <= other.num * self.den
    }

    pub open spec fn spec_lt(self, other: Rat) -> bool {
        self.num * other.den < other.num * self.den
    }

    /// Numerator of the exact (unreduced) sum.
    pub open spec fn add_num(self, other: Rat) -> int {
        self.num * other.den + other.num * self.den
    }

    /// Numerator of the exact (unreduced) difference.
    pub open spec fn sub_num(self, other: Rat) -> int {
        self.num * other.den - other.num * self.den
    }

    /// Numerator of the exact product.
    pub open spec fn mul_num(self, other: Rat) -> int {
        self.num * other.num
    }

    /// Denominator of the exact sum, difference and product.
    pub open spec fn mul_den(self, other: Rat) -> int {
        self.den * other.den
    }

    /// Numerator of the exact quotient, sign-normalized so the
    /// denominator stays positive. Meaningful only when `other.num != 0`.
    pub open spec fn div_num(self, other: Rat) -> int {
        if other.num >= 0 {
            self.num * other.den
        } else {
            -(self.num * other.den)
        }
    }

    /// Denominator of the exact quotient, sign-normalized.
    pub open spec fn div_den(self, other: Rat) -> int {
        if other.num >= 0 {
            self.den * other.num
        } else {
            -(self.den * other.num)
        }
    }

    /// The checked sum as a function: the exact result in lowest
    /// terms, or `None` when even that leaves `i64`.
    pub open spec fn spec_add(self, other: Rat) -> Option<Rat> {
        let n = self.add_num(other);
        let d = self.mul_den(other);
        if in_i64(reduced_num(n, d)) && reduced_den(n, d) <= i64::MAX {
            Some(Rat { num: reduced_num(n, d) as i64, den: reduced_den(n, d) as i64 })
        } else {
            None
        }
    }

    /// The checked difference as a function.
    pub open spec fn spec_sub(self, other: Rat) -> Option<Rat> {
        let n = self.sub_num(other);
        let d = self.mul_den(other);
        if in_i64(reduced_num(n, d)) && reduced_den(n, d) <= i64::MAX {
            Some(Rat { num: reduced_num(n, d) as i64, den: reduced_den(n, d) as i64 })
        } else {
            None
        }
    }

    /// The checked product as a function.
    pub open spec fn spec_mul(self, other: Rat) -> Option<Rat> {
        let n = self.mul_num(other);
        let d = self.mul_den(other);
        if in_i64(reduced_num(n, d)) && reduced_den(n, d) <= i64::MAX {
            Some(Rat { num: reduced_num(n, d) as i64, den: reduced_den(n, d) as i64 })
        } else {
            None
        }
    }

    /// The checked quotient as a function: `None` on a zero divisor or
    /// a result outside `i64`.
    pub open spec fn spec_div(self, other: Rat) -> Option<Rat> {
        let n = self.div_num(other);
        let d = self.div_den(other);
        if other.num != 0 && in_i64(reduced_num(n, d)) && reduced_den(n, d) <= i64::MAX {
            Some(Rat { num: reduced_num(n, d) as i64, den: reduced_den(n, d) as i64 })
        } else {
            None
        }
    }

    /// The rational `n / 1`.
    pub fn from_int(n: i64) -> (r: Rat)
        ensures
            r == (Rat { num: n, den: 1 }),
    {
        Rat { num: n, den: 1 }
    }

    /// Sum in lowest terms, or `None` when it falls outside `i64`.
    /// The result denotes exactly the mathematical sum.
    pub fn checked_add(self, other: Rat) -> (r: Option<Rat>)
        requires
            self.wf(),
            other.wf(),
        ensures
            r == self.spec_add(other),
            r matches Some(v) ==> v.wf() && v.num * self.mul_den(other) == self.add_num(other)
                * v.den,
    {
        proof {
            lemma_mul_bounds(self.num as int, other.den as int, 0x8000_0000_0000_0000,
                0x7fff_ffff_ffff_ffff);
            lemma_mul_bounds(other.num as int, self.den as int, 0x8000_0000_0000_0000,
                0x7fff_ffff_ffff_ffff);
            lemma_mul_bounds(self.den as int, other.den as int, 0x7fff_ffff_ffff_ffff,
                0x7fff_ffff_ffff_ffff);
            lemma_mul_pos(self.den as int, other.den as int);
            lemma_reduced(self.add_num(other), self.mul_den(other));
        }
        let n: i128 = self.num as i128 * other.den as i128 + other.num as i128 * self.den as i128;
        let d: i128 = self.den as i128 * other.den as i128;
        reduce_pair(n, d)
    }

    /// Difference in lowest terms, or `None` when it falls outside `i64`.
    pub fn checked_sub(self, other: Rat) -> (r: Option<Rat>)
        requires
            self.wf(),
            other.wf(),
        ensures
            r == self.spec_sub(other),
            r matches Some(v) ==> v.wf() && v.num * self.mul_den(other) == self.sub_num(other)
                * v.den,
    {
        proof {
            lemma_mul_bounds(self.num as int, other.den as int, 0x8000_0000_0000_0000,
                0x7fff_ffff_ffff_ffff);
            lemma_mul_bounds(other.num as int, self.den as int, 0x8000_0000_0000_0000,
                0x7fff_ffff_ffff_ffff);
            lemma_mul_bounds(self.den as int, other.den as int, 0x7fff_ffff_ffff_ffff,
                0x7fff_ffff_ffff_ffff);
            lemma_mul_pos(self.den as int, other.den as int);
            lemma_reduced(self.sub_num(other), self.mul_den(other));
        }
        let n: i128 = self.num as i128 * other.den as i128 - other.num as i128 * self.den as i128;
        let d: i128 = self.den as i128 * other.den as i128;
        reduce_pair(n, d)
    }

    /// Product in lowest terms, or `None` when it falls outside `i64`.
    pub fn checked_mul(self, other: Rat) -> (r: Option<Rat>)
        requires
            self.wf(),
            other.wf(),
        ensures
            r == self.spec_mul(other),
            r matches Some(v) ==> v.wf() && v.num * self.mul_den(other) == self.mul_num(other)
                * v.den,
    {
        proof {
            lemma_mul_bounds(self.num as int, other.num as int, 0x8000_0000_0000_0000,
                0x8000_0000_0000_0000);
            lemma_mul_bounds(self.den as int, other.den as int, 0x7fff_ffff_ffff_ffff,
                0x7fff_ffff_ffff_ffff);
            lemma_mul_pos(self.den as int, other.den as int);
            lemma_reduced(self.mul_num(other), self.mul_den(other));
        }
        let n: i128 = self.num as i128 * other.num as i128;
        let d: i128 = self.den as i128 * other.den as i128;
        reduce_pair(n, d)
    }

    /// Quotient in lowest terms, or `None` on a zero divisor or a
    /// result outside `i64`.
    pub fn checked_div(self, other: Rat) -> (r: Option<Rat>)
        requires
            self.wf(),
            other.wf(),
        ensures
            r == self.spec_div(other),
            r matches Some(v) ==> v.wf() && v.num * self.div_den(other) == self.div_num(other)
                * v.den,
    {
        if other.num == 0 {
            return None;
        }
        proof {
            lemma_mul_bounds(self.num as int, other.den as int, 0x8000_0000_0000_0000,
                0x7fff_ffff_ffff_ffff);
            lemma_mul_bounds(self.den as int, other.num as int, 0x7fff_ffff_ffff_ffff,
                0x8000_0000_0000_0000);
            if other.num >= 1 {
                lemma_mul_pos(self.den as int, other.num as int);
            } else {
                lemma_mul_pos(self.den as int, -(other.num as int));
                assert(self.den as int * -(other.num as int) == -(self.den as int
                    * other.num as int)) by (nonlinear_arith);
            }
            lemma_reduced(self.div_num(other), self.div_den(other));
        }
        let n0: i128 = self.num as i128 * other.den as i128;
        let d0: i128 = self.den as i128 * other.num as i128;
        let (n, d): (i128, i128) = if d0 < 0 {
            (-n0, -d0)
        } else {
            (n0, d0)
        };
        reduce_pair(n, d)
    }

    /// Exact comparison by cross-multiplication.
    pub fn le(self, other: Rat) -> (r: bool)
        requires
            self.wf(),
            other.wf(),
        ensures
            r == self.spec_le(other),
    {
        proof {
            lemma_mul_bounds(self.num as int, other.den as int, 0x8000_0000_0000_0000,
                0x7fff_ffff_ffff_ffff);
            lemma_mul_bounds(other.num as int, self.den as int, 0x8000_0000_0000_0000,
                0x7fff_ffff_ffff_ffff);
        }
        self.num as i128 * other.den as i128 <= other.num as i128 * self.den as i128
    }

    /// Exact strict comparison by cross-multiplication.
    pub fn lt(self, other: Rat) -> (r: bool)
        requires
            self.wf(),
            other.wf(),
        ensures
            r == self.spec_lt(other),
    {
        proof {
            lemma_mul_bounds(self.num as int, other.den as int, 0x8000_0000_0000_0000,
                0x7fff_ffff_ffff_ffff);
            lemma_mul_bounds(other.num as int, self.den as int, 0x8000_0000_0000_0000,
                0x7fff_ffff_ffff_ffff);
        }
        (self.num as i128 * other.den as i128) < (other.num as i128 * self.den as i128)
    }

    /// Exact value equality by cross-multiplication.
    pub fn eqv(self, other: Rat) -> (r: bool)
        requires
            self.wf(),
            other.wf(),
        ensures
            r == self.spec_eqv(other),
    {
        proof {
            lemma_mul_bounds(self.num as int, other.den as int, 0x8000_0000_0000_0000,
                0x7fff_ffff_ffff_ffff);
            lemma_mul_bounds(other.num as int, self.den as int, 0x8000_0000_0000_0000,
                0x7fff_ffff_ffff_ffff);
        }
        self.num as i128 * other.den as i128 == other.num as i128 * self.den as i128
    }
}

/// Strict order on rationals is transitive.
pub proof fn lemma_rat_lt_trans(a: Rat, b: Rat, c: Rat)
    by (nonlinear_arith)
    requires
        a.wf(),
        b.wf(),
        c.wf(),
        a.spec_lt(b),
        b.spec_lt(c),
    ensures
        a.spec_lt(c),
{
}

/// Strict order and non-strict order on rationals compose.
pub proof fn lemma_rat_lt_le_trans(a: Rat, b: Rat, c: Rat)
    by (nonlinear_arith)
    requires
        a.wf(),
        b.wf(),
        c.wf(),
        a.spec_lt(b),
        b.spec_le(c),
    ensures
        a.spec_lt(c),
{
}

} // verus!
