//! Fixed-point scalar arithmetic.
//!
//! A `Fixed` holds a real number as an `i128` count of millionths: the value
//! `raw / SCALE`. Every operation states its exact result over the
//! mathematical integers, with truncating division (`tdiv`) as the one
//! rounding rule. The magnitude limits in the `requires` clauses are machine
//! limits: they keep every intermediate product inside 128 bits.

use vstd::arithmetic::div_mod::{
    lemma_div_by_multiple, lemma_div_is_ordered, lemma_div_nonincreasing, lemma_div_pos_is_pos,
    lemma_fundamental_div_mod, lemma_mod_bound,
};
use vstd::prelude::*;

verus! {

/// Number of raw units per 1.0: the scalar `raw / SCALE`.
pub const SCALE: i128 = 1_000_000;

/// Magnitude limit on the operands of an addition or subtraction.
pub const SUM_LIMIT: i128 = 10_000_000_000_000_000_000_000_000_000_000_000_000;

/// Magnitude limit on the operands of a multiplication.
pub const MUL_LIMIT: i128 = 10_000_000_000_000_000_000;

/// Magnitude limit on the dividend of a division.
pub const DIV_LIMIT: i128 = 100_000_000_000_000_000_000_000_000_000_000;

/// Magnitude limit on the dividend of a raw truncating division.
pub const DIV_RAW_LIMIT: i128 = 160_000_000_000_000_000_000_000_000_000_000_000_000;

/// Upper limit on the argument of a square root.
pub const SQRT_LIMIT: i128 = 100_000_000_000_000_000_000_000_000;

/// Magnitude limit on an integer converted to a scalar.
pub const INT_LIMIT: i128 = 1_000_000_000_000_000_000_000_000_000_000;

/// Absolute value over the mathematical integers.
pub open spec fn abs_int(a: int) -> int {
    if a < 0 {
        -a
    } else {
        a
    }
}

/// Truncating integer division: the quotient is rounded toward zero,
/// as Rust's `/` on signed integers rounds.
pub open spec fn tdiv(a: int, b: int) -> int {
    if (a < 0) == (b < 0) {
        abs_int(a) / abs_int(b)
    } else {
        -(abs_int(a) / abs_int(b))
    }
}

/// Raw value of the product of two scalars given by raw values.
pub open spec fn fmul(a: int, b: int) -> int {
    tdiv(a * b, SCALE as int)
}

/// Raw value of the quotient of two scalars given by raw values.
pub open spec fn fdiv(a: int, b: int) -> int {
    tdiv(a * SCALE, b)
}

/// The floor of the square root of a nonnegative integer.
pub open spec fn sqrt_floor(n: int) -> int {
    choose|q: int| 0 <= q && #[trigger] (q * q) <= n && n < (q + 1) * (q + 1)
}

/// Truncating division of 128-bit integers, computed over magnitudes.
pub fn trunc_div(a: i128, b: i128) -> (r: i128)
    requires
        b != 0,
        abs_int(a as int) <= DIV_RAW_LIMIT,
    ensures
        r as int == tdiv(a as int, b as int),
{
    let am: u128 = if a < 0 {
        ((-(a + 1)) as u128) + 1
    } else {
        a as u128
    };
    let dm: u128 = if b < 0 {
        ((-(b + 1)) as u128) + 1
    } else {
        b as u128
    };
    let qm: u128 = am / dm;
    proof {
        lemma_div_nonincreasing(am as int, dm as int);
    }
    if (a < 0) == (b < 0) {
        qm as i128
    } else {
        -(qm as i128)
    }
}

/// The magnitude of a product is the product of the magnitudes' bounds.
pub proof fn lemma_prod_bound(x: int, y: int, b: int, c: int)
    requires
        abs_int(x) <= b,
        abs_int(y) <= c,
    ensures
        abs_int(x * y) <= b * c,
{
    assert(abs_int(x * y) <= b * c) by (nonlinear_arith)
        requires
            abs_int(x) <= b,
            abs_int(y) <= c,
    ;
}

/// Truncating division by a positive divisor never grows the magnitude.
pub proof fn lemma_tdiv_shrinks(a: int, b: int)
    requires
        b >= 1,
    ensures
        abs_int(tdiv(a, b)) <= abs_int(a),
{
    lemma_div_pos_is_pos(abs_int(a), b);
    lemma_div_nonincreasing(abs_int(a), b);
}

/// A fixed-point product of bounded factors is bounded: `|x| <= bx` and
/// `|y| <= by` with `bx * by <= c * SCALE` give `|fmul(x, y)| <= c`.
pub proof fn lemma_fmul_bound(x: int, y: int, bx: int, by: int, c: int)
    requires
        abs_int(x) <= bx,
        abs_int(y) <= by,
        c >= 0,
        bx * by <= c * SCALE,
    ensures
        abs_int(fmul(x, y)) <= c,
{
    lemma_prod_bound(x, y, bx, by);
    lemma_tdiv_bound(x * y, SCALE as int, c);
}

/// A quotient is bounded by any multiple of the divisor that bounds the
/// dividend: `|a| <= c * b` gives `|tdiv(a, b)| <= c`.
pub proof fn lemma_tdiv_bound(a: int, b: int, c: int)
    requires
        b >= 1,
        c >= 0,
        abs_int(a) <= c * b,
    ensures
        abs_int(tdiv(a, b)) <= c,
{
    let m = abs_int(a);
    lemma_div_pos_is_pos(m, b);
    lemma_div_is_ordered(m, c * b, b);
    lemma_div_by_multiple(c, b);
    assert(abs_int(b) == b);
}

/// Dividing a nonnegative dividend by a positive divisor keeps any lower
/// bound that is a multiple of the divisor.
pub proof fn lemma_tdiv_ge(a: int, b: int, c: int)
    requires
        b >= 1,
        c >= 0,
        a >= c * b,
    ensures
        tdiv(a, b) >= c,
{
    lemma_div_is_ordered(c * b, a, b);
    lemma_div_by_multiple(c, b);
    assert(c * b >= 0) by (nonlinear_arith)
        requires
            c >= 0,
            b >= 1,
    ;
    assert(abs_int(a) == a && abs_int(b) == b);
}

/// Truncating division leaves a remainder smaller than the divisor:
/// `|a - tdiv(a, b) * b| < b`.
pub proof fn lemma_tdiv_remainder(a: int, b: int)
    requires
        b >= 1,
    ensures
        abs_int(a - tdiv(a, b) * b) < b,
{
    let m = abs_int(a);
    lemma_fundamental_div_mod(m, b);
    lemma_mod_bound(m, b);
    lemma_div_pos_is_pos(m, b);
    if a >= 0 {
        assert(a - tdiv(a, b) * b == m % b) by (nonlinear_arith)
            requires
                m == a,
                a >= 0,
                b >= 1,
                tdiv(a, b) == m / b,
                m == b * (m / b) + m % b,
        ;
    } else {
        assert(a - tdiv(a, b) * b == -(m % b)) by (nonlinear_arith)
            requires
                m == -a,
                a < 0,
                b >= 1,
                tdiv(a, b) == -(m / b),
                m == b * (m / b) + m % b,
        ;
    }
}

/// Fixed-point multiplication is commutative, so both call shapes of
/// scalar scaling agree.
pub proof fn lemma_fmul_commutes(a: int, b: int)
    ensures
        fmul(a, b) == fmul(b, a),
{
    assert(a * b == b * a) by (nonlinear_arith);
}

/// The floor square root is the one nonnegative `r` with
/// `r * r <= n < (r + 1) * (r + 1)`.
pub proof fn lemma_sqrt_floor_is(n: int, r: int)
    requires
        0 <= r,
        r * r <= n,
        n < (r + 1) * (r + 1),
    ensures
        sqrt_floor(n) == r,
{
    assert(0 <= r && #[trigger] (r * r) <= n && n < (r + 1) * (r + 1));
    let q = sqrt_floor(n);
    assert(0 <= q && q * q <= n && n < (q + 1) * (q + 1));
    assert(q == r) by (nonlinear_arith)
        requires
            0 <= q,
            0 <= r,
            q * q <= n,
            n < (q + 1) * (q + 1),
            r * r <= n,
            n < (r + 1) * (r + 1),
    ;
}

/// Floor square root of a 128-bit integer, by bisection.
pub fn isqrt(n: u128) -> (r: u128)
    ensures
        r * r <= n < (r + 1) * (r + 1),
        r == sqrt_floor(n as int),
{
    let mut lo: u128 = 0;
    let mut hi: u128 = 18_446_744_073_709_551_616;
    proof {
        assert((hi as int) * (hi as int) > n as int) by (nonlinear_arith)
            requires
                hi == 18_446_744_073_709_551_616u128,
                n <= u128::MAX,
        ;
    }
    while lo + 1 < hi
        invariant
            lo < hi,
            hi <= 18_446_744_073_709_551_616,
            (lo as int) * (lo as int) <= n as int,
            (hi as int) * (hi as int) > n as int,
        decreases hi - lo,
    {
        let mid: u128 = lo + (hi - lo) / 2;
        proof {
            assert((mid as int) * (mid as int) <= u128::MAX as int) by (nonlinear_arith)
                requires
                    mid < 18_446_744_073_709_551_616u128,
            ;
        }
        if mid * mid <= n {
            lo = mid;
        } else {
            hi = mid;
        }
    }
    proof {
        lemma_sqrt_floor_is(n as int, lo as int);
    }
    lo
}

/// A real-valued scalar held in fixed point: the value `raw / SCALE`.
#[derive(Clone, Copy, PartialEq, Eq, Structural, Debug)]
pub struct Fixed {
    raw: i128,
}

impl View for Fixed {
    type V = int;

    closed spec fn view(&self) -> int {
        self.raw as int
    }
}

impl Fixed {
    /// The scalar with the given raw count of millionths.
    pub fn from_raw(raw: i128) -> (r: Fixed)
        ensures
            r@ == raw as int,
    {
        Fixed { raw }
    }

    /// The scalar equal to the integer `i`.
    pub fn from_int(i: i128) -> (r: Fixed)
        requires
            abs_int(i as int) <= INT_LIMIT,
        ensures
            r@ == i * SCALE,
    {
        proof {
            assert(abs_int((i as int) * (SCALE as int)) <= INT_LIMIT * SCALE) by (nonlinear_arith)
                requires
                    abs_int(i as int) <= INT_LIMIT,
                    SCALE == 1_000_000i128,
            ;
        }
        Fixed { raw: i * SCALE }
    }

    /// The scalar equal to the exact ratio `n / d`, rounded toward zero
    /// at the resolution of the representation.
    pub fn from_ratio(n: i128, d: i128) -> (r: Fixed)
        requires
            d != 0,
            abs_int(n as int) <= DIV_LIMIT,
        ensures
            r@ == tdiv(n * SCALE, d as int),
    {
        proof {
            assert(abs_int((n as int) * (SCALE as int)) <= DIV_LIMIT * SCALE) by (nonlinear_arith)
                requires
                    abs_int(n as int) <= DIV_LIMIT,
                    SCALE == 1_000_000i128,
            ;
        }
        let p: i128 = n * SCALE;
        Fixed { raw: trunc_div(p, d) }
    }

    /// Raw count of millionths.
    pub fn raw(self) -> (r: i128)
        ensures
            r as int == self@,
    {
        self.raw
    }

    /// Exact sum.
    pub fn add(self, rhs: Fixed) -> (r: Fixed)
        requires
            abs_int(self@) <= SUM_LIMIT,
            abs_int(rhs@) <= SUM_LIMIT,
        ensures
            r@ == self@ + rhs@,
    {
        Fixed { raw: self.raw + rhs.raw }
    }

    /// Exact difference.
    pub fn sub(self, rhs: Fixed) -> (r: Fixed)
        requires
            abs_int(self@) <= SUM_LIMIT,
            abs_int(rhs@) <= SUM_LIMIT,
        ensures
            r@ == self@ - rhs@,
    {
        Fixed { raw: self.raw - rhs.raw }
    }

    /// Exact negation.
    pub fn neg(self) -> (r: Fixed)
        requires
            abs_int(self@) <= SUM_LIMIT,
        ensures
            r@ == -self@,
    {
        Fixed { raw: -self.raw }
    }

    /// Product, rounded toward zero at the resolution of the representation.
    pub fn mul(self, rhs: Fixed) -> (r: Fixed)
        requires
            abs_int(self@) <= MUL_LIMIT,
            abs_int(rhs@) <= MUL_LIMIT,
        ensures
            r@ == fmul(self@, rhs@),
    {
        proof {
            assert(abs_int(self@ * rhs@) <= MUL_LIMIT * MUL_LIMIT) by (nonlinear_arith)
                requires
                    abs_int(self@) <= MUL_LIMIT,
                    abs_int(rhs@) <= MUL_LIMIT,
            ;
        }
        let p: i128 = self.raw * rhs.raw;
        Fixed { raw: p / SCALE }
    }

    /// Quotient, rounded toward zero at the resolution of the representation.
    /// The divisor must not be zero.
    pub fn div(self, rhs: Fixed) -> (r: Fixed)
        requires
            rhs@ != 0,
            abs_int(self@) <= DIV_LIMIT,
        ensures
            r@ == fdiv(self@, rhs@),
    {
        proof {
            assert(abs_int(self@ * SCALE) <= DIV_LIMIT * SCALE) by (nonlinear_arith)
                requires
                    abs_int(self@) <= DIV_LIMIT,
                    SCALE == 1_000_000i128,
            ;
        }
        let p: i128 = self.raw * SCALE;
        Fixed { raw: trunc_div(p, rhs.raw) }
    }

    /// Square root of a nonnegative scalar, rounded toward zero at the
    /// resolution of the representation.
    pub fn sqrt(self) -> (r: Fixed)
        requires
            0 <= self@ <= SQRT_LIMIT,
        ensures
            r@ == sqrt_floor(self@ * SCALE),
            r@ >= 0,
            r@ * r@ <= self@ * SCALE < (r@ + 1) * (r@ + 1),
    {
        proof {
            assert(self@ * SCALE <= SQRT_LIMIT * SCALE) by (nonlinear_arith)
                requires
                    0 <= self@ <= SQRT_LIMIT,
                    SCALE == 1_000_000i128,
            ;
        }
        let n: u128 = (self.raw as u128) * (SCALE as u128);
        let s: u128 = isqrt(n);
        proof {
            assert(s as int <= MUL_LIMIT as int) by (nonlinear_arith)
                requires
                    (s as int) * (s as int) <= n as int,
                    n as int <= (SQRT_LIMIT as int) * (SCALE as int),
                    s >= 0,
                    SQRT_LIMIT == 100_000_000_000_000_000_000_000_000i128,
                    SCALE == 1_000_000i128,
                    MUL_LIMIT == 10_000_000_000_000_000_000i128,
            ;
        }
        Fixed { raw: s as i128 }
    }
}

} // verus!
