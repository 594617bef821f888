//! Three-component vectors.
//!
//! A `Vec3` is a triple of fixed-point scalars, read contextually as a point,
//! a direction, or a color. Its mathematical model is a triple of raw integer
//! values, and each operation's contract states the exact triple it returns.
//! The component limits in the `requires` clauses are machine limits that
//! keep every intermediate product inside 128 bits.

use crate::fixed::{
    abs_int, fdiv, fmul, isqrt, lemma_prod_bound, lemma_sqrt_floor_is, lemma_tdiv_bound,
    lemma_tdiv_remainder, lemma_tdiv_shrinks, sqrt_floor, tdiv, Fixed, SCALE,
};

use vstd::prelude::*;

verus! {

/// Magnitude limit on the components of most vector operations.
pub const VEC_LIMIT: i128 = 7_000_000_000_000_000_000;

/// Raw value of the constant 255.99, the channel conversion factor.
pub const CHANNEL_FACTOR: i128 = 255_990_000;

/// All three components are at most `b` in magnitude.
pub open spec fn in_range(v: (int, int, int), b: int) -> bool {
    abs_int(v.0) <= b && abs_int(v.1) <= b && abs_int(v.2) <= b
}

/// Componentwise sum.
pub open spec fn svadd(a: (int, int, int), b: (int, int, int)) -> (int, int, int) {
    (a.0 + b.0, a.1 + b.1, a.2 + b.2)
}

/// Componentwise difference.
pub open spec fn svsub(a: (int, int, int), b: (int, int, int)) -> (int, int, int) {
    (a.0 - b.0, a.1 - b.1, a.2 - b.2)
}

/// Componentwise product.
pub open spec fn svmul(a: (int, int, int), b: (int, int, int)) -> (int, int, int) {
    (fmul(a.0, b.0), fmul(a.1, b.1), fmul(a.2, b.2))
}

/// Componentwise quotient.
pub open spec fn svdiv(a: (int, int, int), b: (int, int, int)) -> (int, int, int) {
    (fdiv(a.0, b.0), fdiv(a.1, b.1), fdiv(a.2, b.2))
}

/// Every component scaled by `k`.
pub open spec fn svscale(k: int, v: (int, int, int)) -> (int, int, int) {
    (fmul(k, v.0), fmul(k, v.1), fmul(k, v.2))
}

/// Every component divided by `k`.
pub open spec fn svdiv_scalar(v: (int, int, int), k: int) -> (int, int, int) {
    (fdiv(v.0, k), fdiv(v.1, k), fdiv(v.2, k))
}

/// Numerator of the dot product: the exact sum of raw component products.
pub open spec fn svdot_num(a: (int, int, int), b: (int, int, int)) -> int {
    a.0 * b.0 + a.1 * b.1 + a.2 * b.2
}

/// Raw value of the dot product, truncated once at the end.
pub open spec fn svdot(a: (int, int, int), b: (int, int, int)) -> int {
    tdiv(svdot_num(a, b), SCALE as int)
}

/// Numerators of the right-handed cross product: exact raw determinants.
pub open spec fn svcross_num(a: (int, int, int), b: (int, int, int)) -> (int, int, int) {
    (a.1 * b.2 - a.2 * b.1, a.2 * b.0 - a.0 * b.2, a.0 * b.1 - a.1 * b.0)
}

/// Raw components of the cross product, each truncated once.
pub open spec fn svcross(a: (int, int, int), b: (int, int, int)) -> (int, int, int) {
    let n = svcross_num(a, b);
    (tdiv(n.0, SCALE as int), tdiv(n.1, SCALE as int), tdiv(n.2, SCALE as int))
}

/// Raw value of the Euclidean length: the floor square root of the exact
/// sum of squared raw components.
pub open spec fn svlen(v: (int, int, int)) -> int {
    sqrt_floor(svdot_num(v, v))
}

/// The unit vector in the direction of `v`; the exact zero vector maps to
/// itself.
pub open spec fn svunit(v: (int, int, int)) -> (int, int, int) {
    if v == (0int, 0int, 0int) {
        (0int, 0int, 0int)
    } else {
        let l = svlen(v);
        (tdiv(v.0 * SCALE, l), tdiv(v.1 * SCALE, l), tdiv(v.2 * SCALE, l))
    }
}

/// One 8-bit channel of a color component: the component scaled by 255.99,
/// truncated to an integer, and saturated to `[0, 255]`.
pub open spec fn sv_channel(c: int) -> int {
    let t = tdiv(fmul(c, CHANNEL_FACTOR as int), SCALE as int);
    if t < 0 {
        0
    } else if t > 255 {
        255
    } else {
        t
    }
}

/// A vector or color of three fixed-point components.
#[derive(Clone, Copy, PartialEq, Eq, Structural, Debug)]
pub struct Vec3 {
    x: Fixed,
    y: Fixed,
    z: Fixed,
}

impl View for Vec3 {
    type V = (int, int, int);

    closed spec fn view(&self) -> (int, int, int) {
        (self.x@, self.y@, self.z@)
    }
}

impl Vec3 {
    /// The vector with the given components.
    pub fn new(x: Fixed, y: Fixed, z: Fixed) -> (r: Vec3)
        ensures
            r@ == (x@, y@, z@),
    {
        Vec3 { x, y, z }
    }

    /// First component, read as a coordinate.
    pub fn x(self) -> (r: Fixed)
        ensures
            r@ == self@.0,
    {
        self.x
    }

    /// Second component, read as a coordinate.
    pub fn y(self) -> (r: Fixed)
        ensures
            r@ == self@.1,
    {
        self.y
    }

    /// Third component, read as a coordinate.
    pub fn z(self) -> (r: Fixed)
        ensures
            r@ == self@.2,
    {
        self.z
    }

    /// First component, read as the red channel.
    pub fn r(self) -> (r: Fixed)
        ensures
            r@ == self@.0,
    {
        self.x
    }

    /// Second component, read as the green channel.
    pub fn g(self) -> (r: Fixed)
        ensures
            r@ == self@.1,
    {
        self.y
    }

    /// Third component, read as the blue channel.
    pub fn b(self) -> (r: Fixed)
        ensures
            r@ == self@.2,
    {
        self.z
    }

    /// Componentwise sum, exact.
    pub fn add(self, rhs: Vec3) -> (r: Vec3)
        requires
            in_range(self@, VEC_LIMIT as int),
            in_range(rhs@, VEC_LIMIT as int),
        ensures
            r@ == svadd(self@, rhs@),
    {
        Vec3 { x: self.x.add(rhs.x), y: self.y.add(rhs.y), z: self.z.add(rhs.z) }
    }

    /// Componentwise difference, exact.
    pub fn sub(self, rhs: Vec3) -> (r: Vec3)
        requires
            in_range(self@, VEC_LIMIT as int),
            in_range(rhs@, VEC_LIMIT as int),
        ensures
            r@ == svsub(self@, rhs@),
    {
        Vec3 { x: self.x.sub(rhs.x), y: self.y.sub(rhs.y), z: self.z.sub(rhs.z) }
    }

    /// Componentwise product.
    pub fn mul(self, rhs: Vec3) -> (r: Vec3)
        requires
            in_range(self@, VEC_LIMIT as int),
            in_range(rhs@, VEC_LIMIT as int),
        ensures
            r@ == svmul(self@, rhs@),
    {
        Vec3 { x: self.x.mul(rhs.x), y: self.y.mul(rhs.y), z: self.z.mul(rhs.z) }
    }

    /// Componentwise quotient; no divisor component may be zero.
    pub fn div(self, rhs: Vec3) -> (r: Vec3)
        requires
            in_range(self@, VEC_LIMIT as int),
            rhs@.0 != 0,
            rhs@.1 != 0,
            rhs@.2 != 0,
        ensures
            r@ == svdiv(self@, rhs@),
    {
        Vec3 { x: self.x.div(rhs.x), y: self.y.div(rhs.y), z: self.z.div(rhs.z) }
    }

    /// Every component scaled by `k`.
    pub fn scale(self, k: Fixed) -> (r: Vec3)
        requires
            in_range(self@, VEC_LIMIT as int),
            abs_int(k@) <= VEC_LIMIT,
        ensures
            r@ == svscale(k@, self@),
    {
        Vec3 { x: k.mul(self.x), y: k.mul(self.y), z: k.mul(self.z) }
    }

    /// Every component divided by `k`; `k` must not be zero.
    pub fn div_scalar(self, k: Fixed) -> (r: Vec3)
        requires
            in_range(self@, VEC_LIMIT as int),
            k@ != 0,
        ensures
            r@ == svdiv_scalar(self@, k@),
    {
        Vec3 { x: self.x.div(k), y: self.y.div(k), z: self.z.div(k) }
    }

    /// Dot product: the exact sum of component products, truncated once.
    pub fn dot(self, rhs: Vec3) -> (r: Fixed)
        requires
            in_range(self@, VEC_LIMIT as int),
            in_range(rhs@, VEC_LIMIT as int),
        ensures
            r@ == svdot(self@, rhs@),
    {
        proof {
            lemma_prod_bound(self@.0, rhs@.0, VEC_LIMIT as int, VEC_LIMIT as int);
            lemma_prod_bound(self@.1, rhs@.1, VEC_LIMIT as int, VEC_LIMIT as int);
            lemma_prod_bound(self@.2, rhs@.2, VEC_LIMIT as int, VEC_LIMIT as int);
        }
        let n: i128 = self.x.raw() * rhs.x.raw() + self.y.raw() * rhs.y.raw()
            + self.z.raw() * rhs.z.raw();
        Fixed::from_raw(crate::fixed::trunc_div(n, SCALE))
    }

    /// Right-handed cross product, each component truncated once.
    pub fn cross(self, rhs: Vec3) -> (r: Vec3)
        requires
            in_range(self@, VEC_LIMIT as int),
            in_range(rhs@, VEC_LIMIT as int),
        ensures
            r@ == svcross(self@, rhs@),
    {
        proof {
            lemma_prod_bound(self@.1, rhs@.2, VEC_LIMIT as int, VEC_LIMIT as int);
            lemma_prod_bound(self@.2, rhs@.1, VEC_LIMIT as int, VEC_LIMIT as int);
            lemma_prod_bound(self@.2, rhs@.0, VEC_LIMIT as int, VEC_LIMIT as int);
            lemma_prod_bound(self@.0, rhs@.2, VEC_LIMIT as int, VEC_LIMIT as int);
            lemma_prod_bound(self@.0, rhs@.1, VEC_LIMIT as int, VEC_LIMIT as int);
            lemma_prod_bound(self@.1, rhs@.0, VEC_LIMIT as int, VEC_LIMIT as int);
        }
        let nx: i128 = self.y.raw() * rhs.z.raw() - self.z.raw() * rhs.y.raw();
        let ny: i128 = self.z.raw() * rhs.x.raw() - self.x.raw() * rhs.z.raw();
        let nz: i128 = self.x.raw() * rhs.y.raw() - self.y.raw() * rhs.x.raw();
        Vec3 {
            x: Fixed::from_raw(crate::fixed::trunc_div(nx, SCALE)),
            y: Fixed::from_raw(crate::fixed::trunc_div(ny, SCALE)),
            z: Fixed::from_raw(crate::fixed::trunc_div(nz, SCALE)),
        }
    }

    /// Euclidean length: the floor square root of the exact sum of squares.
    pub fn len(self) -> (r: Fixed)
        requires
            in_range(self@, VEC_LIMIT as int),
        ensures
            r@ == svlen(self@),
            0 <= r@ <= 2 * VEC_LIMIT,
            self@ != (0int, 0int, 0int) ==> r@ >= 1,
    {
        proof {
            lemma_prod_bound(self@.0, self@.0, VEC_LIMIT as int, VEC_LIMIT as int);
            lemma_prod_bound(self@.1, self@.1, VEC_LIMIT as int, VEC_LIMIT as int);
            lemma_prod_bound(self@.2, self@.2, VEC_LIMIT as int, VEC_LIMIT as int);
            lemma_square_nonneg(self@.0);
            lemma_square_nonneg(self@.1);
            lemma_square_nonneg(self@.2);
        }
        let n: i128 = self.x.raw() * self.x.raw() + self.y.raw() * self.y.raw()
            + self.z.raw() * self.z.raw();
        let s: u128 = isqrt(n as u128);
        proof {
            assert(s * s <= n as u128);
            assert(s as int <= VEC_LIMIT as int * 2) by (nonlinear_arith)
                requires
                    (s as int) * (s as int) <= n as int,
                    n as int <= 3 * ((VEC_LIMIT as int) * (VEC_LIMIT as int)),
                    s >= 0,
                    VEC_LIMIT == 7_000_000_000_000_000_000i128,
            ;
            if self@ != (0int, 0int, 0int) {
                lemma_len_positive(self@, s as int);
            }
        }
        Fixed::from_raw(s as i128)
    }

    /// Squared length: the dot product of the vector with itself.
    pub fn squared_len(self) -> (r: Fixed)
        requires
            in_range(self@, VEC_LIMIT as int),
        ensures
            r@ == svdot(self@, self@),
    {
        self.dot(self)
    }

    /// The unit vector in the same direction; the exact zero vector is
    /// returned unchanged. Every component of the result is at most 1 in
    /// magnitude.
    pub fn unit(self) -> (r: Vec3)
        requires
            in_range(self@, VEC_LIMIT as int),
        ensures
            r@ == svunit(self@),
            in_range(r@, SCALE as int),
    {
        if self.x.raw() == 0 && self.y.raw() == 0 && self.z.raw() == 0 {
            Vec3 {
                x: Fixed::from_raw(0),
                y: Fixed::from_raw(0),
                z: Fixed::from_raw(0),
            }
        } else {
            let l = self.len();
            proof {
                lemma_len_positive(self@, svlen(self@));
                lemma_prod_bound(self@.0, SCALE as int, VEC_LIMIT as int, SCALE as int);
                lemma_prod_bound(self@.1, SCALE as int, VEC_LIMIT as int, SCALE as int);
                lemma_prod_bound(self@.2, SCALE as int, VEC_LIMIT as int, SCALE as int);
                lemma_unit_component(self@.0, self@, svlen(self@));
                lemma_unit_component(self@.1, self@, svlen(self@));
                lemma_unit_component(self@.2, self@, svlen(self@));
            }
            let sx: i128 = self.x.raw() * SCALE;
            let sy: i128 = self.y.raw() * SCALE;
            let sz: i128 = self.z.raw() * SCALE;
            Vec3 {
                x: Fixed::from_raw(crate::fixed::trunc_div(sx, l.raw())),
                y: Fixed::from_raw(crate::fixed::trunc_div(sy, l.raw())),
                z: Fixed::from_raw(crate::fixed::trunc_div(sz, l.raw())),
            }
        }
    }

    /// The color as three 8-bit channels: each component scaled by 255.99,
    /// truncated, and saturated to `[0, 255]`.
    pub fn to_rgb(self) -> (r: (u8, u8, u8))
        requires
            in_range(self@, VEC_LIMIT as int),
        ensures
            r.0 == sv_channel(self@.0),
            r.1 == sv_channel(self@.1),
            r.2 == sv_channel(self@.2),
    {
        (channel_of(self.x), channel_of(self.y), channel_of(self.z))
    }
}

/// One component's 8-bit channel value.
fn channel_of(c: Fixed) -> (r: u8)
    requires
        abs_int(c@) <= VEC_LIMIT,
    ensures
        r == sv_channel(c@),
{
    proof {
        lemma_prod_bound(c@, CHANNEL_FACTOR as int, VEC_LIMIT as int, CHANNEL_FACTOR as int);
        lemma_tdiv_shrinks(c@ * CHANNEL_FACTOR, SCALE as int);
    }
    let scaled: i128 = crate::fixed::trunc_div(c.raw() * CHANNEL_FACTOR, SCALE);
    let t: i128 = crate::fixed::trunc_div(scaled, SCALE);
    if t < 0 {
        0
    } else if t > 255 {
        255
    } else {
        t as u8
    }
}

/// Scalar-first call shape of scaling: `scale(k, v)` equals `v.scale(k)`.
pub fn scale(k: Fixed, v: Vec3) -> (r: Vec3)
    requires
        in_range(v@, VEC_LIMIT as int),
        abs_int(k@) <= VEC_LIMIT,
    ensures
        r@ == svscale(k@, v@),
{
    v.scale(k)
}

/// A square of an integer is nonnegative.
proof fn lemma_square_nonneg(x: int)
    ensures
        x * x >= 0,
{
    assert(x * x >= 0) by (nonlinear_arith);
}

/// The length of a nonzero vector is at least one raw unit.
proof fn lemma_len_positive(v: (int, int, int), l: int)
    requires
        v != (0int, 0int, 0int),
        l == svlen(v),
    ensures
        l >= 1,
{
    lemma_square_nonneg(v.0);
    lemma_square_nonneg(v.1);
    lemma_square_nonneg(v.2);
    let n = svdot_num(v, v);
    assert(n >= 1) by (nonlinear_arith)
        requires
            n == v.0 * v.0 + v.1 * v.1 + v.2 * v.2,
            v != (0int, 0int, 0int),
    ;
    let q = sqrt_floor(n);
    assert(0 <= q && #[trigger] (q * q) <= n && n < (q + 1) * (q + 1)) by {
        lemma_sqrt_floor_exists(n);
    }
    assert(q >= 1) by (nonlinear_arith)
        requires
            0 <= q,
            n < (q + 1) * (q + 1),
            n >= 1,
    ;
}

/// The floor square root of a nonnegative integer exists.
proof fn lemma_sqrt_floor_exists(n: int)
    requires
        n >= 0,
    ensures
        0 <= sqrt_floor(n),
        sqrt_floor(n) * sqrt_floor(n) <= n,
        n < (sqrt_floor(n) + 1) * (sqrt_floor(n) + 1),
{
    lemma_sqrt_floor_exists_rec(n, 0);
}

/// Walks candidate roots upward to a witness for `sqrt_floor(n)`.
proof fn lemma_sqrt_floor_exists_rec(n: int, r: int)
    requires
        0 <= r,
        r * r <= n,
    ensures
        0 <= sqrt_floor(n),
        sqrt_floor(n) * sqrt_floor(n) <= n,
        n < (sqrt_floor(n) + 1) * (sqrt_floor(n) + 1),
    decreases n - r * r,
{
    if n < (r + 1) * (r + 1) {
        lemma_sqrt_floor_is(n, r);
    } else {
        assert(n - (r + 1) * (r + 1) < n - r * r) by (nonlinear_arith)
            requires
                0 <= r,
        ;
        lemma_sqrt_floor_exists_rec(n, r + 1);
    }
}

/// Each scaled component of a nonzero vector divides by the length into
/// a value of at most one: `|tdiv(c * SCALE, svlen(v))| <= SCALE`.
proof fn lemma_unit_component(c: int, v: (int, int, int), l: int)
    requires
        c == v.0 || c == v.1 || c == v.2,
        v != (0int, 0int, 0int),
        l == svlen(v),
    ensures
        l >= 1,
        abs_int(c) <= l,
        abs_int(c * SCALE) <= SCALE as int * l,
        abs_int(tdiv(c * SCALE, l)) <= SCALE as int,
{
    lemma_len_positive(v, l);
    let n = svdot_num(v, v);
    lemma_square_nonneg(v.0);
    lemma_square_nonneg(v.1);
    lemma_square_nonneg(v.2);
    lemma_sqrt_floor_exists(n);
    assert(abs_int(c) <= l) by (nonlinear_arith)
        requires
            n == v.0 * v.0 + v.1 * v.1 + v.2 * v.2,
            (c == v.0 || c == v.1 || c == v.2),
            l >= 0,
            l * l <= n,
            n < (l + 1) * (l + 1),
    ;
    lemma_prod_bound(c, SCALE as int, l, SCALE as int);
    lemma_tdiv_bound(c * SCALE, l, SCALE as int);
}

/// A dot product of bounded vectors is bounded: components within `ba` and
/// `bb` with `3 * ba * bb <= c * SCALE` give `|svdot(a, b)| <= c`.
pub proof fn lemma_svdot_bound(a: (int, int, int), b: (int, int, int), ba: int, bb: int, c: int)
    requires
        in_range(a, ba),
        in_range(b, bb),
        c >= 0,
        3 * (ba * bb) <= c * (SCALE as int),
    ensures
        abs_int(svdot(a, b)) <= c,
{
    lemma_prod_bound(a.0, b.0, ba, bb);
    lemma_prod_bound(a.1, b.1, ba, bb);
    lemma_prod_bound(a.2, b.2, ba, bb);
    lemma_tdiv_bound(svdot_num(a, b), SCALE as int, c);
}

/// Adding a vector and then subtracting it returns the first operand
/// exactly: `svsub(svadd(a, b), b) == a`.
pub proof fn lemma_add_sub_round_trip(a: (int, int, int), b: (int, int, int))
    ensures
        svsub(svadd(a, b), b) == a,
{
}

/// The exact cross product is orthogonal to both of its operands: the dot
/// numerator of `svcross_num(a, b)` with either `a` or `b` is zero.
pub proof fn lemma_cross_orthogonal(a: (int, int, int), b: (int, int, int))
    ensures
        svdot_num(svcross_num(a, b), a) == 0,
        svdot_num(svcross_num(a, b), b) == 0,
{
    let n = svcross_num(a, b);
    assert(n.0 * a.0 + n.1 * a.1 + n.2 * a.2 == 0) by (nonlinear_arith)
        requires
            n == svcross_num(a, b),
    ;
    assert(n.0 * b.0 + n.1 * b.1 + n.2 * b.2 == 0) by (nonlinear_arith)
        requires
            n == svcross_num(a, b),
    ;
}

/// For a nonzero vector of length at least one, the unit vector's length is
/// one to within four units of the representation's resolution. Shorter
/// vectors lose too much to truncation for any such bound.
pub proof fn lemma_unit_length_near_one(v: (int, int, int))
    requires
        v != (0int, 0int, 0int),
        svlen(v) >= SCALE,
    ensures
        SCALE - 4 <= svlen(svunit(v)) <= SCALE + 4,
{
    let s = SCALE as int;
    let (v0, v1, v2) = v;
    lemma_square_nonneg(v0);
    lemma_square_nonneg(v1);
    lemma_square_nonneg(v2);
    let n = svdot_num(v, v);
    lemma_sqrt_floor_exists(n);
    let l = svlen(v);
    let u0 = tdiv(v0 * s, l);
    let u1 = tdiv(v1 * s, l);
    let u2 = tdiv(v2 * s, l);
    assert(svunit(v) == (u0, u1, u2));
    let m = svdot_num(svunit(v), svunit(v));
    assert(m == u0 * u0 + u1 * u1 + u2 * u2);
    lemma_tdiv_remainder(v0 * s, l);
    lemma_tdiv_remainder(v1 * s, l);
    lemma_tdiv_remainder(v2 * s, l);
    let a0 = v0 * s;
    let a1 = v1 * s;
    let a2 = v2 * s;
    let r0 = a0 - u0 * l;
    let r1 = a1 - u1 * l;
    let r2 = a2 - u2 * l;
    // each component is no longer than the whole vector
    assert(abs_int(v0) <= l && abs_int(v1) <= l && abs_int(v2) <= l) by (nonlinear_arith)
        requires
            n == v0 * v0 + v1 * v1 + v2 * v2,
            v0 * v0 >= 0,
            v1 * v1 >= 0,
            v2 * v2 >= 0,
            l >= 0,
            n < (l + 1) * (l + 1),
    ;
    // expand each squared scaled component
    assert(u0 * u0 * (l * l) == a0 * a0 - 2 * (a0 * r0) + r0 * r0) by (nonlinear_arith)
        requires
            r0 == a0 - u0 * l,
    ;
    assert(u1 * u1 * (l * l) == a1 * a1 - 2 * (a1 * r1) + r1 * r1) by (nonlinear_arith)
        requires
            r1 == a1 - u1 * l,
    ;
    assert(u2 * u2 * (l * l) == a2 * a2 - 2 * (a2 * r2) + r2 * r2) by (nonlinear_arith)
        requires
            r2 == a2 - u2 * l,
    ;
    assert(a0 * a0 == (s * s) * (v0 * v0)) by (nonlinear_arith)
        requires
            a0 == v0 * s,
    ;
    assert(a1 * a1 == (s * s) * (v1 * v1)) by (nonlinear_arith)
        requires
            a1 == v1 * s,
    ;
    assert(a2 * a2 == (s * s) * (v2 * v2)) by (nonlinear_arith)
        requires
            a2 == v2 * s,
    ;
    assert(m * (l * l) == u0 * u0 * (l * l) + u1 * u1 * (l * l) + u2 * u2 * (l * l))
        by (nonlinear_arith)
        requires
            m == u0 * u0 + u1 * u1 + u2 * u2,
    ;
    assert((s * s) * n == (s * s) * (v0 * v0) + (s * s) * (v1 * v1) + (s * s) * (v2 * v2))
        by (nonlinear_arith)
        requires
            n == v0 * v0 + v1 * v1 + v2 * v2,
    ;
    assert(m * (l * l) == (s * s) * n - 2 * (a0 * r0 + a1 * r1 + a2 * r2)
        + (r0 * r0 + r1 * r1 + r2 * r2));
    // bound the error terms
    lemma_prod_bound(v0, s, l, s);
    lemma_prod_bound(v1, s, l, s);
    lemma_prod_bound(v2, s, l, s);
    lemma_prod_bound(a0, r0, l * s, l);
    lemma_prod_bound(a1, r1, l * s, l);
    lemma_prod_bound(a2, r2, l * s, l);
    lemma_prod_bound(r0, r0, l, l);
    lemma_prod_bound(r1, r1, l, l);
    lemma_prod_bound(r2, r2, l, l);
    lemma_square_nonneg(r0);
    lemma_square_nonneg(r1);
    lemma_square_nonneg(r2);
    assert((l * s) * l == s * (l * l)) by (nonlinear_arith);
    // lower bound on the squared unit length
    assert((s * s) * n >= (s * s) * (l * l)) by (nonlinear_arith)
        requires
            n >= l * l,
            s >= 1,
    ;
    assert(m * (l * l) >= (s * s) * (l * l) - 6 * (s * (l * l)));
    assert(m >= s * s - 6 * s) by (nonlinear_arith)
        requires
            m * (l * l) >= (s * s) * (l * l) - 6 * (s * (l * l)),
            l >= 1,
    ;
    // upper bound on the squared unit length
    assert((s * s) * n <= (s * s) * (l * l) + 2 * (s * (l * l))) by (nonlinear_arith)
        requires
            n < (l + 1) * (l + 1),
            1 <= s <= l,
    ;
    assert(m * (l * l) <= (s * s) * (l * l) + 8 * (s * (l * l)) + 3 * (l * l));
    assert(m <= s * s + 8 * s + 3) by (nonlinear_arith)
        requires
            m * (l * l) <= (s * s) * (l * l) + 8 * (s * (l * l)) + 3 * (l * l),
            l >= 1,
    ;
    // read the bounds off the floor square root
    lemma_sqrt_floor_exists(m);
    let q = sqrt_floor(m);
    assert(q >= s - 4) by (nonlinear_arith)
        requires
            m < (q + 1) * (q + 1),
            m >= s * s - 6 * s,
            q >= 0,
            s == 1_000_000,
    ;
    assert(q <= s + 4) by (nonlinear_arith)
        requires
            q * q <= m,
            m <= s * s + 8 * s + 3,
            q >= 0,
            s == 1_000_000,
    ;
}

/// The truncated cross product stays orthogonal up to truncation: its dot
/// numerator with either operand is smaller than the sum of that operand's
/// component magnitudes, so the dot product itself is within a few units of
/// the representation's resolution of zero.
pub proof fn lemma_cross_nearly_orthogonal(a: (int, int, int), b: (int, int, int))
    ensures
        abs_int(svdot_num(svcross(a, b), a)) <= abs_int(a.0) + abs_int(a.1) + abs_int(a.2),
        abs_int(svdot_num(svcross(a, b), b)) <= abs_int(b.0) + abs_int(b.1) + abs_int(b.2),
{
    lemma_cross_orthogonal(a, b);
    lemma_cross_near_side(svcross_num(a, b), a);
    lemma_cross_near_side(svcross_num(a, b), b);
}

/// One side of the near-orthogonality law: a numerator triple orthogonal to
/// `w` stays orthogonal to `w` after truncation by SCALE, up to one
/// remainder per component.
proof fn lemma_cross_near_side(n: (int, int, int), w: (int, int, int))
    requires
        svdot_num(n, w) == 0,
    ensures
        abs_int(svdot_num(
            (tdiv(n.0, SCALE as int), tdiv(n.1, SCALE as int), tdiv(n.2, SCALE as int)), w))
            <= abs_int(w.0) + abs_int(w.1) + abs_int(w.2),
{
    let s = SCALE as int;
    let (n0, n1, n2) = n;
    let (w0, w1, w2) = w;
    let c0 = tdiv(n0, s);
    let c1 = tdiv(n1, s);
    let c2 = tdiv(n2, s);
    lemma_tdiv_remainder(n0, s);
    lemma_tdiv_remainder(n1, s);
    lemma_tdiv_remainder(n2, s);
    let r0 = n0 - c0 * s;
    let r1 = n1 - c1 * s;
    let r2 = n2 - c2 * s;
    let d = c0 * w0 + c1 * w1 + c2 * w2;
    assert(s * (c0 * w0) == n0 * w0 - r0 * w0) by (nonlinear_arith)
        requires
            r0 == n0 - c0 * s,
    ;
    assert(s * (c1 * w1) == n1 * w1 - r1 * w1) by (nonlinear_arith)
        requires
            r1 == n1 - c1 * s,
    ;
    assert(s * (c2 * w2) == n2 * w2 - r2 * w2) by (nonlinear_arith)
        requires
            r2 == n2 - c2 * s,
    ;
    assert(n0 * w0 + n1 * w1 + n2 * w2 == 0);
    assert(s * d == -(r0 * w0 + r1 * w1 + r2 * w2));
    lemma_prod_bound(r0, w0, s, abs_int(w0));
    lemma_prod_bound(r1, w1, s, abs_int(w1));
    lemma_prod_bound(r2, w2, s, abs_int(w2));
    let wsum = abs_int(w0) + abs_int(w1) + abs_int(w2);
    assert(-(s * wsum) <= s * d <= s * wsum);
    assert(abs_int(d) <= wsum);
}

} // verus!