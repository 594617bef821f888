//! Rays: an origin and a direction.
//!
//! A ray stores both vectors verbatim; the direction is not normalized.
//! `point_at(t)` traces the parametric line `origin + t * direction`.

use crate::fixed::{abs_int, Fixed};
use crate::vec3::{in_range, svadd, svscale, Vec3, VEC_LIMIT};
use vstd::prelude::*;

verus! {

/// An origin point and a direction vector.
#[derive(Clone, Copy, PartialEq, Eq, Structural, Debug)]
pub struct Ray {
    origin: Vec3,
    direction: Vec3,
}

impl View for Ray {
    type V = ((int, int, int), (int, int, int));

    closed spec fn view(&self) -> ((int, int, int), (int, int, int)) {
        (self.origin@, self.direction@)
    }
}

impl Ray {
    /// A ray with the given origin and direction, stored verbatim.
    pub fn new(origin: Vec3, direction: Vec3) -> (r: Ray)
        ensures
            r@ == (origin@, direction@),
    {
        Ray { origin, direction }
    }

    /// The point `origin + t * direction` on the ray; `t` may be negative.
    pub fn point_at(self, t: Fixed) -> (r: Vec3)
        requires
            in_range(self@.0, VEC_LIMIT as int),
            in_range(self@.1, VEC_LIMIT as int),
            abs_int(t@) <= VEC_LIMIT,
            in_range(svscale(t@, self@.1), VEC_LIMIT as int),
        ensures
            r@ == svadd(self@.0, svscale(t@, self@.1)),
    {
        self.origin.add(self.direction.scale(t))
    }

    /// The stored origin.
    pub fn origin(self) -> (r: Vec3)
        ensures
            r@ == self@.0,
    {
        self.origin
    }

    /// The stored direction.
    pub fn direction(self) -> (r: Vec3)
        ensures
            r@ == self@.1,
    {
        self.direction
    }
}

} // verus!
