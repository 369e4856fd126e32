//! Rays: an origin plus a (not necessarily unit) direction.

use vstd::prelude::*;
use vstd::arithmetic::div_mod::lemma_div_is_ordered;
use crate::fixed::COORD_MAX;
use crate::fixed::T_MAX;
use crate::vector3::Point3;
use crate::vector3::Vector3;
use crate::vector3::lemma_mul_bound_abs;
use crate::vector3::v_add;
use crate::vector3::v_bounded;
use crate::vector3::v_scale;

verus! {

/// Represents a ray in 3D space.
#[derive(Clone, Copy, Debug)]
pub struct Ray {
    /// The ray's origin.
    pub origin: Point3,
    /// The ray's direction.
    pub direction: Vector3,
}

/// A ray whose components fit the intersection math's coordinate budget.
pub open spec fn ray_wf(r: Ray) -> bool {
    &&& v_bounded(r.origin@, COORD_MAX as int)
    &&& v_bounded(r.direction@, COORD_MAX as int)
}

/// The point reached after walking the fixed-point parameter `t` along the
/// ray: `origin + t * direction`.
pub open spec fn ray_at(r: Ray, t: int) -> (int, int, int) {
    v_add(r.origin@, v_scale(r.direction@, t))
}

impl Ray {
    /// Returns a Ray with the given origin and direction.
    pub fn new(origin: Point3, direction: Vector3) -> (r: Self)
        ensures
            r.origin == origin,
            r.direction == direction,
    {
        Self { origin, direction }
    }

    /// Returns the point on the ray at the given distance.
    pub fn get_point(&self, distance: i64) -> (p: Point3)
        requires
            ray_wf(*self),
            -T_MAX <= distance <= T_MAX,
        ensures
            p@ == ray_at(*self, distance as int),
            v_bounded(p@, 1074790400int),
    {
        proof {
            lemma_mul_bound_abs(self.direction.x as int, 1048576, distance as int, 524288);
            lemma_mul_bound_abs(self.direction.y as int, 1048576, distance as int, 524288);
            lemma_mul_bound_abs(self.direction.z as int, 1048576, distance as int, 524288);
            lemma_div_is_ordered(
                -549755813888,
                self.direction.x as int * distance as int,
                512,
            );
            lemma_div_is_ordered(self.direction.x as int * distance as int, 549755813888, 512);
            lemma_div_is_ordered(
                -549755813888,
                self.direction.y as int * distance as int,
                512,
            );
            lemma_div_is_ordered(self.direction.y as int * distance as int, 549755813888, 512);
            lemma_div_is_ordered(
                -549755813888,
                self.direction.z as int * distance as int,
                512,
            );
            lemma_div_is_ordered(self.direction.z as int * distance as int, 549755813888, 512);
        }
        self.origin.add(self.direction.scale(distance))
    }
}

} // verus!
