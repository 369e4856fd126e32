//! Spheres and exact ray/sphere intersection.
//!
//! The quadratic `a t^2 + 2 hb t + cc = 0` (for the real ray parameter `t`)
//! has integer coefficients here, so "a real root lies within the queried
//! range" is decided exactly: each comparison of a root `(-hb ± sqrt(disc))/a`
//! against a range endpoint is encoded by comparing squares.  The returned
//! distance is the exact floor of the true root in fixed-point units.

use vstd::prelude::*;
use vstd::arithmetic::div_mod::lemma_div_is_ordered;
use vstd::arithmetic::div_mod::lemma_div_multiples_vanish;
use crate::aabb::AABB;
use crate::fixed::COORD_MAX;
use crate::fixed::SCALE;
use crate::fixed::T_MAX;
use crate::fixed::floor_div;
use crate::fixed::isqrt_u128;
use crate::fixed::lemma_sqrt_floor_unique;
use crate::fixed::sqrt_floor;
use crate::hit::Hit;
use crate::material::Material;
use crate::material::material_wf;
use crate::ray::Ray;
use crate::ray::ray_at;
use crate::ray::ray_wf;
use crate::texture::texture_color_at;
use crate::vector3::Point3;
use crate::vector3::Vector3;
use crate::vector3::lemma_mul_bound_abs;
use crate::vector3::v_bounded;
use crate::vector3::v_div;
use crate::vector3::v_dot_raw;
use crate::vector3::v_is_zero;
use crate::vector3::v_mag2;
use crate::vector3::v_neg;
use crate::vector3::v_sub;

verus! {

/// Represents a sphere in 3D space.
#[derive(Clone, Copy, Debug)]
pub struct Sphere {
    /// The sphere's center.
    pub center: Point3,
    /// The sphere's radius, in fixed-point units.
    pub radius: i64,
    /// The sphere's material.
    pub material: Material,
}

/// A positive radius, a valid material, and a bounding box inside the
/// coordinate budget.
pub open spec fn sphere_wf(s: Sphere) -> bool {
    &&& 0 < s.radius
    &&& v_bounded(s.center@, COORD_MAX as int)
    &&& -COORD_MAX <= s.center.x - s.radius && s.center.x + s.radius <= COORD_MAX
    &&& -COORD_MAX <= s.center.y - s.radius && s.center.y + s.radius <= COORD_MAX
    &&& -COORD_MAX <= s.center.z - s.radius && s.center.z + s.radius <= COORD_MAX
    &&& material_wf(s.material)
}

/// The box with corners one radius away from the center on each axis.
pub open spec fn sphere_box(s: Sphere) -> AABB {
    AABB {
        min: Vector3 {
            x: (s.center.x - s.radius) as i64,
            y: (s.center.y - s.radius) as i64,
            z: (s.center.z - s.radius) as i64,
        },
        max: Vector3 {
            x: (s.center.x + s.radius) as i64,
            y: (s.center.y + s.radius) as i64,
            z: (s.center.z + s.radius) as i64,
        },
    }
}

/// Leading coefficient of the intersection quadratic: `|direction|^2`.
pub open spec fn sph_a(s: Sphere, r: Ray) -> int {
    v_mag2(r.direction@)
}

/// Half the linear coefficient: `(origin - center) . direction`.
pub open spec fn sph_hb(s: Sphere, r: Ray) -> int {
    v_dot_raw(v_sub(r.origin@, s.center@), r.direction@)
}

/// Constant coefficient: `|origin - center|^2 - radius^2`.
pub open spec fn sph_cc(s: Sphere, r: Ray) -> int {
    v_mag2(v_sub(r.origin@, s.center@)) - s.radius * s.radius
}

/// The discriminant `hb^2 - a cc`; real roots exist exactly when it is
/// nonnegative.
pub open spec fn sph_disc(s: Sphere, r: Ray) -> int {
    sph_hb(s, r) * sph_hb(s, r) - sph_a(s, r) * sph_cc(s, r)
}

/// The discriminant scaled by `SCALE^2`, whose square root compares against
/// fixed-point range endpoints.
pub open spec fn sph_bb(s: Sphere, r: Ray) -> int {
    SCALE * SCALE * sph_disc(s, r)
}

/// `t * a + SCALE * hb`: the quantity whose comparison against
/// `±sqrt(sph_bb)` decides whether a root lies beyond the fixed-point range
/// endpoint `t`.
pub open spec fn range_num(s: Sphere, r: Ray, t: int) -> int {
    t * sph_a(s, r) + SCALE * sph_hb(s, r)
}

/// `y <= sqrt(dd)`, encoded without square roots (`dd >= 0`).
pub open spec fn below_sqrt(y: int, dd: int) -> bool {
    y <= 0 || y * y <= dd
}

/// `sqrt(dd) <= y`, encoded without square roots (`dd >= 0`).
pub open spec fn above_sqrt(y: int, dd: int) -> bool {
    y >= 0 && dd <= y * y
}

/// The smaller real root `(-hb - sqrt(disc)) / a` lies in
/// `[tmin/SCALE, tmax/SCALE]`.
pub open spec fn near_root_in_range(s: Sphere, r: Ray, tmin: int, tmax: int) -> bool {
    above_sqrt(-range_num(s, r, tmin), sph_bb(s, r)) && below_sqrt(
        -range_num(s, r, tmax),
        sph_bb(s, r),
    )
}

/// The larger real root `(-hb + sqrt(disc)) / a` lies in
/// `[tmin/SCALE, tmax/SCALE]`.
pub open spec fn far_root_in_range(s: Sphere, r: Ray, tmin: int, tmax: int) -> bool {
    below_sqrt(range_num(s, r, tmin), sph_bb(s, r)) && above_sqrt(
        range_num(s, r, tmax),
        sph_bb(s, r),
    )
}

/// A real root of the intersection quadratic lies within the queried range:
/// the exact condition under which the sphere reports a hit.
pub open spec fn sphere_hit_exists(s: Sphere, r: Ray, tmin: int, tmax: int) -> bool {
    &&& sph_disc(s, r) >= 0
    &&& (near_root_in_range(s, r, tmin, tmax) || far_root_in_range(s, r, tmin, tmax))
}

/// The accepted root (the smaller one if it is in range, otherwise the
/// larger), as an exact floor in fixed-point units.
pub open spec fn sphere_hit_time(s: Sphere, r: Ray, tmin: int, tmax: int) -> int {
    let aa = sph_a(s, r);
    let bb = sph_bb(s, r);
    let amp = -SCALE * sph_hb(s, r);
    let sq = sqrt_floor(bb);
    if near_root_in_range(s, r, tmin, tmax) {
        if sq * sq == bb {
            (amp - sq) / aa
        } else {
            (amp - sq - 1) / aa
        }
    } else {
        (amp + sq) / aa
    }
}

/// The point where the accepted root meets the sphere.
pub open spec fn sphere_hit_point(s: Sphere, r: Ray, tmin: int, tmax: int) -> (int, int, int) {
    ray_at(r, sphere_hit_time(s, r, tmin, tmax))
}

/// The outward surface normal at the hit point, before orientation.
pub open spec fn sphere_normal_raw(s: Sphere, r: Ray, tmin: int, tmax: int) -> (int, int, int) {
    v_div(v_sub(sphere_hit_point(s, r, tmin, tmax), s.center@), s.radius as int)
}

/// The full hit record the sphere produces for an in-range root: the exact
/// distance, the normal oriented against the ray, the front flag, the
/// texture's color at the hit point, and the material's scatter fields.
pub open spec fn sphere_hit_rec(s: Sphere, r: Ray, tmin: int, tmax: int, h: Hit) -> bool {
    &&& h.ray == r
    &&& h.distance == sphere_hit_time(s, r, tmin, tmax)
    &&& tmin <= h.distance <= tmax
    &&& h.is_front == (v_dot_raw(r.direction@, sphere_normal_raw(s, r, tmin, tmax)) < 0)
    &&& h.normal@ == (if h.is_front {
        sphere_normal_raw(s, r, tmin, tmax)
    } else {
        v_neg(sphere_normal_raw(s, r, tmin, tmax))
    })
    &&& v_dot_raw(r.direction@, h.normal@) <= 0
    &&& h.color@ == texture_color_at(
        s.material.texture,
        sphere_hit_point(s, r, tmin, tmax),
    )
    &&& h.reflectivity == s.material.reflectivity
    &&& h.refraction_index == s.material.refraction_index
}

/// A raw inner product of vectors bounded by `ba` and `bb` is bounded by
/// `3 * ba * bb`.
pub proof fn lemma_dot_raw_bound(a: (int, int, int), b: (int, int, int), ba: int, bb: int)
    requires
        v_bounded(a, ba),
        v_bounded(b, bb),
        0 <= ba,
        0 <= bb,
    ensures
        -3 * (ba * bb) <= v_dot_raw(a, b) <= 3 * (ba * bb),
{
    lemma_mul_bound_abs(a.0, ba, b.0, bb);
    lemma_mul_bound_abs(a.1, ba, b.1, bb);
    lemma_mul_bound_abs(a.2, ba, b.2, bb);
}

impl Sphere {
    /// Returns a Sphere with the given center, radius and material.
    pub fn new(center: Point3, radius: i64, material: Material) -> (s: Self)
        requires
            0 < radius,
            v_bounded(center@, COORD_MAX as int),
            -COORD_MAX <= center.x - radius && center.x + radius <= COORD_MAX,
            -COORD_MAX <= center.y - radius && center.y + radius <= COORD_MAX,
            -COORD_MAX <= center.z - radius && center.z + radius <= COORD_MAX,
            material_wf(material),
        ensures
            s.center == center,
            s.radius == radius,
            s.material == material,
            sphere_wf(s),
    {
        Self { center, radius, material }
    }

    /// Returns the AABB that surrounds the sphere.
    pub fn get_aabb(&self) -> (b: AABB)
        requires
            sphere_wf(*self),
        ensures
            b == sphere_box(*self),
            crate::aabb::aabb_wf(b),
    {
        let radius_vector = Vector3 { x: self.radius, y: self.radius, z: self.radius };
        AABB {
            min: Vector3 {
                x: self.center.x - radius_vector.x,
                y: self.center.y - radius_vector.y,
                z: self.center.z - radius_vector.z,
            },
            max: Vector3 {
                x: self.center.x + radius_vector.x,
                y: self.center.y + radius_vector.y,
                z: self.center.z + radius_vector.z,
            },
        }
    }

    /// Returns Some(Hit) exactly when a real root of the intersection
    /// quadratic lies within `[min_dist, max_dist]` (in fixed-point units).
    /// The hit's distance is the exact floor of that root, its normal is
    /// oriented against the ray, and its color is the material's texture
    /// sampled at the hit point.
    #[verifier::rlimit(60)]
    pub fn get_hit(&self, ray: Ray, min_dist: i64, max_dist: i64) -> (res: Option<Hit>)
        requires
            sphere_wf(*self),
            ray_wf(ray),
            !v_is_zero(ray.direction@),
            -T_MAX <= min_dist <= T_MAX,
            -T_MAX <= max_dist <= T_MAX,
        ensures
            res.is_some() == sphere_hit_exists(*self, ray, min_dist as int, max_dist as int),
            match res {
                Some(h) => sphere_hit_rec(*self, ray, min_dist as int, max_dist as int, h),
                None => true,
            },
    {
        let oc = Vector3 {
            x: ray.origin.x - self.center.x,
            y: ray.origin.y - self.center.y,
            z: ray.origin.z - self.center.z,
        };
        let a = ray.direction.dot_raw(ray.direction);
        let hb = oc.dot_raw(ray.direction);
        let oc2 = oc.dot_raw(oc);
        proof {
            lemma_dot_raw_bound(oc@, oc@, 2097152, 2097152);
            lemma_mul_bound_abs(self.radius as int, 1048576, self.radius as int, 1048576);
        }
        let c0 = oc2 - self.radius * self.radius;
        proof {
            assert(a >= 1) by (nonlinear_arith)
                requires
                    a == v_mag2(ray.direction@),
                    v_mag2(ray.direction@) == ray.direction.x * ray.direction.x
                        + ray.direction.y * ray.direction.y + ray.direction.z * ray.direction.z,
                    !(ray.direction.x == 0 && ray.direction.y == 0 && ray.direction.z == 0),
            ;
            lemma_dot_raw_bound(ray.direction@, ray.direction@, 1048576, 1048576);
            lemma_dot_raw_bound(oc@, ray.direction@, 2097152, 1048576);
        }
        proof {
            lemma_mul_bound_abs(hb as int, 0x80000000000, hb as int, 0x80000000000);
            lemma_mul_bound_abs(a as int, 0x40000000000, c0 as int, 0x100000000000);
        }
        let disc: i128 = (hb as i128) * (hb as i128) - (a as i128) * (c0 as i128);
        if disc < 0 {
            return None;
        }
        proof {
            lemma_mul_bound_abs(262144, 262144, disc as int, 0x8000000000000000000000);
        }
        let bb: i128 = 262144 * disc;
        proof {
            lemma_mul_bound_abs(min_dist as int, 524288, a as int, 0x40000000000);
            lemma_mul_bound_abs(max_dist as int, 524288, a as int, 0x40000000000);
        }
        let xmin: i64 = min_dist * a + SCALE * hb;
        let xmax: i64 = max_dist * a + SCALE * hb;
        proof {
            assert((-(xmin as int)) * (-(xmin as int)) == xmin as int * (xmin as int) && (-(
            xmax as int)) * (-(xmax as int)) == xmax as int * (xmax as int)) by (nonlinear_arith);
            lemma_mul_bound_abs(xmin as int, 0x8000000000000000, xmin as int, 0x8000000000000000);
            lemma_mul_bound_abs(xmax as int, 0x8000000000000000, xmax as int, 0x8000000000000000);
        }
        let near_ok: bool = (-xmin >= 0 && bb <= (xmin as i128) * (xmin as i128)) && (-xmax <= 0
            || (xmax as i128) * (xmax as i128) <= bb);
        let far_ok: bool = (xmin <= 0 || (xmin as i128) * (xmin as i128) <= bb) && (xmax >= 0 && bb
            <= (xmax as i128) * (xmax as i128));
        if !near_ok && !far_ok {
            return None;
        }
        let sq_u = isqrt_u128(bb as u128);
        proof {
            lemma_sqrt_floor_unique(bb as int, sq_u as int);
            assert(sq_u < 0x20000000000000u64) by (nonlinear_arith)
                requires
                    sq_u as int * (sq_u as int) <= bb as int,
                    bb <= 0x200000000000000000000000000i128,
            ;
        }
        let sq: i64 = sq_u as i64;
        let amp: i64 = -(SCALE * hb);
        let perfect: bool = (sq as i128) * (sq as i128) == bb;
        let num: i64 = if near_ok {
            if perfect {
                amp - sq
            } else {
                amp - sq - 1
            }
        } else {
            amp + sq
        };
        proof {
            lemma_accepted_num_in_range(
                a as int,
                bb as int,
                sq as int,
                amp as int,
                xmin as int,
                xmax as int,
                num as int,
                min_dist as int,
                max_dist as int,
                near_ok,
                perfect,
            );
        }
        let t = floor_div(num, a);
        proof {
            lemma_div_is_ordered(min_dist as int * a as int, num as int, a as int);
            lemma_div_is_ordered(num as int, max_dist as int * a as int, a as int);
            lemma_div_multiples_vanish(min_dist as int, a as int);
            lemma_div_multiples_vanish(max_dist as int, a as int);
            assert(min_dist as int * a as int == a as int * min_dist as int && max_dist as int
                * a as int == a as int * max_dist as int) by (nonlinear_arith);
        }
        let p = ray.get_point(t);
        let ox = p.x - self.center.x;
        let oy = p.y - self.center.y;
        let oz = p.z - self.center.z;
        let nx = floor_div(ox * SCALE, self.radius);
        let ny = floor_div(oy * SCALE, self.radius);
        let nz = floor_div(oz * SCALE, self.radius);
        proof {
            crate::fixed::lemma_div_magnitude(ox as int * SCALE, self.radius as int);
            crate::fixed::lemma_div_magnitude(oy as int * SCALE, self.radius as int);
            crate::fixed::lemma_div_magnitude(oz as int * SCALE, self.radius as int);
            assert(-550829555713 <= nx as int <= 550829555713 && -550829555713 <= ny as int
                <= 550829555713 && -550829555713 <= nz as int <= 550829555713);
            lemma_mul_bound_abs(ray.direction.x as int, 1048576, nx as int, 550829555713);
            lemma_mul_bound_abs(ray.direction.y as int, 1048576, ny as int, 550829555713);
            lemma_mul_bound_abs(ray.direction.z as int, 1048576, nz as int, 550829555713);
        }
        let dn: i64 = ray.direction.x * nx + ray.direction.y * ny + ray.direction.z * nz;
        let is_front = dn < 0;
        let normal = if is_front {
            Vector3 { x: nx, y: ny, z: nz }
        } else {
            Vector3 { x: -nx, y: -ny, z: -nz }
        };
        proof {
            if !is_front {
                assert(ray.direction.x as int * -(nx as int) == -(ray.direction.x as int
                    * nx as int) && ray.direction.y as int * -(ny as int) == -(
                ray.direction.y as int * ny as int) && ray.direction.z as int * -(nz as int) == -(
                ray.direction.z as int * nz as int)) by (nonlinear_arith);
            }
        }
        let color = self.material.texture.get_color(p);
        Some(
            Hit::new(
                ray,
                t,
                normal,
                is_front,
                color,
                self.material.reflectivity,
                self.material.refraction_index,
            ),
        )
    }
}

// Ring identities and square-root-free comparison facts used by the
// pruning-soundness proof, each in its own lemma so the nonlinear solver
// sees a minimal context.
/// `(x y)(z w) == (x z)(y w)`: the four-factor product is independent of the
/// pairing.
proof fn lemma_mul_rearrange(x: int, y: int, z: int, w: int)
    ensures
        (x * y) * (z * w) == (x * z) * (y * w),
{
    vstd::arithmetic::mul::lemma_mul_is_associative(x, y, z * w);
    vstd::arithmetic::mul::lemma_mul_is_associative(y, z, w);
    vstd::arithmetic::mul::lemma_mul_is_commutative(y, z);
    vstd::arithmetic::mul::lemma_mul_is_associative(z, y, w);
    vstd::arithmetic::mul::lemma_mul_is_associative(x, z, y * w);
}

/// `(x y)(z w) == (x w)(z y)`.
proof fn lemma_mul_rearrange_swap(x: int, y: int, z: int, w: int)
    ensures
        (x * y) * (z * w) == (x * w) * (z * y),
{
    vstd::arithmetic::mul::lemma_mul_is_commutative(z, w);
    lemma_mul_rearrange(x, y, w, z);
    vstd::arithmetic::mul::lemma_mul_is_commutative(y, z);
}

/// The binomial square `(p + q)^2 == p^2 + 2 p q + q^2`.
proof fn lemma_binomial_square(p: int, q: int)
    ensures
        (p + q) * (p + q) == p * p + 2 * (p * q) + q * q,
{
    vstd::arithmetic::mul::lemma_mul_is_distributive_add_other_way(p + q, p, q);
    vstd::arithmetic::mul::lemma_mul_is_distributive_add(p, p, q);
    vstd::arithmetic::mul::lemma_mul_is_distributive_add(q, p, q);
    vstd::arithmetic::mul::lemma_mul_is_commutative(q, p);
}

proof fn lemma_sq_expand(t: int, u: int, m: int, n: int, d: int)
    requires
        t == u * m + n * d,
    ensures
        t * t == (u * u) * (m * m) + 2 * ((u * d) * (n * m)) + (d * d) * (n * n),
{
    lemma_binomial_square(u * m, n * d);
    lemma_mul_rearrange(u, m, u, m);
    lemma_mul_rearrange_swap(u, m, n, d);
    lemma_mul_rearrange(n, d, n, d);
    vstd::arithmetic::mul::lemma_mul_is_commutative(n * n, d * d);
}

proof fn lemma_distrib3(p0: int, p1: int, p2: int, x: int) by (nonlinear_arith)
    ensures
        (p0 + p1 + p2) * x == p0 * x + p1 * x + p2 * x,
{
}

proof fn lemma_distrib_add(p: int, q: int, x: int) by (nonlinear_arith)
    ensures
        (p + q) * x == p * x + q * x,
{
}

proof fn lemma_distrib_sub(p: int, q: int, x: int) by (nonlinear_arith)
    ensures
        (p - q) * x == p * x - q * x,
{
}

proof fn lemma_square_swap(m: int, rad: int) by (nonlinear_arith)
    ensures
        (m * rad) * (m * rad) == (rad * rad) * (m * m),
{
}

proof fn lemma_square_nonneg(x: int) by (nonlinear_arith)
    ensures
        x * x >= 0,
{
}

proof fn lemma_abs_le_of_square(t: int, b: int) by (nonlinear_arith)
    requires
        t * t <= b * b,
        b >= 0,
    ensures
        -b <= t <= b,
{
}

proof fn lemma_mul_comm_ab(x: int, y: int) by (nonlinear_arith)
    ensures
        x * y == y * x,
{
}

proof fn lemma_double_assoc(x: int, y: int) by (nonlinear_arith)
    ensures
        2 * x * y == 2 * (x * y),
{
}

proof fn lemma_neg_square(x: int) by (nonlinear_arith)
    ensures
        (-x) * (-x) == x * x,
{
}

proof fn lemma_neg_mul(x: int, y: int) by (nonlinear_arith)
    ensures
        (-x) * y == -(x * y),
{
}

proof fn lemma_mul_nonneg_ab(x: int, y: int) by (nonlinear_arith)
    requires
        x >= 0,
        y >= 0,
    ensures
        x * y >= 0,
{
}

/// Completing the square: `a` times the quadratic at `t/ss` (cleared of
/// denominators) is the square of the range numerator minus the scaled
/// discriminant.
proof fn lemma_quad_complete_square(a: int, hb: int, cc: int, t: int, ss: int)
    ensures
        a * (a * (t * t) + 2 * hb * (t * ss) + cc * (ss * ss)) == (t * a + ss * hb) * (t * a + ss
            * hb) - (ss * ss) * (hb * hb - a * cc),
{
    lemma_binomial_square(t * a, ss * hb);
    lemma_mul_rearrange(t, a, t, a);
    vstd::arithmetic::mul::lemma_mul_is_commutative(t * t, a * a);
    lemma_mul_rearrange(t, a, ss, hb);
    vstd::arithmetic::mul::lemma_mul_is_commutative(t * ss, a * hb);
    lemma_mul_rearrange(ss, hb, ss, hb);
    vstd::arithmetic::mul::lemma_mul_is_distributive_sub(ss * ss, hb * hb, a * cc);
    vstd::arithmetic::mul::lemma_mul_is_distributive_add(
        a,
        a * (t * t) + 2 * hb * (t * ss),
        cc * (ss * ss),
    );
    vstd::arithmetic::mul::lemma_mul_is_distributive_add(a, a * (t * t), 2 * hb * (t * ss));
    vstd::arithmetic::mul::lemma_mul_is_associative(a, a, t * t);
    vstd::arithmetic::mul::lemma_mul_is_commutative(a, a * (t * t));
    vstd::arithmetic::mul::lemma_mul_is_associative(a, 2 * hb, t * ss);
    vstd::arithmetic::mul::lemma_mul_is_associative(a, 2, hb);
    vstd::arithmetic::mul::lemma_mul_is_commutative(a, 2);
    vstd::arithmetic::mul::lemma_mul_is_associative(2, a, hb);
    vstd::arithmetic::mul::lemma_mul_is_associative(2, a * hb, t * ss);
    vstd::arithmetic::mul::lemma_mul_is_associative(a, cc, ss * ss);
    vstd::arithmetic::mul::lemma_mul_is_commutative(a * cc, ss * ss);
}

/// The quadratic is nonpositive at the closest-approach parameter.
proof fn lemma_center_inside(a: int, hb: int, cc: int) by (nonlinear_arith)
    requires
        a >= 1,
        hb * hb - a * cc >= 0,
    ensures
        a * ((-hb) * (-hb)) + 2 * hb * ((-hb) * a) + cc * (a * a) <= 0,
{
}

proof fn lemma_le_cancel(p: int, q: int, a: int) by (nonlinear_arith)
    requires
        p * a <= q * a,
        a >= 1,
    ensures
        p <= q,
{
}

/// Both sides of a square root: a nonpositive value below it and a value
/// whose square bounds it from above are ordered.
proof fn lemma_between_neg(xmin: int, xmax: int, bbq: int) by (nonlinear_arith)
    requires
        xmin <= 0,
        xmax * xmax <= bbq,
        bbq <= xmin * xmin,
    ensures
        xmin <= xmax,
{
}

proof fn lemma_between_pos(xmin: int, xmax: int, bbq: int) by (nonlinear_arith)
    requires
        xmax >= 0,
        bbq <= xmax * xmax,
        xmin <= 0 || xmin * xmin <= bbq,
    ensures
        xmin <= xmax,
{
}

proof fn lemma_square_le(x: int, b: int) by (nonlinear_arith)
    requires
        x <= 0,
        -x <= 0 || (-x) * (-x) <= b,
        b >= 0,
    ensures
        x * x <= b,
{
}

proof fn lemma_square_le_pos(x: int, b: int) by (nonlinear_arith)
    requires
        x >= 0,
        x <= 0 || x * x <= b,
        b >= 0,
    ensures
        x * x <= b,
{
}

/// Any rational ray parameter `n / m` at which the ray's point lies inside
/// the sphere (the quadratic is nonpositive) keeps the point inside the
/// sphere's bounding box on every axis.
proof fn lemma_inside_ball(s: Sphere, r: Ray, n: int, m: int)
    requires
        sphere_wf(s),
        m > 0,
        sph_a(s, r) * (n * n) + 2 * sph_hb(s, r) * (n * m) + sph_cc(s, r) * (m * m) <= 0,
    ensures
        crate::aabb::axis_ok(
            sphere_box(s).min.x as int,
            sphere_box(s).max.x as int,
            r.origin.x as int,
            r.direction.x as int,
            n,
            m,
        ),
        crate::aabb::axis_ok(
            sphere_box(s).min.y as int,
            sphere_box(s).max.y as int,
            r.origin.y as int,
            r.direction.y as int,
            n,
            m,
        ),
        crate::aabb::axis_ok(
            sphere_box(s).min.z as int,
            sphere_box(s).max.z as int,
            r.origin.z as int,
            r.direction.z as int,
            n,
            m,
        ),
{
    let u0 = r.origin.x as int - s.center.x as int;
    let u1 = r.origin.y as int - s.center.y as int;
    let u2 = r.origin.z as int - s.center.z as int;
    let d0 = r.direction.x as int;
    let d1 = r.direction.y as int;
    let d2 = r.direction.z as int;
    let rad = s.radius as int;
    let t0 = u0 * m + n * d0;
    let t1 = u1 * m + n * d1;
    let t2 = u2 * m + n * d2;
    assert(sph_a(s, r) == d0 * d0 + d1 * d1 + d2 * d2);
    assert(sph_hb(s, r) == u0 * d0 + u1 * d1 + u2 * d2);
    assert(sph_cc(s, r) == u0 * u0 + u1 * u1 + u2 * u2 - rad * rad);
    lemma_double_assoc(sph_hb(s, r), n * m);
    assert((d0 * d0 + d1 * d1 + d2 * d2) * (n * n) + 2 * ((u0 * d0 + u1 * d1 + u2 * d2) * (n * m))
        + (u0 * u0 + u1 * u1 + u2 * u2 - rad * rad) * (m * m) <= 0);
    lemma_sq_expand(t0, u0, m, n, d0);
    lemma_sq_expand(t1, u1, m, n, d1);
    lemma_sq_expand(t2, u2, m, n, d2);
    lemma_distrib3(d0 * d0, d1 * d1, d2 * d2, n * n);
    lemma_distrib3(u0 * d0, u1 * d1, u2 * d2, n * m);
    lemma_distrib3(u0 * u0, u1 * u1, u2 * u2, m * m);
    lemma_distrib_sub(u0 * u0 + u1 * u1 + u2 * u2, rad * rad, m * m);
    lemma_square_swap(m, rad);
    assert(t0 * t0 + t1 * t1 + t2 * t2 <= (m * rad) * (m * rad));
    lemma_square_nonneg(t0);
    lemma_square_nonneg(t1);
    lemma_square_nonneg(t2);
    lemma_mul_nonneg_ab(m, rad);
    lemma_abs_le_of_square(t0, m * rad);
    lemma_abs_le_of_square(t1, m * rad);
    lemma_abs_le_of_square(t2, m * rad);
    lemma_distrib_sub(s.center.x as int, rad, m);
    lemma_distrib_add(s.center.x as int, rad, m);
    lemma_distrib_sub(s.center.y as int, rad, m);
    lemma_distrib_add(s.center.y as int, rad, m);
    lemma_distrib_sub(s.center.z as int, rad, m);
    lemma_distrib_add(s.center.z as int, rad, m);
    lemma_distrib_add(u0, s.center.x as int, m);
    lemma_distrib_add(u1, s.center.y as int, m);
    lemma_distrib_add(u2, s.center.z as int, m);
    lemma_mul_comm_ab(rad, m);
}

/// A sphere that reports a hit within the range is never pruned by the exact
/// slab test on its own bounding box: some rational ray parameter in range
/// keeps the ray inside the box on every axis.
pub proof fn lemma_sphere_hit_implies_slab(s: Sphere, r: Ray, tmin: int, tmax: int)
    requires
        sphere_wf(s),
        sph_a(s, r) >= 1,
        sphere_hit_exists(s, r, tmin, tmax),
    ensures
        crate::aabb::slab_hit(sphere_box(s), r, tmin, tmax),
{
    let a = sph_a(s, r);
    let hb = sph_hb(s, r);
    let cc = sph_cc(s, r);
    let bbq = sph_bb(s, r);
    let xmin = range_num(s, r, tmin);
    let xmax = range_num(s, r, tmax);
    let ss = SCALE as int;
    lemma_square_nonneg(sqrt_floor(bbq));
    assert(bbq >= 0) by {
        lemma_mul_nonneg_ab(262144, sph_disc(s, r));
    }
    lemma_mul_comm_ab(ss, hb);
    lemma_neg_mul(hb, ss);
    assert(xmin == tmin * a + ss * hb);
    assert(xmax == tmax * a + ss * hb);
    assert(bbq == (ss * ss) * (hb * hb - a * cc));
    if near_root_in_range(s, r, tmin, tmax) {
        assert(xmin <= 0);
        lemma_neg_square(xmin);
        lemma_neg_square(xmax);
        if tmax * a <= -hb * ss {
            let witness_q = a * (tmax * tmax) + 2 * hb * (tmax * ss) + cc * (ss * ss);
            assert(xmax <= 0);
            lemma_square_le(xmax, bbq);
            lemma_quad_complete_square(a, hb, cc, tmax, ss);
            assert(a * witness_q <= 0);
            lemma_le_cancel(witness_q, 0, a);
            lemma_inside_ball(s, r, tmax, ss);
            lemma_between_neg(xmin, xmax, bbq);
            lemma_le_cancel(tmin, tmax, a);
            vstd::arithmetic::mul::lemma_mul_inequality(tmin, tmax, ss);
            assert(crate::aabb::slab_witness(sphere_box(s), r, tmin, tmax, tmax, ss));
        } else {
            lemma_center_inside(a, hb, cc);
            lemma_inside_ball(s, r, -hb, a);
            assert(tmin * a <= -hb * ss);
            assert(crate::aabb::slab_witness(sphere_box(s), r, tmin, tmax, -hb, a)) by {
                assert(-hb * ss <= tmax * a);
            }
        }
    } else {
        assert(far_root_in_range(s, r, tmin, tmax));
        assert(xmax >= 0);
        if tmin * a >= -hb * ss {
            let witness_q = a * (tmin * tmin) + 2 * hb * (tmin * ss) + cc * (ss * ss);
            assert(xmin >= 0);
            lemma_square_le_pos(xmin, bbq);
            lemma_quad_complete_square(a, hb, cc, tmin, ss);
            assert(a * witness_q <= 0);
            lemma_le_cancel(witness_q, 0, a);
            lemma_inside_ball(s, r, tmin, ss);
            lemma_between_pos(xmin, xmax, bbq);
            lemma_le_cancel(tmin, tmax, a);
            vstd::arithmetic::mul::lemma_mul_inequality(tmin, tmax, ss);
            assert(crate::aabb::slab_witness(sphere_box(s), r, tmin, tmax, tmin, ss));
        } else {
            lemma_center_inside(a, hb, cc);
            lemma_inside_ball(s, r, -hb, a);
            assert(-hb * ss <= tmax * a);
            assert(crate::aabb::slab_witness(sphere_box(s), r, tmin, tmax, -hb, a)) by {
                assert(tmin * a <= -hb * ss);
            }
        }
    }
}

/// The accepted numerator (the floored root times `a`) lies between
/// `min_dist * a` and `max_dist * a`: the fixed-point floor of an in-range
/// root is itself in range.
proof fn lemma_accepted_num_in_range(
    a: int,
    bb: int,
    sq: int,
    amp: int,
    xmin: int,
    xmax: int,
    num: int,
    tmin: int,
    tmax: int,
    near_ok: bool,
    perfect: bool,
)
    requires
        a >= 1,
        bb >= 0,
        sq >= 0,
        sq * sq <= bb,
        bb < (sq + 1) * (sq + 1),
        perfect == (sq * sq == bb),
        xmin == tmin * a - amp,
        xmax == tmax * a - amp,
        near_ok == (above_sqrt(-xmin, bb) && below_sqrt(-xmax, bb)),
        near_ok || (below_sqrt(xmin, bb) && above_sqrt(xmax, bb)),
        num == if near_ok {
            if perfect {
                amp - sq
            } else {
                amp - sq - 1
            }
        } else {
            amp + sq
        },
    ensures
        tmin * a <= num <= tmax * a,
{
    assert((-xmin) * (-xmin) == xmin * xmin && (-xmax) * (-xmax) == xmax * xmax)
        by (nonlinear_arith);
    if near_ok {
        assert(sq <= -xmin) by (nonlinear_arith)
            requires
                -xmin >= 0,
                bb <= xmin * xmin,
                sq >= 0,
                sq * sq <= bb,
        ;
        if !perfect {
            assert(sq + 1 <= -xmin) by (nonlinear_arith)
                requires
                    -xmin >= 0,
                    bb <= xmin * xmin,
                    sq >= 0,
                    sq * sq < bb,
            ;
        }
        if -xmax <= 0 {
        } else {
            assert(-xmax <= sq) by (nonlinear_arith)
                requires
                    -xmax > 0,
                    xmax * xmax <= bb,
                    sq >= 0,
                    bb < (sq + 1) * (sq + 1),
            ;
        }
    } else {
        if xmin <= 0 {
        } else {
            assert(xmin <= sq) by (nonlinear_arith)
                requires
                    xmin > 0,
                    xmin * xmin <= bb,
                    sq >= 0,
                    bb < (sq + 1) * (sq + 1),
            ;
        }
        assert(sq <= xmax) by (nonlinear_arith)
            requires
                xmax >= 0,
                bb <= xmax * xmax,
                sq >= 0,
                sq * sq <= bb,
        ;
    }
}

} // verus!
