//! Three-component vectors over fixed-point coordinates, together with the
//! specification-level algebra (over `int` triples) that every contract in the
//! crate is stated in.

use vstd::prelude::*;
use vstd::arithmetic::div_mod::lemma_div_is_ordered;
use vstd::arithmetic::div_mod::lemma_div_multiples_vanish;
use crate::fixed::SCALE;
use crate::fixed::COORD_MAX;
use crate::fixed::floor_div;
use crate::fixed::isqrt_u128;
use crate::fixed::sqrt_floor;
use crate::fixed::lemma_sqrt_floor_unique;
use crate::rng::rand_in_range;

verus! {

/// Bound on vector components accepted by the arithmetic methods; keeps every
/// product of two components inside `i64`.
pub const VEC_MAX: i64 = 1073741824;

/// Represents a 3D vector, each component an integer count of `1/SCALE`.
#[derive(Clone, Copy, Debug)]
pub struct Vector3 {
    /// The vector's x dimension.
    pub x: i64,
    /// The vector's y dimension.
    pub y: i64,
    /// The vector's z dimension.
    pub z: i64,
}

/// Represents a point in 3D space.
pub type Point3 = Vector3;

impl View for Vector3 {
    type V = (int, int, int);

    open spec fn view(&self) -> (int, int, int) {
        (self.x as int, self.y as int, self.z as int)
    }
}

/// All three components have magnitude at most `m`.
pub open spec fn v_bounded(a: (int, int, int), m: int) -> bool {
    &&& -m <= a.0 <= m
    &&& -m <= a.1 <= m
    &&& -m <= a.2 <= m
}

pub open spec fn v_add(a: (int, int, int), b: (int, int, int)) -> (int, int, int) {
    (a.0 + b.0, a.1 + b.1, a.2 + b.2)
}

pub open spec fn v_sub(a: (int, int, int), b: (int, int, int)) -> (int, int, int) {
    (a.0 - b.0, a.1 - b.1, a.2 - b.2)
}

pub open spec fn v_neg(a: (int, int, int)) -> (int, int, int) {
    (-a.0, -a.1, -a.2)
}

/// Multiplication by the fixed-point scalar `k`, each component rounded down.
pub open spec fn v_scale(a: (int, int, int), k: int) -> (int, int, int) {
    ((a.0 * k) / (SCALE as int), (a.1 * k) / (SCALE as int), (a.2 * k) / (SCALE as int))
}

/// Division by the fixed-point scalar `k > 0`, each component rounded down.
pub open spec fn v_div(a: (int, int, int), k: int) -> (int, int, int) {
    ((a.0 * SCALE) / k, (a.1 * SCALE) / k, (a.2 * SCALE) / k)
}

/// Raw inner product: `SCALE * SCALE` times the real inner product.
pub open spec fn v_dot_raw(a: (int, int, int), b: (int, int, int)) -> int {
    a.0 * b.0 + a.1 * b.1 + a.2 * b.2
}

/// Inner product in fixed-point units.
pub open spec fn v_dot(a: (int, int, int), b: (int, int, int)) -> int {
    v_dot_raw(a, b) / (SCALE as int)
}

/// Raw squared magnitude: `SCALE * SCALE` times the real squared magnitude.
pub open spec fn v_mag2(a: (int, int, int)) -> int {
    v_dot_raw(a, a)
}

/// Magnitude in fixed-point units.
pub open spec fn v_mag(a: (int, int, int)) -> int {
    sqrt_floor(v_mag2(a))
}

pub open spec fn v_is_zero(a: (int, int, int)) -> bool {
    a.0 == 0 && a.1 == 0 && a.2 == 0
}

/// The unit vector in fixed-point units (components of a true unit vector
/// scaled by `SCALE`, rounded down).
pub open spec fn v_unit(a: (int, int, int)) -> (int, int, int) {
    v_div(a, v_mag(a))
}

pub open spec fn v_cross(a: (int, int, int), b: (int, int, int)) -> (int, int, int) {
    (
        (a.1 * b.2 - a.2 * b.1) / (SCALE as int),
        (a.2 * b.0 - a.0 * b.2) / (SCALE as int),
        (a.0 * b.1 - a.1 * b.0) / (SCALE as int),
    )
}

/// Reflection of `v` off the unit vector of `n`:  `v - 2 (v . un) un`.
pub open spec fn v_reflect(v: (int, int, int), n: (int, int, int)) -> (int, int, int) {
    let un = v_unit(n);
    v_sub(v, v_scale(un, 2 * v_dot(v, un)))
}

/// Refraction of the unit-length direction `v` through a surface with unit
/// normal `n` at the given refraction ratio, by Snell's law split into the
/// perpendicular and parallel components.
pub open spec fn v_refract(v: (int, int, int), n: (int, int, int), ratio: int) -> (int, int, int) {
    let cos = if v_dot(v_neg(v), n) <= SCALE { v_dot(v_neg(v), n) } else { SCALE as int };
    let perp = v_scale(v_add(v, v_scale(n, cos)), ratio);
    let f = sqrt_floor(vstd::math::abs(SCALE * SCALE - v_mag2(perp)) as int);
    v_add(perp, v_scale(n, -f))
}

/// A product of two magnitude-bounded values is bounded by the product of the
/// bounds.
pub proof fn lemma_mul_bound_abs(x: int, bx: int, y: int, by: int)
    requires
        -bx <= x <= bx,
        -by <= y <= by,
        0 <= bx,
        0 <= by,
    ensures
        -(bx * by) <= x * y <= bx * by,
{
    assert(-(bx * by) <= x * y <= bx * by) by (nonlinear_arith)
        requires
            -bx <= x <= bx,
            -by <= y <= by,
            0 <= bx,
            0 <= by,
    ;
}

/// Scaling a bounded vector by a bounded scalar yields a bounded vector.
pub proof fn lemma_v_scale_bounded(a: (int, int, int), k: int, ba: int, bk: int)
    requires
        v_bounded(a, ba),
        -bk <= k <= bk,
        0 <= ba,
        0 <= bk,
    ensures
        v_bounded(v_scale(a, k), (ba * bk) / (SCALE as int) + 1),
{
    let s = SCALE as int;
    let n = ba * bk;
    lemma_mul_bound_abs(a.0, ba, k, bk);
    lemma_mul_bound_abs(a.1, ba, k, bk);
    lemma_mul_bound_abs(a.2, ba, k, bk);
    vstd::arithmetic::div_mod::lemma_fundamental_div_mod(n, s);
    assert(-(n + s) <= s * (-(n / s) - 1) <= -n) by (nonlinear_arith)
        requires
            n == s * (n / s) + n % s,
            0 <= n % s < s,
            s > 0,
    ;
    lemma_div_multiples_vanish(-(n / s) - 1, s);
    lemma_div_is_ordered(s * (-(n / s) - 1), a.0 * k, s);
    lemma_div_is_ordered(s * (-(n / s) - 1), a.1 * k, s);
    lemma_div_is_ordered(s * (-(n / s) - 1), a.2 * k, s);
    lemma_div_is_ordered(a.0 * k, n, s);
    lemma_div_is_ordered(a.1 * k, n, s);
    lemma_div_is_ordered(a.2 * k, n, s);
}

/// Dividing a scaled value by a bound on its magnitude stays within the scale.
pub proof fn lemma_div_scaled_bound(x: int, m: int, s: int)
    requires
        -m <= x <= m,
        0 < m,
        0 < s,
    ensures
        -s <= (x * s) / m <= s,
{
    lemma_mul_bound_abs(x, m, s, s);
    assert(x * s <= m * s) by (nonlinear_arith)
        requires
            x <= m,
            s > 0,
    ;
    assert(-(m * s) <= x * s) by (nonlinear_arith)
        requires
            -m <= x,
            s > 0,
    ;
    lemma_div_is_ordered(x * s, m * s, m);
    lemma_div_is_ordered(-(m * s), x * s, m);
    lemma_div_multiples_vanish(s, m);
    lemma_div_multiples_vanish(-s, m);
    assert(m * s == s * m) by (nonlinear_arith);
    assert(m * -s == -(m * s)) by (nonlinear_arith);
}

impl Vector3 {
    /// Returns a Vector3 with the given components.
    pub fn new(x: i64, y: i64, z: i64) -> (r: Self)
        ensures
            r@ == (x as int, y as int, z as int),
    {
        Self { x, y, z }
    }

    /// Raw inner product of two vectors (in units of `1/SCALE^2`).
    pub fn dot_raw(&self, rhs: Self) -> (r: i64)
        requires
            v_bounded(self@, VEC_MAX as int),
            v_bounded(rhs@, VEC_MAX as int),
        ensures
            r == v_dot_raw(self@, rhs@),
    {
        proof {
            lemma_mul_bound_abs(self.x as int, VEC_MAX as int, rhs.x as int, VEC_MAX as int);
            lemma_mul_bound_abs(self.y as int, VEC_MAX as int, rhs.y as int, VEC_MAX as int);
            lemma_mul_bound_abs(self.z as int, VEC_MAX as int, rhs.z as int, VEC_MAX as int);
        }
        self.x * rhs.x + self.y * rhs.y + self.z * rhs.z
    }

    /// Returns the vector's squared magnitude (in units of `1/SCALE^2`).
    pub fn mag_squared(&self) -> (r: i64)
        requires
            v_bounded(self@, VEC_MAX as int),
        ensures
            r == v_mag2(self@),
            r >= 0,
    {
        proof {
            assert(
                self.x * self.x >= 0 && self.y * self.y >= 0 && self.z * self.z >= 0
            ) by (nonlinear_arith);
        }
        self.dot_raw(*self)
    }

    /// Returns the vector's magnitude (in units of `1/SCALE`).
    pub fn mag(&self) -> (r: i64)
        requires
            v_bounded(self@, VEC_MAX as int),
        ensures
            r == v_mag(self@),
            r >= 0,
            r * r <= v_mag2(self@) < (r + 1) * (r + 1),
    {
        let m2 = self.mag_squared();
        let r = isqrt_u128(m2 as u128);
        proof {
            lemma_sqrt_floor_unique(m2 as int, r as int);
            assert(r < 0x8000_0000_0000_0000u64) by (nonlinear_arith)
                requires
                    (r as int) * (r as int) <= m2 as int,
                    m2 <= i64::MAX,
            ;
        }
        r as i64
    }

    /// Returns the vector's unit vector, scaled by `SCALE`.
    pub fn unit(&self) -> (r: Self)
        requires
            v_bounded(self@, VEC_MAX as int),
            !v_is_zero(self@),
        ensures
            r@ == v_unit(self@),
            v_bounded(r@, SCALE as int),
    {
        proof {
            assert(v_mag2(self@) >= 1) by (nonlinear_arith)
                requires
                    !(self.x == 0 && self.y == 0 && self.z == 0),
            ;
            lemma_sqrt_is_positive(v_mag2(self@));
        }
        let m = self.mag();
        proof {
            lemma_component_below_mag(self@, m as int);
            lemma_div_scaled_bound(self.x as int, m as int, SCALE as int);
            lemma_div_scaled_bound(self.y as int, m as int, SCALE as int);
            lemma_div_scaled_bound(self.z as int, m as int, SCALE as int);
        }
        Self {
            x: floor_div(self.x * SCALE, m),
            y: floor_div(self.y * SCALE, m),
            z: floor_div(self.z * SCALE, m),
        }
    }

    /// Returns the cross product of two vectors.
    pub fn cross(&self, rhs: Self) -> (r: Self)
        requires
            v_bounded(self@, VEC_MAX as int),
            v_bounded(rhs@, VEC_MAX as int),
        ensures
            r@ == v_cross(self@, rhs@),
    {
        proof {
            lemma_mul_bound_abs(self.y as int, VEC_MAX as int, rhs.z as int, VEC_MAX as int);
            lemma_mul_bound_abs(self.z as int, VEC_MAX as int, rhs.y as int, VEC_MAX as int);
            lemma_mul_bound_abs(self.z as int, VEC_MAX as int, rhs.x as int, VEC_MAX as int);
            lemma_mul_bound_abs(self.x as int, VEC_MAX as int, rhs.z as int, VEC_MAX as int);
            lemma_mul_bound_abs(self.x as int, VEC_MAX as int, rhs.y as int, VEC_MAX as int);
            lemma_mul_bound_abs(self.y as int, VEC_MAX as int, rhs.x as int, VEC_MAX as int);
        }
        Self {
            x: floor_div(self.y * rhs.z - self.z * rhs.y, SCALE),
            y: floor_div(self.z * rhs.x - self.x * rhs.z, SCALE),
            z: floor_div(self.x * rhs.y - self.y * rhs.x, SCALE),
        }
    }

    /// Returns the inner product of two vectors (in units of `1/SCALE`).
    pub fn dot(&self, rhs: Self) -> (r: i64)
        requires
            v_bounded(self@, VEC_MAX as int),
            v_bounded(rhs@, VEC_MAX as int),
        ensures
            r == v_dot(self@, rhs@),
    {
        let raw = self.dot_raw(rhs);
        proof {
            lemma_mul_bound_abs(self.x as int, VEC_MAX as int, rhs.x as int, VEC_MAX as int);
            lemma_mul_bound_abs(self.y as int, VEC_MAX as int, rhs.y as int, VEC_MAX as int);
            lemma_mul_bound_abs(self.z as int, VEC_MAX as int, rhs.z as int, VEC_MAX as int);
        }
        floor_div(raw, SCALE)
    }

    /// Returns true if the vector is closer to zero than one fixed-point unit
    /// can express, that is, exactly zero.
    pub fn near_zero(&self) -> (r: bool)
        ensures
            r == v_is_zero(self@),
    {
        self.x == 0 && self.y == 0 && self.z == 0
    }

    /// Componentwise sum.
    pub fn add(&self, rhs: Self) -> (r: Self)
        requires
            v_bounded(self@, VEC_MAX as int),
            v_bounded(rhs@, VEC_MAX as int),
        ensures
            r@ == v_add(self@, rhs@),
    {
        Self { x: self.x + rhs.x, y: self.y + rhs.y, z: self.z + rhs.z }
    }

    /// Componentwise difference.
    pub fn sub(&self, rhs: Self) -> (r: Self)
        requires
            v_bounded(self@, VEC_MAX as int),
            v_bounded(rhs@, VEC_MAX as int),
        ensures
            r@ == v_sub(self@, rhs@),
    {
        Self { x: self.x - rhs.x, y: self.y - rhs.y, z: self.z - rhs.z }
    }

    /// Componentwise negation.
    pub fn neg(&self) -> (r: Self)
        requires
            v_bounded(self@, VEC_MAX as int),
        ensures
            r@ == v_neg(self@),
    {
        Self { x: -self.x, y: -self.y, z: -self.z }
    }

    /// Returns the reflection of a vector off the given normal.
    pub fn reflect(&self, normal: Vector3) -> (r: Vector3)
        requires
            v_bounded(self@, 4 * SCALE as int),
            v_bounded(normal@, COORD_MAX as int),
            !v_is_zero(normal@),
        ensures
            r@ == v_reflect(self@, normal@),
            v_bounded(r@, 16384),
    {
        let un = normal.unit();
        let d = self.dot(un);
        proof {
            lemma_mul_bound_abs(self.x as int, 2048, un.x as int, 512);
            lemma_mul_bound_abs(self.y as int, 2048, un.y as int, 512);
            lemma_mul_bound_abs(self.z as int, 2048, un.z as int, 512);
            lemma_div_is_ordered(-3145728, v_dot_raw(self@, un@), SCALE as int);
            lemma_div_is_ordered(v_dot_raw(self@, un@), 3145728, SCALE as int);
            lemma_mul_bound_abs(un.x as int, 512, 2 * d, 12288);
            lemma_mul_bound_abs(un.y as int, 512, 2 * d, 12288);
            lemma_mul_bound_abs(un.z as int, 512, 2 * d, 12288);
            lemma_div_is_ordered(-6291456, un.x as int * (2 * d), SCALE as int);
            lemma_div_is_ordered(un.x as int * (2 * d), 6291456, SCALE as int);
            lemma_div_is_ordered(-6291456, un.y as int * (2 * d), SCALE as int);
            lemma_div_is_ordered(un.y as int * (2 * d), 6291456, SCALE as int);
            lemma_div_is_ordered(-6291456, un.z as int * (2 * d), SCALE as int);
            lemma_div_is_ordered(un.z as int * (2 * d), 6291456, SCALE as int);
        }
        self.sub(un.scale(2 * d))
    }

    /// Returns the refraction of a unit-length vector through the surface with
    /// the given unit normal and refraction ratio.
    pub fn refract(&self, normal: Vector3, refraction_ratio: i64) -> (r: Vector3)
        requires
            v_bounded(self@, 2 * SCALE as int),
            v_bounded(normal@, 2 * SCALE as int),
            0 < refraction_ratio <= 4 * SCALE,
        ensures
            r@ == v_refract(self@, normal@, refraction_ratio as int),
            v_bounded(r@, 262144),
    {
        let cos_full = self.neg().dot(normal);
        let cos: i64 = if cos_full > SCALE {
            SCALE
        } else {
            cos_full
        };
        proof {
            lemma_mul_bound_abs(-(self.x as int), 1024, normal.x as int, 1024);
            lemma_mul_bound_abs(-(self.y as int), 1024, normal.y as int, 1024);
            lemma_mul_bound_abs(-(self.z as int), 1024, normal.z as int, 1024);
            lemma_div_is_ordered(-3145728, v_dot_raw(v_neg(self@), normal@), SCALE as int);
            lemma_div_is_ordered(v_dot_raw(v_neg(self@), normal@), 3145728, SCALE as int);
            lemma_v_scale_bounded(normal@, cos as int, 1024, 6144);
        }
        let scaled_n = normal.scale(cos);
        let sum = self.add(scaled_n);
        proof {
            lemma_v_scale_bounded(sum@, refraction_ratio as int, 13313, 2048);
        }
        let perp = sum.scale(refraction_ratio);
        proof {
            assert(v_mag2(perp@) <= 8507646027) by (nonlinear_arith)
                requires
                    v_mag2(perp@) == perp.x * perp.x + perp.y * perp.y + perp.z * perp.z,
                    v_bounded(perp@, 53253),
            ;
        }
        let m2 = perp.mag_squared();
        let k: i64 = if SCALE * SCALE - m2 >= 0 {
            SCALE * SCALE - m2
        } else {
            m2 - SCALE * SCALE
        };
        let f = isqrt_u128(k as u128);
        proof {
            lemma_sqrt_floor_unique(k as int, f as int);
            assert(f < 98304u64) by (nonlinear_arith)
                requires
                    f as int * (f as int) <= k as int,
                    k <= 8507646027i64,
            ;
            lemma_v_scale_bounded(normal@, -(f as int), 1024, 98304);
        }
        let par = normal.scale(-(f as i64));
        perp.add(par)
    }

    /// Multiplication by the fixed-point scalar `k`.
    pub fn scale(&self, k: i64) -> (r: Self)
        requires
            v_bounded(self@, VEC_MAX as int),
            -VEC_MAX <= k <= VEC_MAX,
        ensures
            r@ == v_scale(self@, k as int),
    {
        proof {
            lemma_mul_bound_abs(self.x as int, VEC_MAX as int, k as int, VEC_MAX as int);
            lemma_mul_bound_abs(self.y as int, VEC_MAX as int, k as int, VEC_MAX as int);
            lemma_mul_bound_abs(self.z as int, VEC_MAX as int, k as int, VEC_MAX as int);
        }
        Self {
            x: floor_div(self.x * k, SCALE),
            y: floor_div(self.y * k, SCALE),
            z: floor_div(self.z * k, SCALE),
        }
    }
}

/// Returns a random Vector3 strictly inside the unit ball, never zero.
///
/// Samples the cube and rejects points outside the ball, as a bounded number
/// of retries; after that it falls back to a fixed interior point, so the
/// postcondition holds on every outcome of the random source.
pub fn rand_vector3() -> (r: Vector3)
    ensures
        v_mag2(r@) < SCALE * SCALE,
        !v_is_zero(r@),
        v_bounded(r@, SCALE as int),
{
    let mut tries: u8 = 0;
    while tries < 64
        invariant
            tries <= 64,
        decreases 64 - tries as int,
    {
        let v = Vector3 {
            x: rand_in_range(-SCALE, SCALE),
            y: rand_in_range(-SCALE, SCALE),
            z: rand_in_range(-SCALE, SCALE),
        };
        let m2 = v.mag_squared();
        if m2 < SCALE * SCALE && !v.near_zero() {
            return v;
        }
        tries = tries + 1;
    }
    Vector3 { x: 0, y: 0, z: 256 }
}

/// Returns a random Vector3 strictly inside the unit disk; its z field is
/// always zero.
pub fn rand_vector2() -> (r: Vector3)
    ensures
        v_mag2(r@) < SCALE * SCALE,
        r@.2 == 0,
        v_bounded(r@, SCALE as int),
{
    let mut tries: u8 = 0;
    while tries < 64
        invariant
            tries <= 64,
        decreases 64 - tries as int,
    {
        let v = Vector3 {
            x: rand_in_range(-SCALE, SCALE),
            y: rand_in_range(-SCALE, SCALE),
            z: 0,
        };
        let m2 = v.mag_squared();
        if m2 < SCALE * SCALE {
            return v;
        }
        tries = tries + 1;
    }
    Vector3 { x: 0, y: 0, z: 0 }
}

/// The floor square root of a positive number is positive.
pub proof fn lemma_sqrt_is_positive(n: int)
    requires
        n >= 1,
    ensures
        sqrt_floor(n) >= 1,
{
    crate::fixed::lemma_sqrt_floor_bracket(n);
    let s = sqrt_floor(n);
    assert(s >= 1) by (nonlinear_arith)
        requires
            s >= 0,
            n < (s + 1) * (s + 1),
            n >= 1,
    ;
}

/// Each component's magnitude is at most the vector's magnitude.
pub proof fn lemma_component_below_mag(a: (int, int, int), m: int)
    requires
        m == v_mag(a),
        m >= 0,
    ensures
        -m <= a.0 <= m,
        -m <= a.1 <= m,
        -m <= a.2 <= m,
{
    assert(v_mag2(a) >= 0) by (nonlinear_arith)
        requires
            v_mag2(a) == a.0 * a.0 + a.1 * a.1 + a.2 * a.2,
    ;
    crate::fixed::lemma_sqrt_floor_bracket(v_mag2(a));
    assert(-m <= a.0 <= m && -m <= a.1 <= m && -m <= a.2 <= m) by (nonlinear_arith)
        requires
            v_mag2(a) == a.0 * a.0 + a.1 * a.1 + a.2 * a.2,
            v_mag2(a) < (m + 1) * (m + 1),
            m >= 0,
    ;
}

} // verus!
