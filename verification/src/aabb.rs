//! Axis-aligned bounding boxes with an exact slab test.
//!
//! The slab test is stated exactly: it returns true if and only if some
//! rational ray parameter inside the queried distance range puts the ray's
//! point inside the box on every axis.  All comparisons between rational
//! interval endpoints are cross-multiplied integer comparisons, so nothing is
//! rounded and the characterization is an if-and-only-if.

use vstd::prelude::*;
use crate::fixed::COORD_MAX;
use crate::fixed::SCALE;
use crate::fixed::T_MAX;
use crate::ray::Ray;
use crate::ray::ray_wf;
use crate::vector3::Point3;
use crate::vector3::Vector3;
use crate::vector3::lemma_mul_bound_abs;
use crate::vector3::v_bounded;

verus! {

/// Bound on the numerators the slab test carries (two coordinates apart).
pub const NUM_MAX: i64 = 2097152;

/// Bound on the denominators the slab test carries (a direction component or
/// the scale).
pub const DEN_MAX: i64 = 1048576;

/// Represents an axis-aligned bounding box in 3D space.
#[derive(Clone, Copy, Debug)]
pub struct AxisAlignedBoundingBox {
    /// The minimum corner of the bounding box.
    pub min: Point3,
    /// The maximum corner of the bounding box.
    pub max: Point3,
}

/// Acronym for AxisAlignedBoundingBox.
pub type AABB = AxisAlignedBoundingBox;

/// The box ordering invariant, plus the crate's coordinate budget.
pub open spec fn aabb_wf(b: AABB) -> bool {
    &&& v_bounded(b.min@, COORD_MAX as int)
    &&& v_bounded(b.max@, COORD_MAX as int)
    &&& b.min.x <= b.max.x
    &&& b.min.y <= b.max.y
    &&& b.min.z <= b.max.z
}

pub open spec fn min64(a: i64, b: i64) -> i64 {
    if a <= b {
        a
    } else {
        b
    }
}

pub open spec fn max64(a: i64, b: i64) -> i64 {
    if a >= b {
        a
    } else {
        b
    }
}

/// The smallest box containing both arguments: componentwise minimum of the
/// minima and maximum of the maxima.
pub open spec fn box_union(b1: AABB, b2: AABB) -> AABB {
    AABB {
        min: Vector3 {
            x: min64(b1.min.x, b2.min.x),
            y: min64(b1.min.y, b2.min.y),
            z: min64(b1.min.z, b2.min.z),
        },
        max: Vector3 {
            x: max64(b1.max.x, b2.max.x),
            y: max64(b1.max.y, b2.max.y),
            z: max64(b1.max.z, b2.max.z),
        },
    }
}

/// `outer` contains every point of `inner`.
pub open spec fn box_contains_box(outer: AABB, inner: AABB) -> bool {
    &&& outer.min.x <= inner.min.x && inner.max.x <= outer.max.x
    &&& outer.min.y <= inner.min.y && inner.max.y <= outer.max.y
    &&& outer.min.z <= inner.min.z && inner.max.z <= outer.max.z
}

/// `n1 / m1 <= n2 / m2` for positive denominators, cross-multiplied.
pub open spec fn frac_le_spec(n1: int, m1: int, n2: int, m2: int) -> bool {
    n1 * m2 <= n2 * m1
}

/// The rational ray parameter `n / m` keeps `o + (n/m) d` between `lo` and
/// `hi` on one axis (all terms multiplied by `m > 0`).
pub open spec fn axis_ok(lo: int, hi: int, o: int, d: int, n: int, m: int) -> bool {
    lo * m <= o * m + n * d && o * m + n * d <= hi * m
}

/// The rational parameter `n / m` witnesses a slab hit: it lies in the
/// queried range `[tmin, tmax]` (in fixed-point units, so the real parameter
/// range is divided by `SCALE`) and keeps the ray's point inside the box on
/// every axis.
pub open spec fn slab_witness(b: AABB, r: Ray, tmin: int, tmax: int, n: int, m: int) -> bool {
    &&& m > 0
    &&& frac_le_spec(tmin as int, SCALE as int, n, m)
    &&& frac_le_spec(n, m, tmax as int, SCALE as int)
    &&& axis_ok(b.min.x as int, b.max.x as int, r.origin.x as int, r.direction.x as int, n, m)
    &&& axis_ok(b.min.y as int, b.max.y as int, r.origin.y as int, r.direction.y as int, n, m)
    &&& axis_ok(b.min.z as int, b.max.z as int, r.origin.z as int, r.direction.z as int, n, m)
}

/// A ray parameter within the range meets the box.
pub open spec fn slab_hit(b: AABB, r: Ray, tmin: int, tmax: int) -> bool {
    exists|n: int, m: int| slab_witness(b, r, tmin, tmax, n, m)
}

/// Transitivity of the cross-multiplied rational order.
pub proof fn lemma_frac_le_trans(n1: int, m1: int, n2: int, m2: int, n3: int, m3: int)
    requires
        m1 > 0,
        m2 > 0,
        m3 > 0,
        frac_le_spec(n1, m1, n2, m2),
        frac_le_spec(n2, m2, n3, m3),
    ensures
        frac_le_spec(n1, m1, n3, m3),
{
    assert(n1 * m3 <= n3 * m1) by (nonlinear_arith)
        requires
            m1 > 0,
            m2 > 0,
            m3 > 0,
            n1 * m2 <= n2 * m1,
            n2 * m3 <= n3 * m2,
    ;
}

/// Takes the larger of two rationals, keeping its exact representation.
fn frac_max(n1: i64, m1: i64, n2: i64, m2: i64) -> (r: (i64, i64))
    requires
        0 < m1 <= DEN_MAX,
        0 < m2 <= DEN_MAX,
        -NUM_MAX <= n1 <= NUM_MAX,
        -NUM_MAX <= n2 <= NUM_MAX,
    ensures
        (r.0 == n1 && r.1 == m1) || (r.0 == n2 && r.1 == m2),
        frac_le_spec(n1 as int, m1 as int, r.0 as int, r.1 as int),
        frac_le_spec(n2 as int, m2 as int, r.0 as int, r.1 as int),
{
    proof {
        lemma_mul_bound_abs(n1 as int, NUM_MAX as int, m2 as int, DEN_MAX as int);
        lemma_mul_bound_abs(n2 as int, NUM_MAX as int, m1 as int, DEN_MAX as int);
    }
    if n1 * m2 <= n2 * m1 {
        (n2, m2)
    } else {
        (n1, m1)
    }
}

/// Takes the smaller of two rationals, keeping its exact representation.
fn frac_min(n1: i64, m1: i64, n2: i64, m2: i64) -> (r: (i64, i64))
    requires
        0 < m1 <= DEN_MAX,
        0 < m2 <= DEN_MAX,
        -NUM_MAX <= n1 <= NUM_MAX,
        -NUM_MAX <= n2 <= NUM_MAX,
    ensures
        (r.0 == n1 && r.1 == m1) || (r.0 == n2 && r.1 == m2),
        frac_le_spec(r.0 as int, r.1 as int, n1 as int, m1 as int),
        frac_le_spec(r.0 as int, r.1 as int, n2 as int, m2 as int),
{
    proof {
        lemma_mul_bound_abs(n1 as int, NUM_MAX as int, m2 as int, DEN_MAX as int);
        lemma_mul_bound_abs(n2 as int, NUM_MAX as int, m1 as int, DEN_MAX as int);
    }
    if n1 * m2 <= n2 * m1 {
        (n1, m1)
    } else {
        (n2, m2)
    }
}

/// Narrows the running rational bounds `[l, u]` on the ray parameter by one
/// axis's slab.  `None` means no parameter at all satisfies this axis.
#[allow(clippy::too_many_arguments)]
fn update_axis(
    lo: i64,
    hi: i64,
    o: i64,
    d: i64,
    ln: i64,
    lm: i64,
    un: i64,
    um: i64,
) -> (res: Option<(i64, i64, i64, i64)>)
    requires
        -COORD_MAX <= lo <= COORD_MAX,
        -COORD_MAX <= hi <= COORD_MAX,
        -COORD_MAX <= o <= COORD_MAX,
        -COORD_MAX <= d <= COORD_MAX,
        0 < lm <= DEN_MAX,
        0 < um <= DEN_MAX,
        -NUM_MAX <= ln <= NUM_MAX,
        -NUM_MAX <= un <= NUM_MAX,
    ensures
        match res {
            None => forall|n: int, m: int|
                m > 0 ==> !axis_ok(lo as int, hi as int, o as int, d as int, n, m),
            Some(s) => {
                &&& 0 < s.1 <= DEN_MAX
                &&& 0 < s.3 <= DEN_MAX
                &&& -NUM_MAX <= s.0 <= NUM_MAX
                &&& -NUM_MAX <= s.2 <= NUM_MAX
                &&& forall|n: int, m: int|
                    m > 0 ==> ((frac_le_spec(s.0 as int, s.1 as int, n, m) && frac_le_spec(
                        n,
                        m,
                        s.2 as int,
                        s.3 as int,
                    )) <==> (frac_le_spec(ln as int, lm as int, n, m) && frac_le_spec(
                        n,
                        m,
                        un as int,
                        um as int,
                    ) && axis_ok(lo as int, hi as int, o as int, d as int, n, m)))
            },
        },
{
    if d > 0 {
        let low = frac_max(ln, lm, lo - o, d);
        let up = frac_min(un, um, hi - o, d);
        proof {
            assert forall|n: int, m: int| m > 0 implies ((frac_le_spec(
                low.0 as int,
                low.1 as int,
                n,
                m,
            ) && frac_le_spec(n, m, up.0 as int, up.1 as int)) <==> (frac_le_spec(
                ln as int,
                lm as int,
                n,
                m,
            ) && frac_le_spec(n, m, un as int, um as int) && axis_ok(
                lo as int,
                hi as int,
                o as int,
                d as int,
                n,
                m,
            ))) by {
                assert((lo - o) * m == lo * m - o * m && (hi - o) * m == hi * m - o * m)
                    by (nonlinear_arith);
                if frac_le_spec(low.0 as int, low.1 as int, n, m) && frac_le_spec(
                    n,
                    m,
                    up.0 as int,
                    up.1 as int,
                ) {
                    lemma_frac_le_trans(ln as int, lm as int, low.0 as int, low.1 as int, n, m);
                    lemma_frac_le_trans(
                        lo as int - o as int,
                        d as int,
                        low.0 as int,
                        low.1 as int,
                        n,
                        m,
                    );
                    lemma_frac_le_trans(n, m, up.0 as int, up.1 as int, un as int, um as int);
                    lemma_frac_le_trans(
                        n,
                        m,
                        up.0 as int,
                        up.1 as int,
                        hi as int - o as int,
                        d as int,
                    );
                }
            }
        }
        Some((low.0, low.1, up.0, up.1))
    } else if d < 0 {
        let low = frac_max(ln, lm, o - hi, -d);
        let up = frac_min(un, um, o - lo, -d);
        proof {
            assert forall|n: int, m: int| m > 0 implies ((frac_le_spec(
                low.0 as int,
                low.1 as int,
                n,
                m,
            ) && frac_le_spec(n, m, up.0 as int, up.1 as int)) <==> (frac_le_spec(
                ln as int,
                lm as int,
                n,
                m,
            ) && frac_le_spec(n, m, un as int, um as int) && axis_ok(
                lo as int,
                hi as int,
                o as int,
                d as int,
                n,
                m,
            ))) by {
                assert((o - hi) * m == o * m - hi * m && (o - lo) * m == o * m - lo * m && n * (
                -(d as int)) == -(n * d)) by (nonlinear_arith);
                if frac_le_spec(low.0 as int, low.1 as int, n, m) && frac_le_spec(
                    n,
                    m,
                    up.0 as int,
                    up.1 as int,
                ) {
                    lemma_frac_le_trans(ln as int, lm as int, low.0 as int, low.1 as int, n, m);
                    lemma_frac_le_trans(
                        o as int - hi as int,
                        -(d as int),
                        low.0 as int,
                        low.1 as int,
                        n,
                        m,
                    );
                    lemma_frac_le_trans(n, m, up.0 as int, up.1 as int, un as int, um as int);
                    lemma_frac_le_trans(
                        n,
                        m,
                        up.0 as int,
                        up.1 as int,
                        o as int - lo as int,
                        -(d as int),
                    );
                }
            }
        }
        Some((low.0, low.1, up.0, up.1))
    } else {
        if o < lo || o > hi {
            proof {
                assert forall|n: int, m: int| m > 0 implies !axis_ok(
                    lo as int,
                    hi as int,
                    o as int,
                    d as int,
                    n,
                    m,
                ) by {
                    assert((o < lo ==> o * m < lo * m) && (o > hi ==> o * m > hi * m) && n * (
                    d as int) == n * 0 && n * 0 == 0) by (nonlinear_arith)
                        requires
                            m > 0,
                            d == 0,
                    ;
                }
            }
            None
        } else {
            proof {
                assert forall|n: int, m: int| m > 0 implies axis_ok(
                    lo as int,
                    hi as int,
                    o as int,
                    d as int,
                    n,
                    m,
                ) by {
                    assert(lo * m <= o * m && o * m <= hi * m && n * (d as int) == 0)
                        by (nonlinear_arith)
                        requires
                            m > 0,
                            d == 0,
                            lo <= o <= hi,
                    ;
                }
            }
            Some((ln, lm, un, um))
        }
    }
}

impl AABB {
    /// Returns an AABB with the given corners.
    pub fn new(min: Point3, max: Point3) -> (b: Self)
        requires
            min.x <= max.x,
            min.y <= max.y,
            min.z <= max.z,
        ensures
            b.min == min,
            b.max == max,
    {
        Self { min, max }
    }

    /// Returns the AABB itself.
    pub fn get_aabb(&self) -> (b: AABB)
        ensures
            b == *self,
    {
        *self
    }

    /// Exact slab test: true if and only if some ray parameter within
    /// `[min_dist, max_dist]` keeps the ray inside the box on every axis.
    pub fn is_hit(&self, ray: Ray, min_dist: i64, max_dist: i64) -> (r: bool)
        requires
            aabb_wf(*self),
            ray_wf(ray),
            -T_MAX <= min_dist <= T_MAX,
            -T_MAX <= max_dist <= T_MAX,
        ensures
            r == slab_hit(*self, ray, min_dist as int, max_dist as int),
    {
        let sx = update_axis(
            self.min.x,
            self.max.x,
            ray.origin.x,
            ray.direction.x,
            min_dist,
            SCALE,
            max_dist,
            SCALE,
        );
        let (ln1, lm1, un1, um1) = match sx {
            None => {
                return false;
            },
            Some(s) => s,
        };
        let sy = update_axis(
            self.min.y,
            self.max.y,
            ray.origin.y,
            ray.direction.y,
            ln1,
            lm1,
            un1,
            um1,
        );
        let (ln2, lm2, un2, um2) = match sy {
            None => {
                return false;
            },
            Some(s) => s,
        };
        let sz = update_axis(
            self.min.z,
            self.max.z,
            ray.origin.z,
            ray.direction.z,
            ln2,
            lm2,
            un2,
            um2,
        );
        let (ln3, lm3, un3, um3) = match sz {
            None => {
                return false;
            },
            Some(s) => s,
        };
        proof {
            lemma_mul_bound_abs(ln3 as int, NUM_MAX as int, um3 as int, DEN_MAX as int);
            lemma_mul_bound_abs(un3 as int, NUM_MAX as int, lm3 as int, DEN_MAX as int);
        }
        let nonempty = ln3 * um3 <= un3 * lm3;
        proof {
            if nonempty {
                assert(slab_witness(
                    *self,
                    ray,
                    min_dist as int,
                    max_dist as int,
                    ln3 as int,
                    lm3 as int,
                ));
            } else {
                if slab_hit(*self, ray, min_dist as int, max_dist as int) {
                    let (n, m) = choose|n: int, m: int|
                        slab_witness(*self, ray, min_dist as int, max_dist as int, n, m);
                    lemma_frac_le_trans(
                        ln3 as int,
                        lm3 as int,
                        n,
                        m,
                        un3 as int,
                        um3 as int,
                    );
                }
            }
        }
        nonempty
    }
}

/// Returns an AABB that surrounds the two given AABBs.
pub fn surrounding_box(b1: AABB, b2: AABB) -> (b: AABB)
    requires
        aabb_wf(b1),
        aabb_wf(b2),
    ensures
        b == box_union(b1, b2),
        aabb_wf(b),
        box_contains_box(b, b1),
        box_contains_box(b, b2),
{
    let min = Point3 {
        x: if b1.min.x <= b2.min.x { b1.min.x } else { b2.min.x },
        y: if b1.min.y <= b2.min.y { b1.min.y } else { b2.min.y },
        z: if b1.min.z <= b2.min.z { b1.min.z } else { b2.min.z },
    };
    let max = Point3 {
        x: if b1.max.x >= b2.max.x { b1.max.x } else { b2.max.x },
        y: if b1.max.y >= b2.max.y { b1.max.y } else { b2.max.y },
        z: if b1.max.z >= b2.max.z { b1.max.z } else { b2.max.z },
    };
    AABB { min, max }
}

/// The union box contains both of its inputs.
pub proof fn lemma_box_union_contains(b1: AABB, b2: AABB)
    ensures
        box_contains_box(box_union(b1, b2), b1),
        box_contains_box(box_union(b1, b2), b2),
{
}

/// Taking the union box is commutative.
pub proof fn lemma_box_union_commutes(b1: AABB, b2: AABB)
    ensures
        box_union(b1, b2) == box_union(b2, b1),
{
}

/// Box containment is transitive, and a bigger box is met by every ray
/// parameter that meets a smaller one.
pub proof fn lemma_slab_hit_monotone(
    big: AABB,
    small: AABB,
    r: Ray,
    tmin: int,
    tmax: int,
)
    requires
        box_contains_box(big, small),
        slab_hit(small, r, tmin, tmax),
    ensures
        slab_hit(big, r, tmin, tmax),
{
    let (n, m) = choose|n: int, m: int| slab_witness(small, r, tmin, tmax, n, m);
    assert(slab_witness(big, r, tmin, tmax, n, m)) by {
        assert(big.min.x as int * m <= small.min.x as int * m && small.max.x as int * m
            <= big.max.x as int * m && big.min.y as int * m <= small.min.y as int * m
            && small.max.y as int * m <= big.max.y as int * m && big.min.z as int * m
            <= small.min.z as int * m && small.max.z as int * m <= big.max.z as int * m)
            by (nonlinear_arith)
            requires
                m > 0,
                big.min.x <= small.min.x,
                small.max.x <= big.max.x,
                big.min.y <= small.min.y,
                small.max.y <= big.max.y,
                big.min.z <= small.min.z,
                small.max.z <= big.max.z,
        ;
    }
}

} // verus!
