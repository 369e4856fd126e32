//! The record of a ray/surface intersection, and the scatter sampling that
//! turns a hit into the next ray of the path.

use vstd::prelude::*;
use crate::color::Color;
use crate::fixed::COORD_MAX;
use crate::fixed::SCALE;
use crate::fixed::T_MAX;
use crate::fixed::floor_div;
use crate::ray::Ray;
use crate::ray::ray_at;
use crate::ray::ray_wf;
use crate::rng::rand_in_range;
use crate::vector3::Vector3;
use crate::vector3::rand_vector3;
use crate::vector3::v_add;
use crate::vector3::v_bounded;
use crate::vector3::v_dot;
use crate::vector3::v_is_zero;
use crate::vector3::v_mag2;
use crate::vector3::v_neg;
use crate::vector3::v_reflect;
use crate::vector3::v_refract;
use crate::vector3::v_scale;
use crate::vector3::v_unit;

verus! {

/// Total internal reflection: for the unit incoming direction `ud`, surface
/// normal `n` and refraction ratio, the scaled Snell condition
/// `ratio * sin_theta > 1` holds, so no refracted direction exists and the
/// dielectric must reflect.  (`cos` is clamped at full scale as the scatter
/// computation clamps it.)
pub open spec fn tir_cond(ud: (int, int, int), n: (int, int, int), ratio: int) -> bool {
    let cos = if v_dot(v_neg(ud), n) <= SCALE {
        v_dot(v_neg(ud), n)
    } else {
        SCALE as int
    };
    ratio * ratio * (SCALE * SCALE - cos * cos) > SCALE * SCALE * SCALE * SCALE
}

/// Represents the intersection between a Ray and a surface.
#[derive(Clone, Copy, Debug)]
pub struct Hit {
    /// The Ray that intersects the surface.
    pub ray: Ray,
    /// The distance along the Ray where the intersection is located, in
    /// fixed-point units.
    pub distance: i64,
    /// The normal of the surface, oriented against the incoming ray.
    pub normal: Vector3,
    /// True if the Ray intersects the front of the surface.
    pub is_front: bool,
    /// The color of the surface at the intersection.
    pub color: Color,
    /// The reflectivity of the surface at the intersection.
    pub reflectivity: Option<i64>,
    /// The refraction index of the surface at the intersection.
    pub refraction_index: Option<i64>,
}

impl Hit {
    /// Returns a Hit with the given fields.  The constructor takes the
    /// arguments on faith: a Hit can be built even for a ray that intersects
    /// nothing.
    pub fn new(
        ray: Ray,
        distance: i64,
        normal: Vector3,
        is_front: bool,
        color: Color,
        reflectivity: Option<i64>,
        refraction_index: Option<i64>,
    ) -> (h: Self)
        ensures
            h.ray == ray,
            h.distance == distance,
            h.normal == normal,
            h.is_front == is_front,
            h.color == color,
            h.reflectivity == reflectivity,
            h.refraction_index == refraction_index,
    {
        Self { ray, distance, normal, is_front, color, reflectivity, refraction_index }
    }

    /// Returns a Ray scattered from the hit point.  The refraction index, if
    /// present, selects dielectric behavior (reflect or refract, chosen by
    /// total internal reflection and a Schlick-weighted coin flip); otherwise
    /// the reflectivity, if present, selects fuzzed metal reflection;
    /// otherwise the surface scatters diffusely off the unit normal.
    pub fn scatter(&self) -> (r: Ray)
        requires
            ray_wf(self.ray),
            !v_is_zero(self.ray.direction@),
            0 <= self.distance <= T_MAX,
            v_bounded(self.normal@, 2 * SCALE as int),
            !v_is_zero(self.normal@),
            match self.reflectivity {
                Some(f) => 0 <= f <= SCALE,
                None => true,
            },
            match self.refraction_index {
                Some(i) => SCALE < i <= 4 * SCALE,
                None => true,
            },
        ensures
            r.origin@ == ray_at(self.ray, self.distance as int),
            v_bounded(r.direction@, 262144),
            match self.refraction_index {
                Some(ri) => {
                    let ud = v_unit(self.ray.direction@);
                    let ratio: int = if self.is_front {
                        (SCALE * SCALE) as int / (ri as int)
                    } else {
                        ri as int
                    };
                    &&& (r.direction@ == v_reflect(ud, self.normal@) || r.direction@
                        == v_refract(ud, self.normal@, ratio))
                    &&& (tir_cond(ud, self.normal@, ratio) ==> r.direction@ == v_reflect(
                        ud,
                        self.normal@,
                    ))
                },
                None => match self.reflectivity {
                    Some(f) => exists|rv: (int, int, int)|
                        v_bounded(rv, SCALE as int) && v_mag2(rv) < SCALE * SCALE && r.direction@
                            == v_add(
                            v_reflect(v_unit(self.ray.direction@), self.normal@),
                            #[trigger] v_scale(rv, f as int),
                        ),
                    None => exists|rv: (int, int, int)|
                        {
                            let sum = v_add(v_unit(self.normal@), v_unit(rv));
                            &&& v_bounded(rv, SCALE as int)
                            &&& !v_is_zero(rv)
                            &&& #[trigger] v_mag2(rv) < SCALE * SCALE
                            &&& r.direction@ == if v_is_zero(sum) {
                                self.normal@
                            } else {
                                sum
                            }
                        },
                },
            },
    {
        let rv = rand_vector3();
        let mut direction = self.normal.unit().add(rv.unit());
        if direction.near_zero() {
            direction = self.normal;
        }
        proof {
            let sum = v_add(v_unit(self.normal@), v_unit(rv@));
            assert(v_mag2(rv@) < SCALE * SCALE);
            assert(direction@ == if v_is_zero(sum) {
                self.normal@
            } else {
                sum
            });
        }
        match self.reflectivity {
            Some(reflectivity) => {
                let unit_direction = self.ray.direction.unit();
                let refl = unit_direction.reflect(self.normal);
                let fuzz_rv = rand_vector3();
                proof {
                    crate::vector3::lemma_v_scale_bounded(
                        fuzz_rv@,
                        reflectivity as int,
                        512,
                        512,
                    );
                }
                direction = refl.add(fuzz_rv.scale(reflectivity));
                proof {
                    assert(v_bounded(fuzz_rv@, SCALE as int) && v_mag2(fuzz_rv@) < SCALE * SCALE
                        && direction@ == v_add(
                        v_reflect(v_unit(self.ray.direction@), self.normal@),
                        v_scale(fuzz_rv@, reflectivity as int),
                    ));
                }
            },
            None => {},
        }
        match self.refraction_index {
            Some(ri) => {
                let refraction_ratio: i64 = if self.is_front {
                    proof {
                        vstd::arithmetic::div_mod::lemma_div_pos_is_pos(262144, ri as int);
                        vstd::arithmetic::div_mod::lemma_div_is_ordered_by_denominator(
                            262144,
                            513,
                            ri as int,
                        );
                        vstd::arithmetic::div_mod::lemma_div_is_ordered_by_denominator(
                            262144,
                            ri as int,
                            2048,
                        );
                    }
                    floor_div(SCALE * SCALE, ri)
                } else {
                    ri
                };
                let unit_direction = self.ray.direction.unit();
                let cos_full = unit_direction.neg().dot(self.normal);
                proof {
                    crate::vector3::lemma_mul_bound_abs(
                        -(unit_direction.x as int),
                        512,
                        self.normal.x as int,
                        1024,
                    );
                    crate::vector3::lemma_mul_bound_abs(
                        -(unit_direction.y as int),
                        512,
                        self.normal.y as int,
                        1024,
                    );
                    crate::vector3::lemma_mul_bound_abs(
                        -(unit_direction.z as int),
                        512,
                        self.normal.z as int,
                        1024,
                    );
                    vstd::arithmetic::div_mod::lemma_div_is_ordered(
                        -1572864,
                        crate::vector3::v_dot_raw(
                            crate::vector3::v_neg(unit_direction@),
                            self.normal@,
                        ),
                        512,
                    );
                    vstd::arithmetic::div_mod::lemma_div_is_ordered(
                        crate::vector3::v_dot_raw(
                            crate::vector3::v_neg(unit_direction@),
                            self.normal@,
                        ),
                        1572864,
                        512,
                    );
                }
                let cos: i64 = if cos_full > SCALE {
                    SCALE
                } else {
                    cos_full
                };
                proof {
                    crate::vector3::lemma_mul_bound_abs(cos as int, 3072, cos as int, 3072);
                    crate::vector3::lemma_mul_bound_abs(
                        refraction_ratio as int,
                        2048,
                        refraction_ratio as int,
                        2048,
                    );
                    crate::vector3::lemma_mul_bound_abs(
                        refraction_ratio as int * refraction_ratio as int,
                        4194304,
                        SCALE as int * SCALE - cos as int * cos as int,
                        9699329,
                    );
                }
                let tir: bool = (refraction_ratio as i128) * (refraction_ratio as i128) * ((
                SCALE * SCALE - cos * cos) as i128) > 68719476736i128;
                proof {
                    assert(SCALE * SCALE * SCALE * SCALE == 68719476736);
                    assert(tir == tir_cond(
                        v_unit(self.ray.direction@),
                        self.normal@,
                        refraction_ratio as int,
                    ));
                }
                if tir || reflectance(cos, refraction_ratio) > rand_in_range(0, SCALE) {
                    direction = unit_direction.reflect(self.normal);
                } else {
                    direction = unit_direction.refract(self.normal, refraction_ratio);
                }
            },
            None => {},
        }
        Ray::new(self.ray.get_point(self.distance), direction)
    }
}

/// The Schlick reflectance approximation in fixed-point units, exactly as
/// the dielectric branch computes it: the base reflectance
/// `((1 - n) / (1 + n))^2` plus its complement times `(1 - cos)^5`, every
/// product floor-scaled, the squares clamped to their real-valued ranges.
pub open spec fn reflectance_spec(cosine: int, ref_idx: int) -> int {
    let s = SCALE as int;
    let r0 = ((s - ref_idx) * s) / (s + ref_idx);
    let r0sq_raw = (r0 * r0) / s;
    let r0sq: int = if r0sq_raw < 0 {
        0
    } else if r0sq_raw > s {
        s
    } else {
        r0sq_raw
    };
    let q = s - cosine;
    let p2_raw = (q * q) / s;
    let p2: int = if p2_raw < 0 {
        0
    } else if p2_raw > 40 * s {
        40 * s
    } else {
        p2_raw
    };
    let p4 = (p2 * p2) / s;
    let p5_raw = (p4 * q) / s;
    let p5: int = if p5_raw < 0 {
        0
    } else if p5_raw > 40 * s {
        40 * s
    } else {
        p5_raw
    };
    r0sq + ((s - r0sq) * p5) / s
}

/// Returns the Schlick reflectance approximation in fixed-point units: the
/// probability weight with which a dielectric reflects instead of refracting.
/// Intermediate powers are clamped to their real-valued ranges, which keeps
/// the fixed-point arithmetic small without changing any in-range value.
fn reflectance(cosine: i64, ref_idx: i64) -> (r: i64)
    requires
        0 < ref_idx <= 4 * SCALE,
        -8 * SCALE <= cosine <= SCALE,
    ensures
        r == reflectance_spec(cosine as int, ref_idx as int),
{
    proof {
        crate::vector3::lemma_mul_bound_abs(SCALE as int - ref_idx, 2048, SCALE as int, 512);
        crate::fixed::lemma_div_magnitude((SCALE - ref_idx) * SCALE, SCALE + ref_idx);
    }
    let r0 = floor_div((SCALE - ref_idx) * SCALE, SCALE + ref_idx);
    proof {
        crate::vector3::lemma_mul_bound_abs(r0 as int, 1048577, r0 as int, 1048577);
        crate::fixed::lemma_div_magnitude(r0 as int * r0 as int, SCALE as int);
    }
    let r0sq_raw = floor_div(r0 * r0, SCALE);
    let r0sq: i64 = if r0sq_raw < 0 {
        0
    } else if r0sq_raw > SCALE {
        SCALE
    } else {
        r0sq_raw
    };
    let q = SCALE - cosine;
    proof {
        crate::vector3::lemma_mul_bound_abs(q as int, 4608, q as int, 4608);
        crate::fixed::lemma_div_magnitude(q as int * q as int, SCALE as int);
    }
    let p2_raw = floor_div(q * q, SCALE);
    let p2: i64 = if p2_raw < 0 {
        0
    } else if p2_raw > 40 * SCALE {
        40 * SCALE
    } else {
        p2_raw
    };
    proof {
        crate::vector3::lemma_mul_bound_abs(p2 as int, 20480, p2 as int, 20480);
        crate::fixed::lemma_div_magnitude(p2 as int * p2 as int, SCALE as int);
    }
    let p4 = floor_div(p2 * p2, SCALE);
    proof {
        crate::vector3::lemma_mul_bound_abs(p4 as int, 419430401, q as int, 4608);
        crate::fixed::lemma_div_magnitude(p4 as int * q as int, SCALE as int);
    }
    let p5_raw = floor_div(p4 * q, SCALE);
    let p5: i64 = if p5_raw < 0 {
        0
    } else if p5_raw > 40 * SCALE {
        40 * SCALE
    } else {
        p5_raw
    };
    proof {
        crate::vector3::lemma_mul_bound_abs(SCALE as int - r0sq as int, 512, p5 as int, 20480);
        crate::fixed::lemma_div_magnitude((SCALE - r0sq) as int * p5 as int, SCALE as int);
    }
    r0sq + floor_div((SCALE - r0sq) * p5, SCALE)
}

} // verus!
