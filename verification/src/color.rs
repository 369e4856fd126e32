//! RGB colors over fixed-point channels: `SCALE` is full intensity (1.0).

use vstd::prelude::*;
use vstd::arithmetic::div_mod::lemma_div_is_ordered;
use vstd::arithmetic::div_mod::lemma_div_multiples_vanish;
use vstd::arithmetic::div_mod::lemma_div_pos_is_pos;
use vstd::arithmetic::mul::lemma_mul_inequality;
use crate::fixed::SCALE;
use crate::fixed::isqrt_u128;
use crate::fixed::lemma_sqrt_floor_unique;
use crate::fixed::sqrt_floor;
use crate::vector3::VEC_MAX;
use crate::vector3::lemma_mul_bound_abs;
use crate::vector3::v_add;
use crate::vector3::v_bounded;
use crate::vector3::v_scale;
use crate::vector3::v_sub;

verus! {

/// Represents an RGB color, each channel an integer count of `1/SCALE`.
#[derive(Clone, Copy, Debug)]
pub struct Color {
    /// The color's red value.
    pub r: i64,
    /// The color's green value.
    pub g: i64,
    /// The color's blue value.
    pub b: i64,
}

impl View for Color {
    type V = (int, int, int);

    open spec fn view(&self) -> (int, int, int) {
        (self.r as int, self.g as int, self.b as int)
    }
}

/// Componentwise product of two colors, in fixed-point units: the attenuation
/// a surface applies to incoming light.
pub open spec fn c_mul(a: (int, int, int), b: (int, int, int)) -> (int, int, int) {
    ((a.0 * b.0) / (SCALE as int), (a.1 * b.1) / (SCALE as int), (a.2 * b.2) / (SCALE as int))
}

/// Gamma correction: each channel becomes the fixed-point square root of its
/// fixed-point value.
pub open spec fn c_gamma(a: (int, int, int)) -> (int, int, int) {
    (
        sqrt_floor(a.0 * SCALE),
        sqrt_floor(a.1 * SCALE),
        sqrt_floor(a.2 * SCALE),
    )
}

/// All channels lie in `[0, m]`.
pub open spec fn c_in_range(a: (int, int, int), m: int) -> bool {
    &&& 0 <= a.0 <= m
    &&& 0 <= a.1 <= m
    &&& 0 <= a.2 <= m
}

impl Color {
    /// Returns a Color with the given red, green, and blue values.  Full
    /// intensity is `SCALE`; the constructor does not enforce the range.
    pub fn new(r: i64, g: i64, b: i64) -> (c: Self)
        ensures
            c@ == (r as int, g as int, b as int),
    {
        Self { r, g, b }
    }

    /// Componentwise sum.
    pub fn add(&self, rhs: Self) -> (c: Self)
        requires
            v_bounded(self@, VEC_MAX as int),
            v_bounded(rhs@, VEC_MAX as int),
        ensures
            c@ == v_add(self@, rhs@),
    {
        Self { r: self.r + rhs.r, g: self.g + rhs.g, b: self.b + rhs.b }
    }

    /// Componentwise difference.
    pub fn sub(&self, rhs: Self) -> (c: Self)
        requires
            v_bounded(self@, VEC_MAX as int),
            v_bounded(rhs@, VEC_MAX as int),
        ensures
            c@ == v_sub(self@, rhs@),
    {
        Self { r: self.r - rhs.r, g: self.g - rhs.g, b: self.b - rhs.b }
    }

    /// Multiplication by the fixed-point scalar `k`.
    pub fn scale(&self, k: i64) -> (c: Self)
        requires
            v_bounded(self@, VEC_MAX as int),
            -VEC_MAX <= k <= VEC_MAX,
        ensures
            c@ == v_scale(self@, k as int),
    {
        proof {
            lemma_mul_bound_abs(self.r as int, VEC_MAX as int, k as int, VEC_MAX as int);
            lemma_mul_bound_abs(self.g as int, VEC_MAX as int, k as int, VEC_MAX as int);
            lemma_mul_bound_abs(self.b as int, VEC_MAX as int, k as int, VEC_MAX as int);
        }
        Self {
            r: crate::fixed::floor_div(self.r * k, SCALE),
            g: crate::fixed::floor_div(self.g * k, SCALE),
            b: crate::fixed::floor_div(self.b * k, SCALE),
        }
    }

    /// Componentwise product with another color: per-bounce attenuation.
    pub fn attenuate(&self, rhs: Self) -> (c: Self)
        requires
            v_bounded(self@, VEC_MAX as int),
            v_bounded(rhs@, VEC_MAX as int),
        ensures
            c@ == c_mul(self@, rhs@),
    {
        proof {
            lemma_mul_bound_abs(self.r as int, VEC_MAX as int, rhs.r as int, VEC_MAX as int);
            lemma_mul_bound_abs(self.g as int, VEC_MAX as int, rhs.g as int, VEC_MAX as int);
            lemma_mul_bound_abs(self.b as int, VEC_MAX as int, rhs.b as int, VEC_MAX as int);
        }
        Self {
            r: crate::fixed::floor_div(self.r * rhs.r, SCALE),
            g: crate::fixed::floor_div(self.g * rhs.g, SCALE),
            b: crate::fixed::floor_div(self.b * rhs.b, SCALE),
        }
    }

    /// Gamma corrects the color (square root of each channel).
    pub fn gamma_correct(&mut self)
        requires
            c_in_range(old(self)@, VEC_MAX as int),
        ensures
            final(self)@ == c_gamma(old(self)@),
    {
        let rs: i64 = self.r * SCALE;
        let gs: i64 = self.g * SCALE;
        let bs: i64 = self.b * SCALE;
        let r = isqrt_u128(rs as u128);
        let g = isqrt_u128(gs as u128);
        let b = isqrt_u128(bs as u128);
        proof {
            lemma_sqrt_floor_unique(rs as int, r as int);
            lemma_sqrt_floor_unique(gs as int, g as int);
            lemma_sqrt_floor_unique(bs as int, b as int);
            assert(r < 0x100000000u64 && g < 0x100000000u64 && b < 0x100000000u64)
                by (nonlinear_arith)
                requires
                    r as int * (r as int) <= rs as int,
                    g as int * (g as int) <= gs as int,
                    b as int * (b as int) <= bs as int,
                    rs <= i64::MAX,
                    gs <= i64::MAX,
                    bs <= i64::MAX,
            ;
        }
        *self = Self { r: r as i64, g: g as i64, b: b as i64 };
    }
}

/// Attenuating a color bounded by `m` with a color no brighter than full
/// intensity keeps it bounded by `m`.
pub proof fn lemma_attenuate_bound(a: (int, int, int), b: (int, int, int), m: int)
    requires
        c_in_range(a, m),
        c_in_range(b, SCALE as int),
        0 <= m,
    ensures
        c_in_range(c_mul(a, b), m),
{
    let s = SCALE as int;
    lemma_mul_inequality(b.0, s, a.0);
    lemma_mul_inequality(b.1, s, a.1);
    lemma_mul_inequality(b.2, s, a.2);
    assert(a.0 * b.0 == b.0 * a.0 && a.1 * b.1 == b.1 * a.1 && a.2 * b.2 == b.2 * a.2)
        by (nonlinear_arith);
    assert(a.0 * b.0 >= 0 && a.1 * b.1 >= 0 && a.2 * b.2 >= 0) by (nonlinear_arith)
        requires
            a.0 >= 0 && a.1 >= 0 && a.2 >= 0 && b.0 >= 0 && b.1 >= 0 && b.2 >= 0,
    ;
    lemma_div_pos_is_pos(a.0 * b.0, s);
    lemma_div_pos_is_pos(a.1 * b.1, s);
    lemma_div_pos_is_pos(a.2 * b.2, s);
    lemma_div_is_ordered(a.0 * b.0, s * a.0, s);
    lemma_div_is_ordered(a.1 * b.1, s * a.1, s);
    lemma_div_is_ordered(a.2 * b.2, s * a.2, s);
    lemma_div_multiples_vanish(a.0, s);
    lemma_div_multiples_vanish(a.1, s);
    lemma_div_multiples_vanish(a.2, s);
}

} // verus!
