//! Fixed-point base: the global scale, floor division, and integer square
//! roots, which the geometry modules build on.

use vstd::prelude::*;
use vstd::arithmetic::div_mod::lemma_fundamental_div_mod;
use vstd::arithmetic::div_mod::lemma_fundamental_div_mod_converse;

verus! {

/// Number of fixed-point units per world unit: every coordinate, distance and
/// color channel in this crate is an integer count of `1/SCALE` world units.
pub const SCALE: i64 = 512;

/// Bound on the magnitude of sphere centers, radii, box corners and ray
/// components, in fixed-point units (2048 world units).  It keeps every
/// intermediate product of the intersection math inside `i128`.
pub const COORD_MAX: i64 = 1048576;

/// Bound on the magnitude of ray-distance parameters, in fixed-point units
/// (1024 world units).
pub const T_MAX: i64 = 524288;

/// Quotient of `a / b` rounded toward negative infinity, which for a positive
/// divisor agrees with mathematical (Euclidean) integer division.
pub fn floor_div(a: i64, b: i64) -> (q: i64)
    requires
        b > 0,
        a > i64::MIN,
    ensures
        q == a as int / b as int,
{
    if a >= 0 {
        let q0: u64 = (a as u64) / (b as u64);
        proof {
            lemma_fundamental_div_mod(a as int, b as int);
        }
        q0 as i64
    } else {
        let m: u64 = (-a) as u64;
        let q0: u64 = m / (b as u64);
        let r0: u64 = m % (b as u64);
        proof {
            lemma_fundamental_div_mod(m as int, b as int);
        }
        if r0 == 0 {
            proof {
                assert(a as int == -(q0 as int) * (b as int) + 0) by (nonlinear_arith)
                    requires
                        m as int == (b as int) * (q0 as int) + r0 as int,
                        r0 == 0,
                        a as int == -(m as int),
                ;
                lemma_fundamental_div_mod_converse(a as int, b as int, -(q0 as int), 0);
            }
            -(q0 as i64)
        } else {
            proof {
                assert(a as int == (-(q0 as int) - 1) * (b as int) + (b as int - r0 as int))
                    by (nonlinear_arith)
                    requires
                        m as int == (b as int) * (q0 as int) + r0 as int,
                        a as int == -(m as int),
                ;
                lemma_fundamental_div_mod_converse(
                    a as int,
                    b as int,
                    -(q0 as int) - 1,
                    b - r0,
                );
            }
            -(q0 as i64) - 1
        }
    }
}

/// Largest `r` with `r * r <= n`, found by binary search.
pub fn isqrt_u128(n: u128) -> (r: u64)
    ensures
        r * r <= n,
        n < (r + 1) * (r + 1),
{
    let mut lo: u128 = 0;
    let mut hi: u128 = 0x1_0000_0000_0000_0000;
    proof {
        assert(n < (hi as int) * (hi as int)) by (nonlinear_arith)
            requires
                hi == 0x1_0000_0000_0000_0000,
                n <= u128::MAX,
        ;
    }
    while lo + 1 < hi
        invariant
            lo < hi,
            hi <= 0x1_0000_0000_0000_0000,
            lo * lo <= n,
            n < (hi as int) * (hi as int),
        decreases hi - lo,
    {
        let mid: u128 = lo + (hi - lo) / 2;
        proof {
            assert(mid * mid < u128::MAX) by (nonlinear_arith)
                requires
                    mid < 0x1_0000_0000_0000_0000,
            ;
        }
        if mid * mid <= n {
            lo = mid;
        } else {
            hi = mid;
        }
    }
    proof {
        assert(n < ((lo + 1) as int) * ((lo + 1) as int)) by (nonlinear_arith)
            requires
                lo + 1 >= hi,
                lo < hi,
                n < (hi as int) * (hi as int),
        ;
    }
    lo as u64
}

/// Floor of the real square root, as a specification-level function.
pub open spec fn sqrt_floor(n: int) -> int
    decreases n,
{
    if n <= 0 {
        0
    } else {
        let p = sqrt_floor(n - 1);
        if (p + 1) * (p + 1) <= n {
            p + 1
        } else {
            p
        }
    }
}

/// `sqrt_floor(n)` is the unique nonnegative `s` with `s * s <= n < (s+1) * (s+1)`.
pub proof fn lemma_sqrt_floor_bracket(n: int)
    requires
        n >= 0,
    ensures
        sqrt_floor(n) >= 0,
        sqrt_floor(n) * sqrt_floor(n) <= n,
        n < (sqrt_floor(n) + 1) * (sqrt_floor(n) + 1),
    decreases n,
{
    if n == 0 {
    } else {
        lemma_sqrt_floor_bracket(n - 1);
        let p = sqrt_floor(n - 1);
        if (p + 1) * (p + 1) <= n {
            assert((p + 1 + 1) * (p + 1 + 1) > n) by (nonlinear_arith)
                requires
                    p >= 0,
                    n - 1 < (p + 1) * (p + 1),
                    (p + 1) * (p + 1) <= n,
            ;
        }
    }
}

/// Any `s` that brackets `n` the way a floor square root does is `sqrt_floor(n)`.
pub proof fn lemma_sqrt_floor_unique(n: int, s: int)
    requires
        0 <= s,
        s * s <= n,
        n < (s + 1) * (s + 1),
    ensures
        sqrt_floor(n) == s,
{
    lemma_sqrt_floor_bracket(n);
    let f = sqrt_floor(n);
    assert(f == s) by (nonlinear_arith)
        requires
            0 <= s,
            0 <= f,
            s * s <= n,
            f * f <= n,
            n < (s + 1) * (s + 1),
            n < (f + 1) * (f + 1),
    ;
}

/// A Euclidean quotient by a positive divisor never exceeds the dividend's
/// magnitude (plus one on the negative side).
pub proof fn lemma_div_magnitude(x: int, d: int)
    requires
        d >= 1,
    ensures
        x / d <= vstd::math::abs(x),
        -vstd::math::abs(x) - 1 <= x / d,
{
    if x >= 0 {
        vstd::arithmetic::div_mod::lemma_div_nonincreasing(x, d);
        vstd::arithmetic::div_mod::lemma_div_pos_is_pos(x, d);
    } else {
        lemma_fundamental_div_mod(x, d);
        assert(-vstd::math::abs(x) - 1 <= x / d <= vstd::math::abs(x)) by (nonlinear_arith)
            requires
                x == d * (x / d) + x % d,
                0 <= x % d < d,
                d >= 1,
                x < 0,
        ;
    }
}

} // verus!
