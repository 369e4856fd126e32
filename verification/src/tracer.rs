//! The recursive path-tracing integrator: scene + ray + depth budget to a
//! pixel color, with a verified energy bound — the result never exceeds full
//! intensity on any channel, however many bounces are taken.

use vstd::prelude::*;
use vstd::arithmetic::div_mod::lemma_div_is_ordered;
use vstd::arithmetic::div_mod::lemma_div_multiples_vanish;
use vstd::arithmetic::div_mod::lemma_div_pos_is_pos;
use vstd::arithmetic::mul::lemma_mul_inequality;
use crate::color::Color;
use crate::color::c_in_range;
use crate::color::c_mul;
use crate::color::lemma_attenuate_bound;
use crate::fixed::COORD_MAX;
use crate::fixed::SCALE;
use crate::fixed::floor_div;
use crate::ray::Ray;
use crate::ray::ray_wf;
use crate::scene::Scene;
use crate::scene::hit_from_scene;
use crate::scene::nearest_ok;
use crate::scene::scene_candidate;
use crate::sphere::Sphere;
use crate::sphere::sphere_hit_point;
use crate::sphere::sphere_hit_rec;
use crate::sphere::sphere_hit_time;
use crate::texture::texture_color_at;
use crate::vector3::v_add;
use crate::vector3::v_bounded;
use crate::vector3::v_is_zero;
use crate::vector3::v_scale;
use crate::vector3::v_unit;

verus! {

/// Lower end of the distance interval the integrator queries, in fixed-point
/// units: one unit above zero, so a scattered ray cannot immediately re-hit
/// the surface it left.
pub const QUERY_MIN: i64 = 1;

/// Upper end of the distance interval the integrator queries, in fixed-point
/// units (1000 world units).
pub const QUERY_MAX: i64 = 512000;

/// The vertical white-to-sky gradient an escaping ray's color is drawn from:
/// the blend parameter runs with the unit direction's height.
pub open spec fn sky_gradient(r: Ray) -> (int, int, int) {
    let s = (SCALE + v_unit(r.direction@).1) / 2;
    v_add(
        v_scale((256int, 358int, 512int), s),
        v_scale((SCALE as int, SCALE as int, SCALE as int), (SCALE - s) as int),
    )
}

/// The color is the nearest-hit sphere's texture color at the hit point,
/// attenuated by some in-range color — the recursively traced bounce, or
/// black where the bounce degenerates.
pub open spec fn hit_color_attenuated(spheres: Seq<Sphere>, r: Ray, c: (int, int, int)) -> bool {
    exists|i: int, rc: (int, int, int)|
        {
            &&& scene_candidate(spheres, i, r, QUERY_MIN as int, QUERY_MAX as int)
            &&& nearest_ok(
                spheres,
                r,
                QUERY_MIN as int,
                QUERY_MAX as int,
                Option::Some(sphere_hit_time(spheres[i], r, QUERY_MIN as int, QUERY_MAX as int)),
            )
            &&& c_in_range(rc, SCALE as int)
            &&& c == #[trigger] c_mul(
                texture_color_at(
                    spheres[i].material.texture,
                    sphere_hit_point(spheres[i], r, QUERY_MIN as int, QUERY_MAX as int),
                ),
                rc,
            )
        }
}

/// Returns the color carried by a ray: black once the depth budget is spent,
/// the attenuated color of the recursively scattered ray on a hit, and the
/// vertical white-to-sky gradient on a miss.  Every channel of the result
/// stays within `[0, SCALE]` — light is never amplified.  A ray outside the
/// fixed-point coordinate budget, or with a zero direction, is treated as
/// absorbed and returns black.
pub fn get_ray_color(ray: Ray, scene: &Scene, depth: i32) -> (c: Color)
    requires
        scene.wf(),
    ensures
        c_in_range(c@, SCALE as int),
        depth <= 0 ==> c@ == (0int, 0int, 0int),
        (depth > 0 && ray_wf(ray) && !v_is_zero(ray.direction@) && (forall|i: int|
            !scene_candidate(
                scene.spheres(),
                i,
                ray,
                QUERY_MIN as int,
                QUERY_MAX as int,
            ))) ==> c@ == sky_gradient(ray),
        (depth > 0 && ray_wf(ray) && !v_is_zero(ray.direction@) && (exists|i: int|
            #[trigger] scene_candidate(
                scene.spheres(),
                i,
                ray,
                QUERY_MIN as int,
                QUERY_MAX as int,
            ))) ==> hit_color_attenuated(scene.spheres(), ray, c@),
    decreases depth,
{
    if depth <= 0 {
        return Color::new(0, 0, 0);
    }
    // A ray outside the fixed-point coordinate budget, or with a degenerate
    // direction, is treated as absorbed.
    let dir_ok = -COORD_MAX <= ray.direction.x && ray.direction.x <= COORD_MAX && -COORD_MAX
        <= ray.direction.y && ray.direction.y <= COORD_MAX && -COORD_MAX <= ray.direction.z
        && ray.direction.z <= COORD_MAX;
    let org_ok = -COORD_MAX <= ray.origin.x && ray.origin.x <= COORD_MAX && -COORD_MAX
        <= ray.origin.y && ray.origin.y <= COORD_MAX && -COORD_MAX <= ray.origin.z
        && ray.origin.z <= COORD_MAX;
    if !dir_ok || !org_ok || ray.direction.near_zero() {
        return Color::new(0, 0, 0);
    }
    let min_dist: i64 = QUERY_MIN;
    let max_dist: i64 = QUERY_MAX;
    match scene.get_intersect(ray, min_dist, max_dist) {
        Some(hit) => {
            // The quantized normal can degenerate on extreme geometry; such a
            // bounce is treated as absorbed rather than scattered.
            let normal_ok = -2 * SCALE <= hit.normal.x && hit.normal.x <= 2 * SCALE && -2 * SCALE
                <= hit.normal.y && hit.normal.y <= 2 * SCALE && -2 * SCALE <= hit.normal.z
                && hit.normal.z <= 2 * SCALE;
            if !normal_ok || hit.normal.near_zero() {
                proof {
                    lemma_black_is_attenuated(hit.color@);
                    lemma_hit_attenuated(
                        scene.spheres(),
                        ray,
                        hit,
                        (0int, 0int, 0int),
                        (0int, 0int, 0int),
                    );
                }
                return Color::new(0, 0, 0);
            }
            let scattered = hit.scatter();
            let ray_color = get_ray_color(scattered, scene, depth - 1);
            proof {
                lemma_attenuate_bound(hit.color@, ray_color@, SCALE as int);
            }
            let result = hit.color.attenuate(ray_color);
            proof {
                lemma_hit_attenuated(scene.spheres(), ray, hit, ray_color@, result@);
            }
            result
        },
        None => {
            let unit_dir = ray.direction.unit();
            let s = floor_div(SCALE + unit_dir.y, 2);
            proof {
                lemma_div_pos_is_pos(SCALE + unit_dir.y as int, 2);
                lemma_div_is_ordered(SCALE + unit_dir.y as int, 1024, 2);
            }
            let sky = Color::new(256, 358, 512);
            let white = Color::new(SCALE, SCALE, SCALE);
            let c1 = sky.scale(s);
            let c2 = white.scale(SCALE - s);
            proof {
                lemma_lerp_in_range(256, s as int);
                lemma_lerp_in_range(358, s as int);
                lemma_lerp_in_range(512, s as int);
            }
            c1.add(c2)
        },
    }
}

/// Black is any surface color attenuated to nothing.
proof fn lemma_black_is_attenuated(a: (int, int, int))
    ensures
        c_mul(a, (0int, 0int, 0int)) == (0int, 0int, 0int),
{
    assert(a.0 * 0 == 0 && a.1 * 0 == 0 && a.2 * 0 == 0);
    assert(0int / (SCALE as int) == 0) by {
        vstd::arithmetic::div_mod::lemma_div_of0(SCALE as int);
    }
}

/// Exhibits the attenuation witness: a color equal to the returned hit's own
/// surface color attenuated by an in-range color satisfies the integrator's
/// hit clause.
proof fn lemma_hit_attenuated(
    spheres: Seq<Sphere>,
    r: Ray,
    h: crate::hit::Hit,
    rc: (int, int, int),
    c: (int, int, int),
)
    requires
        hit_from_scene(spheres, r, QUERY_MIN as int, QUERY_MAX as int, h),
        nearest_ok(spheres, r, QUERY_MIN as int, QUERY_MAX as int, Option::Some(h.distance as int)),
        c_in_range(rc, SCALE as int),
        c == c_mul(h.color@, rc),
    ensures
        hit_color_attenuated(spheres, r, c),
{
    let i = choose|i: int|
        #[trigger] scene_candidate(spheres, i, r, QUERY_MIN as int, QUERY_MAX as int)
            && sphere_hit_rec(spheres[i], r, QUERY_MIN as int, QUERY_MAX as int, h);
    assert(sphere_hit_time(spheres[i], r, QUERY_MIN as int, QUERY_MAX as int)
        == h.distance as int);
    assert(c == c_mul(
        texture_color_at(
            spheres[i].material.texture,
            sphere_hit_point(spheres[i], r, QUERY_MIN as int, QUERY_MAX as int),
        ),
        rc,
    ));
}

/// One channel of the gradient stays within range: the two floor-scaled
/// halves of the blend sum to at most full intensity.
proof fn lemma_lerp_in_range(a: int, s: int)
    requires
        0 <= a <= SCALE,
        0 <= s <= SCALE,
    ensures
        0 <= (a * s) / (SCALE as int),
        0 <= (SCALE * (SCALE - s)) as int / (SCALE as int),
        (a * s) / (SCALE as int) + (SCALE * (SCALE - s)) as int / (SCALE as int) <= SCALE,
{
    let sc = SCALE as int;
    lemma_mul_inequality(a, sc, s);
    assert(a * s >= 0 && a * s == s * a && sc * s == s * sc && sc * (sc - s) >= 0)
        by (nonlinear_arith)
        requires
            0 <= a,
            0 <= s <= sc,
    ;
    lemma_div_pos_is_pos(a * s, sc);
    lemma_div_pos_is_pos(sc * (sc - s), sc);
    vstd::arithmetic::mul::lemma_mul_is_distributive_sub(sc, sc, s);
    lemma_div_superadd(a * s, sc * sc - sc * s, sc);
    lemma_div_is_ordered(a * s + (sc * sc - sc * s), sc * sc, sc);
    lemma_div_multiples_vanish(sc, sc);
}

/// Floor division is superadditive: the sum of two quotients never exceeds
/// the quotient of the sum.
proof fn lemma_div_superadd(a: int, b: int, d: int)
    requires
        d > 0,
    ensures
        a / d + b / d <= (a + b) / d,
{
    vstd::arithmetic::div_mod::lemma_fundamental_div_mod(a, d);
    vstd::arithmetic::div_mod::lemma_fundamental_div_mod(b, d);
    let qa = a / d;
    let qb = b / d;
    let ra = a % d;
    let rb = b % d;
    vstd::arithmetic::mul::lemma_mul_is_distributive_add(d, qa, qb);
    if ra + rb < d {
        vstd::arithmetic::div_mod::lemma_fundamental_div_mod_converse(
            a + b,
            d,
            qa + qb,
            ra + rb,
        );
        assert((qa + qb) * d == d * (qa + qb)) by (nonlinear_arith);
    } else {
        vstd::arithmetic::mul::lemma_mul_is_distributive_add(d, qa + qb, 1);
        vstd::arithmetic::div_mod::lemma_fundamental_div_mod_converse(
            a + b,
            d,
            qa + qb + 1,
            ra + rb - d,
        );
        assert((qa + qb + 1) * d == d * (qa + qb + 1)) by (nonlinear_arith);
    }
}

} // verus!
