//! End-to-end checks of the fixed-point tracing core, on concrete values.
//! The scale is 512 fixed-point units per world unit throughout.

use ray_tracer::aabb::{surrounding_box, AABB};
use ray_tracer::bvh::{construct_bvh_root, BvhChild};
use ray_tracer::color::Color;
use ray_tracer::fixed::{floor_div, isqrt_u128, SCALE};
use ray_tracer::hit::Hit;
use ray_tracer::material::Material;
use ray_tracer::ray::Ray;
use ray_tracer::scene::Scene;
use ray_tracer::sphere::Sphere;
use ray_tracer::texture::Texture;
use ray_tracer::tracer::get_ray_color;
use ray_tracer::vector3::{rand_vector2, rand_vector3, Vector3};

fn grey_material() -> Material {
    Material::new(Texture::monochrome(Color::new(256, 256, 256)), None, None)
}

fn sphere_at(x: i64, y: i64, z: i64, r: i64) -> Sphere {
    Sphere::new(Vector3::new(x, y, z), r, grey_material())
}

#[test]
fn floor_div_rounds_toward_negative_infinity() {
    assert_eq!(floor_div(7, 2), 3);
    assert_eq!(floor_div(-7, 2), -4);
    assert_eq!(floor_div(-8, 2), -4);
    assert_eq!(floor_div(0, 5), 0);
}

#[test]
fn isqrt_brackets_the_root() {
    assert_eq!(isqrt_u128(0), 0);
    assert_eq!(isqrt_u128(1), 1);
    assert_eq!(isqrt_u128(3), 1);
    assert_eq!(isqrt_u128(4), 2);
    assert_eq!(isqrt_u128(65536), 256);
    assert_eq!(isqrt_u128((1u128 << 52) as u128), 1 << 26);
}

#[test]
fn vector_algebra_basics() {
    let a = Vector3::new(512, 0, 0);
    let b = Vector3::new(0, 512, 0);
    assert_eq!(a.dot(b), 0);
    assert_eq!(a.dot(a), 512); // 1.0 in fixed point
    assert_eq!(a.mag(), 512);
    assert_eq!(a.mag_squared(), 512 * 512);
    let c = a.cross(b);
    assert_eq!((c.x, c.y, c.z), (0, 0, 512)); // x cross y = z
    let u = Vector3::new(1024, 0, 0).unit();
    assert_eq!((u.x, u.y, u.z), (512, 0, 0));
    assert!(Vector3::new(0, 0, 0).near_zero());
    assert!(!Vector3::new(1, 0, 0).near_zero());
}

#[test]
fn reflection_of_a_diagonal_ray() {
    // (1, -1, 0) reflected off the upward normal is (1, 1, 0).
    let v = Vector3::new(512, -512, 0);
    let n = Vector3::new(0, 512, 0);
    let r = v.reflect(n);
    assert_eq!((r.x, r.y, r.z), (512, 512, 0));
}

#[test]
fn aabb_union_contains_both_inputs_and_commutes() {
    let b1 = AABB::new(Vector3::new(-512, 0, 0), Vector3::new(512, 256, 128));
    let b2 = AABB::new(Vector3::new(-1024, 64, -64), Vector3::new(0, 512, 64));
    let u12 = surrounding_box(b1, b2);
    let u21 = surrounding_box(b2, b1);
    assert_eq!((u12.min.x, u12.min.y, u12.min.z), (-1024, 0, -64));
    assert_eq!((u12.max.x, u12.max.y, u12.max.z), (512, 512, 128));
    assert_eq!((u12.min.x, u12.min.y, u12.min.z), (u21.min.x, u21.min.y, u21.min.z));
    assert_eq!((u12.max.x, u12.max.y, u12.max.z), (u21.max.x, u21.max.y, u21.max.z));
    assert!(u12.min.x <= b1.min.x && b1.max.x <= u12.max.x);
    assert!(u12.min.y <= b2.min.y && b2.max.y <= u12.max.y);
}

#[test]
fn slab_test_hits_and_misses() {
    let b = AABB::new(Vector3::new(-256, -256, -1024), Vector3::new(256, 256, -512));
    let toward = Ray::new(Vector3::new(0, 0, 0), Vector3::new(0, 0, -512));
    let away = Ray::new(Vector3::new(0, 0, 0), Vector3::new(0, 0, 512));
    let sideways = Ray::new(Vector3::new(1024, 0, 0), Vector3::new(0, 0, -512));
    assert!(b.is_hit(toward, 1, 512000));
    assert!(!b.is_hit(away, 1, 512000));
    assert!(!b.is_hit(sideways, 1, 512000));
}

#[test]
fn sphere_intersection_matches_analytic_root() {
    // Unit-radius sphere two units ahead: first root at distance 1.0.
    let s = sphere_at(0, 0, -1024, 512);
    let ray = Ray::new(Vector3::new(0, 0, 0), Vector3::new(0, 0, -512));
    let hit = s.get_hit(ray, 1, 512000).expect("must hit");
    assert_eq!(hit.distance, 512);
    assert_eq!((hit.normal.x, hit.normal.y, hit.normal.z), (0, 0, 512));
    assert!(hit.is_front);
    // A ray pointed the other way reports no real root in range.
    let miss = s.get_hit(Ray::new(Vector3::new(0, 0, 0), Vector3::new(0, 0, 512)), 1, 512000);
    assert!(miss.is_none());
    // From inside the sphere the far root is taken and the normal flips.
    let inside = s.get_hit(Ray::new(Vector3::new(0, 0, -1024), Vector3::new(0, 0, -512)), 1, 512000)
        .expect("must hit from inside");
    assert_eq!(inside.distance, 512);
    assert!(!inside.is_front);
}

#[test]
fn normals_always_face_the_ray() {
    let spheres = [
        sphere_at(0, 0, -1024, 512),
        sphere_at(100, -70, -900, 300),
        sphere_at(-256, 128, -2048, 700),
    ];
    let rays = [
        Ray::new(Vector3::new(0, 0, 0), Vector3::new(0, 0, -512)),
        Ray::new(Vector3::new(10, 20, 0), Vector3::new(-30, 11, -512)),
        Ray::new(Vector3::new(0, 0, -1024), Vector3::new(7, -3, -512)),
    ];
    for s in &spheres {
        for r in &rays {
            if let Some(h) = s.get_hit(*r, 1, 512000) {
                let dot = r.direction.x as i128 * h.normal.x as i128
                    + r.direction.y as i128 * h.normal.y as i128
                    + r.direction.z as i128 * h.normal.z as i128;
                assert!(dot <= 0, "normal must face the incoming ray");
            }
        }
    }
}

#[test]
fn example_scenario_two_spheres() {
    // ground at (0, -100.5, -1) radius 100; front at (0, 0, -1) radius 0.5.
    let ground = sphere_at(0, -51456, -512, 51200);
    let front = sphere_at(0, 0, -512, 256);
    let mut scene = Scene::new(ground);
    scene.push(front);
    let ray = Ray::new(Vector3::new(0, 0, 0), Vector3::new(0, 0, -512));
    let hit = scene.get_intersect(ray, 1, 512000).expect("must hit the front sphere");
    assert_eq!(hit.distance, 256); // 0.5 world units
    assert_eq!((hit.normal.x, hit.normal.y, hit.normal.z), (0, 0, 512)); // (0, 0, 1)
    assert!(hit.is_front);
}

#[test]
fn bvh_agrees_with_linear_scan() {
    let mut scene = Scene::new(sphere_at(0, -51456, -512, 51200));
    scene.push(sphere_at(0, 0, -512, 256));
    scene.push(sphere_at(600, 80, -900, 256));
    scene.push(sphere_at(-600, 80, -900, 256));
    scene.push(sphere_at(150, 300, -1500, 400));
    scene.push(sphere_at(-150, -100, -700, 100));
    let mut k: i64 = 1;
    for _ in 0..500 {
        // A simple deterministic sweep of ray directions and origins.
        k = (k * 1103515245 + 12345) % 65536;
        let dx = (k % 1024) - 512;
        let dy = ((k / 7) % 1024) - 512;
        let dz = -512 + (k % 200) - 100;
        let ox = (k % 300) - 150;
        let oy = ((k / 3) % 300) - 150;
        if dx == 0 && dy == 0 && dz == 0 {
            continue;
        }
        let ray = Ray::new(Vector3::new(ox, oy, 0), Vector3::new(dx, dy, dz));
        let a = scene.get_intersect(ray, 1, 512000);
        let b = scene.get_intersect_linear(ray, 1, 512000);
        match (a, b) {
            (None, None) => {}
            (Some(ha), Some(hb)) => assert_eq!(ha.distance, hb.distance),
            _ => panic!("hierarchy and linear scan disagree"),
        }
    }
}

#[test]
fn rebuilding_gives_identical_root_boxes() {
    let build = || {
        let mut scene = Scene::new(sphere_at(0, -51456, -512, 51200));
        scene.push(sphere_at(0, 0, -512, 256));
        scene.push(sphere_at(600, 80, -900, 256));
        scene.push(sphere_at(-600, 80, -900, 256));
        scene.push(sphere_at(150, 300, -1500, 400));
        scene
    };
    // The split axes are chosen at random on every rebuild, yet the root
    // bounding box is always the same.
    let b1 = build().root_box();
    let b2 = build().root_box();
    let b3 = build().root_box();
    for (a, b) in [(b1, b2), (b2, b3)] {
        assert_eq!((a.min.x, a.min.y, a.min.z), (b.min.x, b.min.y, b.min.z));
        assert_eq!((a.max.x, a.max.y, a.max.z), (b.max.x, b.max.y, b.max.z));
    }
}

#[test]
fn color_never_exceeds_full_intensity() {
    let albedo = Texture::monochrome(Color::new(500, 480, 460));
    let diffuse = Material::new(albedo, None, None);
    let mut scene = Scene::new(Sphere::new(Vector3::new(0, -51456, -512), 51200, diffuse));
    scene.push(Sphere::new(Vector3::new(0, 0, -512), 256, grey_material()));
    for dy in [-400i64, -100, 0, 100, 400] {
        for dx in [-400i64, 0, 400] {
            let ray = Ray::new(Vector3::new(0, 50, 0), Vector3::new(dx, dy, -512));
            let c = get_ray_color(ray, &scene, 50);
            assert!(0 <= c.r && c.r <= SCALE);
            assert!(0 <= c.g && c.g <= SCALE);
            assert!(0 <= c.b && c.b <= SCALE);
        }
    }
}

#[test]
fn head_on_dielectric_passes_straight_through() {
    // A refraction ratio of 1/1.5 at normal incidence: no lateral deviation.
    let v = Vector3::new(0, 0, -512);
    let n = Vector3::new(0, 0, 512);
    let refracted = v.refract(n, 341);
    assert_eq!((refracted.x, refracted.y), (0, 0));
    assert!(refracted.z < 0, "the ray keeps going forward");
    // Through the full scatter model the ray stays on the axis whichever way
    // the Schlick coin lands.
    let glass = Material::new(
        Texture::monochrome(Color::new(512, 512, 512)),
        None,
        Some(768),
    );
    let s = Sphere::new(Vector3::new(0, 0, -1024), 512, glass);
    let ray = Ray::new(Vector3::new(0, 0, 0), Vector3::new(0, 0, -512));
    let hit = s.get_hit(ray, 1, 512000).expect("must hit");
    for _ in 0..32 {
        let scattered = hit.scatter();
        assert_eq!((scattered.direction.x, scattered.direction.y), (0, 0));
    }
}

#[test]
fn depth_zero_returns_black() {
    let scene = Scene::new(sphere_at(0, 0, -1024, 512));
    let ray = Ray::new(Vector3::new(0, 0, 0), Vector3::new(0, 0, -512));
    let c = get_ray_color(ray, &scene, 0);
    assert_eq!((c.r, c.g, c.b), (0, 0, 0));
    let c = get_ray_color(ray, &scene, -3);
    assert_eq!((c.r, c.g, c.b), (0, 0, 0));
}

#[test]
fn total_internal_reflection_forces_the_reflect_branch() {
    // A grazing ray inside glass (back face, ratio 2.0): ratio * sin > 1, so
    // every scatter reflects — no Schlick coin is tossed.
    let ray = Ray::new(Vector3::new(0, 0, -512), Vector3::new(512, 0, -51));
    let normal = Vector3::new(0, 0, 512);
    let hit = Hit::new(
        ray,
        100,
        normal,
        false,
        Color::new(512, 512, 512),
        None,
        Some(1024),
    );
    let expected = ray.direction.unit().reflect(normal);
    for _ in 0..16 {
        let scattered = hit.scatter();
        assert_eq!(
            (scattered.direction.x, scattered.direction.y, scattered.direction.z),
            (expected.x, expected.y, expected.z)
        );
    }
}

#[test]
fn two_element_build_orders_by_the_comparator() {
    // The first sphere's box is smaller on every axis, so whichever axis the
    // build draws, it sorts ahead and lands in the left branch.
    let spheres = vec![
        sphere_at(-1000, -1000, -1000, 100),
        sphere_at(1000, 1000, 1000, 100),
    ];
    let idxs = vec![0usize, 1usize];
    for _ in 0..16 {
        let node = construct_bvh_root(&spheres, &idxs, 0, 2);
        assert!(matches!(node.left, BvhChild::Prim(0)));
        assert!(matches!(node.right, BvhChild::Prim(1)));
    }
    // One element: a leaf with both branches on that element.
    let leaf = construct_bvh_root(&spheres, &idxs, 1, 2);
    assert!(matches!(leaf.left, BvhChild::Prim(1)));
    assert!(matches!(leaf.right, BvhChild::Prim(1)));
}

#[test]
fn gamma_correction_takes_square_roots() {
    let mut c = Color::new(128, 512, 0); // 0.25, 1.0, 0.0
    c.gamma_correct();
    assert_eq!((c.r, c.g, c.b), (256, 512, 0)); // 0.5, 1.0, 0.0
}

#[test]
fn attenuation_multiplies_channels() {
    let a = Color::new(256, 512, 128);
    let b = Color::new(256, 256, 512);
    let c = a.attenuate(b);
    assert_eq!((c.r, c.g, c.b), (128, 256, 128));
}

#[test]
fn checkered_texture_alternates_cells() {
    let t = Texture::checkered(Color::new(512, 0, 0), Color::new(0, 512, 0), 512);
    let c0 = t.get_color(Vector3::new(0, 0, 0));
    let c1 = t.get_color(Vector3::new(512, 0, 0));
    let c2 = t.get_color(Vector3::new(512, 512, 0));
    assert_eq!((c0.r, c0.g), (512, 0));
    assert_eq!((c1.r, c1.g), (0, 512));
    assert_eq!((c2.r, c2.g), (512, 0));
}

#[test]
fn random_samples_stay_in_their_domains() {
    for _ in 0..200 {
        let v = rand_vector3();
        let m2 = v.x * v.x + v.y * v.y + v.z * v.z;
        assert!(m2 < SCALE * SCALE);
        assert!(!(v.x == 0 && v.y == 0 && v.z == 0));
        let d = rand_vector2();
        assert_eq!(d.z, 0);
        assert!(d.x * d.x + d.y * d.y < SCALE * SCALE);
    }
}

#[test]
fn background_gradient_blends_white_to_sky() {
    let scene = Scene::new(sphere_at(0, 0, -400000, 256));
    // Straight up: pure sky color; straight down: pure white.
    let up = get_ray_color(Ray::new(Vector3::new(0, 0, 200000), Vector3::new(0, 512, 0)), &scene, 4);
    let down = get_ray_color(
        Ray::new(Vector3::new(0, 0, 200000), Vector3::new(0, -512, 0)),
        &scene,
        4,
    );
    assert_eq!((up.r, up.g, up.b), (256, 358, 512));
    assert_eq!((down.r, down.g, down.b), (512, 512, 512));
}
