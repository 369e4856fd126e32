//! The scene: a sphere arena plus a bounding volume hierarchy that is rebuilt
//! on every mutation.  Its one query — nearest hit of a ray within a range —
//! carries the same exact contract whether answered through the hierarchy or
//! by a brute-force linear scan, so the two always agree.

use vstd::prelude::*;
use crate::aabb::AABB;
use crate::bvh::BvhNode;
use crate::bvh::all_spheres_wf;
use crate::bvh::construct_bvh_root;
use crate::bvh::dist_of;
use crate::bvh::hit_from_idxs;
use crate::bvh::hit_props;
use crate::bvh::lemma_rebuild_root_box_unique;
use crate::bvh::node_idxs;
use crate::bvh::node_wf;
use crate::fixed::T_MAX;
use crate::hit::Hit;
use crate::ray::Ray;
use crate::ray::ray_wf;
use crate::sphere::Sphere;
use crate::sphere::sphere_hit_exists;
use crate::sphere::sphere_hit_rec;
use crate::sphere::sphere_hit_time;
use crate::sphere::sphere_wf;
use crate::vector3::v_is_zero;

verus! {

/// Sphere `i` reports a hit strictly before `tmax`.
pub open spec fn scene_candidate(
    spheres: Seq<Sphere>,
    i: int,
    r: Ray,
    tmin: int,
    tmax: int,
) -> bool {
    &&& 0 <= i < spheres.len()
    &&& sphere_hit_exists(spheres[i], r, tmin, tmax)
    &&& sphere_hit_time(spheres[i], r, tmin, tmax) < tmax
}

/// `od` is exactly the least hit distance over the whole scene, or `None`
/// when no sphere hits strictly before `tmax`.
pub open spec fn nearest_ok(
    spheres: Seq<Sphere>,
    r: Ray,
    tmin: int,
    tmax: int,
    od: Option<int>,
) -> bool {
    match od {
        Option::None => forall|i: int| !scene_candidate(spheres, i, r, tmin, tmax),
        Option::Some(d) => {
            &&& exists|i: int|
                scene_candidate(spheres, i, r, tmin, tmax) && sphere_hit_time(
                    spheres[i],
                    r,
                    tmin,
                    tmax,
                ) == d
            &&& forall|i: int|
                scene_candidate(spheres, i, r, tmin, tmax) ==> d <= sphere_hit_time(
                    spheres[i],
                    r,
                    tmin,
                    tmax,
                )
        },
    }
}

/// The hit is the full record — distance, oriented normal, front flag,
/// texture color and material fields — of one sphere of the scene whose
/// accepted root lies strictly before `tmax`.
pub open spec fn hit_from_scene(
    spheres: Seq<Sphere>,
    r: Ray,
    tmin: int,
    tmax: int,
    h: Hit,
) -> bool {
    exists|i: int|
        #[trigger] scene_candidate(spheres, i, r, tmin, tmax) && sphere_hit_rec(
            spheres[i],
            r,
            tmin,
            tmax,
            h,
        )
}

/// The nearest hit distance is unique: any two results that both satisfy the
/// nearest-hit characterization are equal.  This is what ties the
/// hierarchy-accelerated query to the brute-force linear scan.
pub proof fn lemma_nearest_hit_unique(
    spheres: Seq<Sphere>,
    r: Ray,
    tmin: int,
    tmax: int,
    d1: Option<int>,
    d2: Option<int>,
)
    requires
        nearest_ok(spheres, r, tmin, tmax, d1),
        nearest_ok(spheres, r, tmin, tmax, d2),
    ensures
        d1 == d2,
{
    match (d1, d2) {
        (Option::Some(a), Option::Some(b)) => {
            let i = choose|i: int|
                scene_candidate(spheres, i, r, tmin, tmax) && sphere_hit_time(
                    spheres[i],
                    r,
                    tmin,
                    tmax,
                ) == a;
            let j = choose|j: int|
                scene_candidate(spheres, j, r, tmin, tmax) && sphere_hit_time(
                    spheres[j],
                    r,
                    tmin,
                    tmax,
                ) == b;
            assert(a <= sphere_hit_time(spheres[j], r, tmin, tmax));
            assert(b <= sphere_hit_time(spheres[i], r, tmin, tmax));
        },
        (Option::Some(a), Option::None) => {
            let i = choose|i: int|
                scene_candidate(spheres, i, r, tmin, tmax) && sphere_hit_time(
                    spheres[i],
                    r,
                    tmin,
                    tmax,
                ) == a;
            assert(!scene_candidate(spheres, i, r, tmin, tmax));
        },
        (Option::None, Option::Some(b)) => {
            let j = choose|j: int|
                scene_candidate(spheres, j, r, tmin, tmax) && sphere_hit_time(
                    spheres[j],
                    r,
                    tmin,
                    tmax,
                ) == b;
            assert(!scene_candidate(spheres, j, r, tmin, tmax));
        },
        (Option::None, Option::None) => {},
    }
}

/// Represents everything that could be seen in a rendered image.
pub struct Scene {
    /// All spheres within the scene.
    hittables: Vec<Sphere>,
    /// The root node of this scene's bounding volume hierarchy.
    bvh_root: BvhNode,
}

impl Scene {
    /// The scene's spheres, as the contracts speak of them.
    pub closed spec fn spheres(&self) -> Seq<Sphere> {
        self.hittables@
    }

    /// The bounding box of the hierarchy's root.
    pub closed spec fn root_bounding_box(&self) -> AABB {
        self.bvh_root.bounding_box
    }

    /// Returns the root bounding box of the scene's hierarchy.
    pub fn root_box(&self) -> (b: AABB)
        ensures
            b == self.root_bounding_box(),
    {
        self.bvh_root.get_aabb()
    }

    /// The scene invariant: well-formed spheres, a structurally sound
    /// hierarchy, and a hierarchy that covers exactly the sphere arena.
    pub closed spec fn wf(&self) -> bool {
        &&& all_spheres_wf(self.hittables@)
        &&& node_wf(self.bvh_root, self.hittables@)
        &&& self.hittables@.len() >= 1
        &&& forall|v: usize|
            #[trigger] node_idxs(self.bvh_root).contains(v) <==> (v as int)
                < self.hittables@.len()
    }

    /// Returns a Scene holding the given sphere.
    pub fn new(initial_hittable: Sphere) -> (s: Self)
        requires
            sphere_wf(initial_hittable),
        ensures
            s.wf(),
            s.spheres() == seq![initial_hittable],
    {
        let hittables: Vec<Sphere> = vec![initial_hittable];
        let idxs = index_vec(hittables.len());
        let root = construct_bvh_root(&hittables, &idxs, 0, 1);
        proof {
            assert(idxs@.subrange(0, 1) =~= idxs@);
            assert forall|v: usize|
                #[trigger] node_idxs(root).contains(v) <==> (v as int) < hittables@.len() by {
                assert(node_idxs(root).contains(v) <==> idxs@.subrange(0, 1).contains(v));
                if idxs@.contains(v) {
                    let k = choose|k: int| 0 <= k < idxs@.len() && idxs@[k] == v;
                }
                if (v as int) < hittables@.len() {
                    assert(idxs@[v as int] == v);
                }
            }
            assert(hittables@ =~= seq![initial_hittable]);
        }
        Self { hittables, bvh_root: root }
    }

    /// Adds a sphere to the scene and rebuilds the hierarchy.
    pub fn push(&mut self, hittable: Sphere)
        requires
            old(self).wf(),
            sphere_wf(hittable),
        ensures
            final(self).wf(),
            final(self).spheres() == old(self).spheres().push(hittable),
    {
        self.hittables.push(hittable);
        let n = self.hittables.len();
        let idxs = index_vec(n);
        proof {
            assert forall|i: int|
                0 <= i < self.hittables@.len() implies sphere_wf(
                #[trigger] self.hittables@[i],
            ) by {
                if i < old(self).spheres().len() {
                    assert(old(self).spheres()[i] == self.hittables@[i]);
                }
            }
        }
        let root = construct_bvh_root(&self.hittables, &idxs, 0, n);
        proof {
            assert(idxs@.subrange(0, n as int) =~= idxs@);
            assert forall|v: usize|
                #[trigger] node_idxs(root).contains(v) <==> (v as int)
                    < self.hittables@.len() by {
                assert(node_idxs(root).contains(v) <==> idxs@.subrange(0, n as int).contains(v));
                if idxs@.contains(v) {
                    let k = choose|k: int| 0 <= k < idxs@.len() && idxs@[k] == v;
                }
                if (v as int) < self.hittables@.len() {
                    assert(idxs@[v as int] == v);
                }
            }
        }
        self.bvh_root = root;
    }

    /// Returns the closest intersection of the ray with any sphere in the
    /// scene within the given distance range, through the hierarchy.
    pub fn get_intersect(&self, ray: Ray, min_dist: i64, max_dist: i64) -> (res: Option<Hit>)
        requires
            self.wf(),
            ray_wf(ray),
            !v_is_zero(ray.direction@),
            -T_MAX <= min_dist <= T_MAX,
            -T_MAX <= max_dist <= T_MAX,
        ensures
            nearest_ok(self.spheres(), ray, min_dist as int, max_dist as int, dist_of(res)),
            match res {
                Option::Some(h) => hit_props(ray, min_dist as int, max_dist as int, h)
                    && hit_from_scene(self.spheres(), ray, min_dist as int, max_dist as int, h),
                Option::None => true,
            },
    {
        let arena_len = self.hittables.len();
        let res = self.bvh_root.get_hit(&self.hittables, ray, min_dist, max_dist);
        proof {
            assert(self.hittables@.len() == arena_len);
            lemma_set_to_scene(
                self.hittables@,
                node_idxs(self.bvh_root),
                ray,
                min_dist as int,
                max_dist as int,
                dist_of(res),
            );
            match res {
                Option::Some(h) => {
                    lemma_idx_hit_to_scene(
                        self.hittables@,
                        node_idxs(self.bvh_root),
                        ray,
                        min_dist as int,
                        max_dist as int,
                        h,
                    );
                },
                Option::None => {},
            }
        }
        res
    }

    /// Returns the same closest intersection by scanning every sphere: the
    /// ground truth the hierarchy is verified against.
    pub fn get_intersect_linear(&self, ray: Ray, min_dist: i64, max_dist: i64) -> (res: Option<
        Hit,
    >)
        requires
            self.wf(),
            ray_wf(ray),
            !v_is_zero(ray.direction@),
            -T_MAX <= min_dist <= T_MAX,
            -T_MAX <= max_dist <= T_MAX,
        ensures
            nearest_ok(self.spheres(), ray, min_dist as int, max_dist as int, dist_of(res)),
            match res {
                Option::Some(h) => hit_props(ray, min_dist as int, max_dist as int, h)
                    && hit_from_scene(self.spheres(), ray, min_dist as int, max_dist as int, h),
                Option::None => true,
            },
    {
        let ghost tmin = min_dist as int;
        let ghost tmax = max_dist as int;
        let mut best: Option<Hit> = None;
        let mut closest_distance: i64 = max_dist;
        let ghost mut best_j: int = 0;
        let mut i: usize = 0;
        while i < self.hittables.len()
            invariant
                self.wf(),
                ray_wf(ray),
                !v_is_zero(ray.direction@),
                -T_MAX <= min_dist <= T_MAX,
                -T_MAX <= max_dist <= T_MAX,
                tmin == min_dist as int,
                tmax == max_dist as int,
                i <= self.hittables@.len(),
                closest_distance <= max_dist,
                match best {
                    Option::Some(h) => {
                        &&& hit_props(ray, tmin, tmax, h)
                        &&& h.distance == closest_distance
                        &&& 0 <= best_j < i
                        &&& scene_candidate(self.spheres(), best_j, ray, tmin, tmax)
                        &&& sphere_hit_time(self.spheres()[best_j], ray, tmin, tmax)
                            == h.distance
                        &&& sphere_hit_rec(self.spheres()[best_j], ray, tmin, tmax, h)
                        &&& forall|j: int|
                            0 <= j < i && scene_candidate(self.spheres(), j, ray, tmin, tmax)
                                ==> h.distance as int <= sphere_hit_time(
                                self.spheres()[j],
                                ray,
                                tmin,
                                tmax,
                            )
                    },
                    Option::None => {
                        &&& closest_distance == max_dist
                        &&& forall|j: int|
                            0 <= j < i ==> !scene_candidate(self.spheres(), j, ray, tmin, tmax)
                    },
                },
            decreases self.hittables@.len() - i,
        {
            let sph = self.hittables[i];
            proof {
                assert(sph == self.spheres()[i as int]);
            }
            let hit = sph.get_hit(ray, min_dist, max_dist);
            match hit {
                Some(h) => {
                    if h.distance < closest_distance {
                        closest_distance = h.distance;
                        best = Some(h);
                        proof {
                            best_j = i as int;
                        }
                    }
                },
                None => {},
            }
            i = i + 1;
        }
        proof {
            match best {
                Option::Some(h) => {
                    assert(scene_candidate(self.spheres(), best_j, ray, tmin, tmax)
                        && sphere_hit_time(self.spheres()[best_j], ray, tmin, tmax)
                        == h.distance as int && sphere_hit_rec(
                        self.spheres()[best_j],
                        ray,
                        tmin,
                        tmax,
                        h,
                    ));
                },
                Option::None => {},
            }
        }
        best
    }
}

/// Builds the identity index vector `[0, 1, ..., n-1]`.
fn index_vec(n: usize) -> (v: Vec<usize>)
    ensures
        v@.len() == n,
        forall|k: int| 0 <= k < n ==> v@[k] == k,
{
    let mut v: Vec<usize> = Vec::new();
    let mut k: usize = 0;
    while k < n
        invariant
            k <= n,
            v@.len() == k,
            forall|j: int| 0 <= j < k ==> v@[j] == j,
        decreases n - k,
    {
        v.push(k);
        k = k + 1;
    }
    v
}

/// Lifts a hit drawn from the hierarchy's index sequence to one drawn from
/// the whole scene, given that the hierarchy covers exactly the arena.
proof fn lemma_idx_hit_to_scene(
    spheres: Seq<Sphere>,
    idxs: Seq<usize>,
    r: Ray,
    tmin: int,
    tmax: int,
    h: Hit,
)
    requires
        hit_from_idxs(spheres, idxs, r, tmin, tmax, h),
        forall|v: usize| #[trigger] idxs.contains(v) <==> (v as int) < spheres.len(),
    ensures
        hit_from_scene(spheres, r, tmin, tmax, h),
{
    let k = choose|k: int|
        #[trigger] crate::bvh::idx_candidate(spheres, idxs, k, r, tmin, tmax) && sphere_hit_rec(
            spheres[idxs[k] as int],
            r,
            tmin,
            tmax,
            h,
        );
    assert(idxs.contains(idxs[k]));
    let i = idxs[k] as int;
    assert(scene_candidate(spheres, i, r, tmin, tmax));
}

/// Rebuilding a hierarchy over the same spheres always yields the same root
/// bounding box, even though the randomized split axes may shape the two
/// trees differently.
pub proof fn lemma_same_spheres_same_root_box(s1: &Scene, s2: &Scene)
    requires
        s1.wf(),
        s2.wf(),
        s1.spheres() == s2.spheres(),
    ensures
        s1.root_bounding_box() == s2.root_bounding_box(),
{
    assert forall|v: usize|
        #[trigger] node_idxs(s1.bvh_root).contains(v) <==> node_idxs(s2.bvh_root).contains(
            v,
        ) by {}
    lemma_rebuild_root_box_unique(s1.bvh_root, s2.bvh_root, s1.spheres());
}

/// Converts the hierarchy's per-index-sequence result into the whole-scene
/// characterization, given that the hierarchy covers exactly the arena.
proof fn lemma_set_to_scene(
    spheres: Seq<Sphere>,
    idxs: Seq<usize>,
    r: Ray,
    tmin: int,
    tmax: int,
    od: Option<int>,
)
    requires
        crate::bvh::set_nearest_ok(spheres, idxs, r, tmin, tmax, od),
        forall|v: usize| #[trigger] idxs.contains(v) <==> (v as int) < spheres.len(),
        spheres.len() <= usize::MAX,
    ensures
        nearest_ok(spheres, r, tmin, tmax, od),
{
    match od {
        Option::None => {
            assert forall|i: int| !scene_candidate(spheres, i, r, tmin, tmax) by {
                if 0 <= i < spheres.len() {
                    assert(idxs.contains(i as usize));
                    let k = choose|k: int| 0 <= k < idxs.len() && idxs[k] == i as usize;
                    assert(!crate::bvh::idx_candidate(spheres, idxs, k, r, tmin, tmax));
                }
            }
        },
        Option::Some(d) => {
            let k = choose|k: int|
                crate::bvh::idx_candidate(spheres, idxs, k, r, tmin, tmax) && sphere_hit_time(
                    spheres[idxs[k] as int],
                    r,
                    tmin,
                    tmax,
                ) == d;
            assert(idxs.contains(idxs[k]));
            assert(scene_candidate(spheres, idxs[k] as int, r, tmin, tmax));
            assert forall|i: int|
                scene_candidate(spheres, i, r, tmin, tmax) implies d <= sphere_hit_time(
                spheres[i],
                r,
                tmin,
                tmax,
            ) by {
                assert(idxs.contains(i as usize));
                let kk = choose|kk: int| 0 <= kk < idxs.len() && idxs[kk] == i as usize;
                assert(crate::bvh::idx_candidate(spheres, idxs, kk, r, tmin, tmax));
            }
        },
    }
}

} // verus!
