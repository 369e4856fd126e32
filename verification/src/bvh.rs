//! Bounding volume hierarchy: a binary tree over sphere indices, with a
//! verified guarantee that pruned traversal returns exactly the nearest hit
//! that a full linear scan would.

use vstd::prelude::*;
use crate::aabb::AABB;
use crate::aabb::aabb_wf;
use crate::aabb::box_contains_box;
use crate::aabb::box_union;
use crate::aabb::lemma_slab_hit_monotone;
use crate::aabb::surrounding_box;
use crate::color::c_in_range;
use crate::fixed::SCALE;
use crate::fixed::T_MAX;
use crate::hit::Hit;
use crate::ray::Ray;
use crate::ray::ray_wf;
use crate::rng::rand_in_range;
use crate::sphere::Sphere;
use crate::sphere::lemma_sphere_hit_implies_slab;
use crate::sphere::sph_a;
use crate::sphere::sphere_box;
use crate::sphere::sphere_hit_exists;
use crate::sphere::sphere_hit_rec;
use crate::sphere::sphere_hit_time;
use crate::sphere::sphere_wf;
use crate::vector3::v_dot_raw;
use crate::vector3::v_is_zero;
use crate::vector3::v_mag2;

verus! {

/// A branch of the hierarchy: either a single primitive (by index into the
/// scene's sphere arena) or a full subtree.
#[derive(Debug)]
pub enum BvhChild {
    Prim(usize),
    Node(Box<BoundingVolumeHierarchyNode>),
}

/// Represents a node within a bounding volume hierarchy.
#[derive(Debug)]
pub struct BoundingVolumeHierarchyNode {
    /// This node's AABB.
    pub bounding_box: AABB,
    /// This node's left branch.
    pub left: BvhChild,
    /// This node's right branch.
    pub right: BvhChild,
}

/// Acronym for BoundingVolumeHierarchyNode.
pub type BvhNode = BoundingVolumeHierarchyNode;

/// The sphere indices reachable under a child.
pub open spec fn child_idxs(c: BvhChild) -> Seq<usize>
    decreases c,
{
    match c {
        BvhChild::Prim(i) => seq![i],
        BvhChild::Node(n) => node_idxs(*n),
    }
}

/// The sphere indices reachable under a node.
pub open spec fn node_idxs(n: BvhNode) -> Seq<usize>
    decreases n,
{
    child_idxs(n.left) + child_idxs(n.right)
}

/// The bounding box a child stands for.
pub open spec fn child_box(c: BvhChild, spheres: Seq<Sphere>) -> AABB {
    match c {
        BvhChild::Prim(i) => sphere_box(spheres[i as int]),
        BvhChild::Node(n) => n.bounding_box,
    }
}

/// Every sphere in the arena is well formed.
pub open spec fn all_spheres_wf(spheres: Seq<Sphere>) -> bool {
    forall|i: int| 0 <= i < spheres.len() ==> sphere_wf(#[trigger] spheres[i])
}

/// Structural invariant: indices are valid and every node's box is exactly
/// the union of its children's boxes.
pub open spec fn child_wf(c: BvhChild, spheres: Seq<Sphere>) -> bool
    decreases c,
{
    match c {
        BvhChild::Prim(i) => i < spheres.len(),
        BvhChild::Node(n) => node_wf(*n, spheres),
    }
}

pub open spec fn node_wf(n: BvhNode, spheres: Seq<Sphere>) -> bool
    decreases n,
{
    &&& child_wf(n.left, spheres)
    &&& child_wf(n.right, spheres)
    &&& n.bounding_box == box_union(child_box(n.left, spheres), child_box(n.right, spheres))
    &&& aabb_wf(n.bounding_box)
}

/// What the traversal promises about any hit it returns.
pub open spec fn hit_props(r: Ray, tmin: int, tmax: int, h: Hit) -> bool {
    &&& h.ray == r
    &&& tmin <= h.distance < tmax
    &&& v_dot_raw(r.direction@, h.normal@) <= 0
    &&& c_in_range(h.color@, SCALE as int)
    &&& match h.reflectivity {
        Some(f) => 0 <= f <= SCALE,
        None => true,
    }
    &&& match h.refraction_index {
        Some(i) => SCALE < i <= 4 * SCALE,
        None => true,
    }
}

/// The distance of an optional hit.
pub open spec fn dist_of(res: Option<Hit>) -> Option<int> {
    match res {
        Option::None => Option::None,
        Option::Some(h) => Option::Some(h.distance as int),
    }
}

/// Sphere `idxs[k]` reports a hit strictly before `tmax`.
pub open spec fn idx_candidate(
    spheres: Seq<Sphere>,
    idxs: Seq<usize>,
    k: int,
    r: Ray,
    tmin: int,
    tmax: int,
) -> bool {
    &&& 0 <= k < idxs.len()
    &&& sphere_hit_exists(spheres[idxs[k] as int], r, tmin, tmax)
    &&& sphere_hit_time(spheres[idxs[k] as int], r, tmin, tmax) < tmax
}

/// `od` is exactly the least hit distance among the spheres of `idxs` that
/// hit strictly before `tmax`, or `None` when there is none.
pub open spec fn set_nearest_ok(
    spheres: Seq<Sphere>,
    idxs: Seq<usize>,
    r: Ray,
    tmin: int,
    tmax: int,
    od: Option<int>,
) -> bool {
    match od {
        Option::None => forall|k: int| !idx_candidate(spheres, idxs, k, r, tmin, tmax),
        Option::Some(d) => {
            &&& exists|k: int|
                idx_candidate(spheres, idxs, k, r, tmin, tmax) && sphere_hit_time(
                    spheres[idxs[k] as int],
                    r,
                    tmin,
                    tmax,
                ) == d
            &&& forall|k: int|
                idx_candidate(spheres, idxs, k, r, tmin, tmax) ==> d <= sphere_hit_time(
                    spheres[idxs[k] as int],
                    r,
                    tmin,
                    tmax,
                )
        },
    }
}

/// The hit is the full record of one of the spheres named by `idxs` whose
/// accepted root lies strictly before `tmax`.
pub open spec fn hit_from_idxs(
    spheres: Seq<Sphere>,
    idxs: Seq<usize>,
    r: Ray,
    tmin: int,
    tmax: int,
    h: Hit,
) -> bool {
    exists|k: int|
        #[trigger] idx_candidate(spheres, idxs, k, r, tmin, tmax) && sphere_hit_rec(
            spheres[idxs[k] as int],
            r,
            tmin,
            tmax,
            h,
        )
}

/// Concatenation splits membership.
pub proof fn lemma_contains_split(s1: Seq<usize>, s2: Seq<usize>, v: usize)
    ensures
        (s1 + s2).contains(v) <==> (s1.contains(v) || s2.contains(v)),
{
    if (s1 + s2).contains(v) {
        let k = choose|k: int| 0 <= k < (s1 + s2).len() && (s1 + s2)[k] == v;
        if k < s1.len() {
            assert(s1[k] == v);
        } else {
            assert(s2[k - s1.len()] == v);
        }
    }
    if s1.contains(v) {
        let k = choose|k: int| 0 <= k < s1.len() && s1[k] == v;
        assert((s1 + s2)[k] == v);
    }
    if s2.contains(v) {
        let k = choose|k: int| 0 <= k < s2.len() && s2[k] == v;
        assert((s1 + s2)[k + s1.len()] == v);
    }
}

/// Every sphere box under a well-formed node is contained in the node's box.
pub proof fn lemma_node_box_contains(n: BvhNode, spheres: Seq<Sphere>, k: int)
    requires
        node_wf(n, spheres),
        0 <= k < node_idxs(n).len(),
    ensures
        box_contains_box(n.bounding_box, sphere_box(spheres[node_idxs(n)[k] as int])),
        node_idxs(n)[k] < spheres.len(),
    decreases n,
{
    let nl = child_idxs(n.left).len() as int;
    crate::aabb::lemma_box_union_contains(
        child_box(n.left, spheres),
        child_box(n.right, spheres),
    );
    if k < nl {
        match n.left {
            BvhChild::Prim(i) => {
                assert(node_idxs(n)[k] == i);
            },
            BvhChild::Node(sub) => {
                lemma_node_box_contains(*sub, spheres, k);
                assert(node_idxs(n)[k] == node_idxs(*sub)[k]);
            },
        }
    } else {
        match n.right {
            BvhChild::Prim(i) => {
                assert(node_idxs(n)[k] == i);
            },
            BvhChild::Node(sub) => {
                lemma_node_box_contains(*sub, spheres, k - nl);
                assert(node_idxs(n)[k] == node_idxs(*sub)[k - nl]);
            },
        }
    }
}

impl BvhChild {
    /// Queries one branch: a primitive directly (unfiltered, as the leaf of
    /// the search), a subtree through its own pruned traversal.
    fn get_hit(&self, spheres: &Vec<Sphere>, ray: Ray, min_dist: i64, max_dist: i64) -> (res:
        Option<Hit>)
        requires
            all_spheres_wf(spheres@),
            child_wf(*self, spheres@),
            ray_wf(ray),
            !v_is_zero(ray.direction@),
            -T_MAX <= min_dist <= T_MAX,
            -T_MAX <= max_dist <= T_MAX,
        ensures
            match self {
                BvhChild::Prim(i) => {
                    &&& res.is_some() == sphere_hit_exists(
                        spheres@[*i as int],
                        ray,
                        min_dist as int,
                        max_dist as int,
                    )
                    &&& match res {
                        Option::Some(h) => sphere_hit_rec(
                            spheres@[*i as int],
                            ray,
                            min_dist as int,
                            max_dist as int,
                            h,
                        ) && c_in_range(h.color@, SCALE as int) && (match h.reflectivity {
                            Some(f) => 0 <= f <= SCALE,
                            None => true,
                        }) && (match h.refraction_index {
                            Some(ri) => SCALE < ri <= 4 * SCALE,
                            None => true,
                        }),
                        Option::None => true,
                    }
                },
                BvhChild::Node(n) => {
                    &&& set_nearest_ok(
                        spheres@,
                        node_idxs(**n),
                        ray,
                        min_dist as int,
                        max_dist as int,
                        dist_of(res),
                    )
                    &&& match res {
                        Option::Some(h) => hit_props(ray, min_dist as int, max_dist as int, h)
                            && hit_from_idxs(
                            spheres@,
                            node_idxs(**n),
                            ray,
                            min_dist as int,
                            max_dist as int,
                            h,
                        ),
                        Option::None => true,
                    }
                },
            },
        decreases *self,
    {
        match self {
            BvhChild::Prim(i) => spheres[*i].get_hit(ray, min_dist, max_dist),
            BvhChild::Node(n) => n.get_hit(spheres, ray, min_dist, max_dist),
        }
    }
}

impl BvhNode {
    /// Returns a BvhNode with the given box and branches.
    pub fn new(bounding_box: AABB, left: BvhChild, right: BvhChild) -> (n: Self)
        ensures
            n.bounding_box == bounding_box,
            n.left == left,
            n.right == right,
    {
        Self { bounding_box, left, right }
    }

    /// Returns the node's AABB.
    pub fn get_aabb(&self) -> (b: AABB)
        ensures
            b == self.bounding_box,
    {
        self.bounding_box
    }

    /// Pruned nearest-hit query: returns exactly the nearest hit (strictly
    /// before `max_dist`) among the spheres under this node, as a full linear
    /// scan of them would.
    pub fn get_hit(&self, spheres: &Vec<Sphere>, ray: Ray, min_dist: i64, max_dist: i64) -> (res:
        Option<Hit>)
        requires
            all_spheres_wf(spheres@),
            node_wf(*self, spheres@),
            ray_wf(ray),
            !v_is_zero(ray.direction@),
            -T_MAX <= min_dist <= T_MAX,
            -T_MAX <= max_dist <= T_MAX,
        ensures
            set_nearest_ok(
                spheres@,
                node_idxs(*self),
                ray,
                min_dist as int,
                max_dist as int,
                dist_of(res),
            ),
            match res {
                Option::Some(h) => hit_props(ray, min_dist as int, max_dist as int, h)
                    && hit_from_idxs(
                    spheres@,
                    node_idxs(*self),
                    ray,
                    min_dist as int,
                    max_dist as int,
                    h,
                ),
                Option::None => true,
            },
        decreases *self,
    {
        let ghost idxs = node_idxs(*self);
        let ghost tmin = min_dist as int;
        let ghost tmax = max_dist as int;
        if !self.bounding_box.is_hit(ray, min_dist, max_dist) {
            proof {
                assert forall|k: int| !idx_candidate(spheres@, idxs, k, ray, tmin, tmax) by {
                    if 0 <= k < idxs.len() {
                        lemma_node_box_contains(*self, spheres@, k);
                        let s = spheres@[idxs[k] as int];
                        if sphere_hit_exists(s, ray, tmin, tmax) {
                            assert(sph_a(s, ray) >= 1) by (nonlinear_arith)
                                requires
                                    sph_a(s, ray) == v_mag2(ray.direction@),
                                    v_mag2(ray.direction@) == ray.direction.x * ray.direction.x
                                        + ray.direction.y * ray.direction.y + ray.direction.z
                                        * ray.direction.z,
                                    !(ray.direction.x == 0 && ray.direction.y == 0
                                        && ray.direction.z == 0),
                            ;
                            lemma_sphere_hit_implies_slab(s, ray, tmin, tmax);
                            lemma_slab_hit_monotone(
                                self.bounding_box,
                                sphere_box(s),
                                ray,
                                tmin,
                                tmax,
                            );
                        }
                    }
                }
            }
            return None;
        }
        let left_res = self.left.get_hit(spheres, ray, min_dist, max_dist);
        let mut closest_distance: i64 = max_dist;
        let mut best: Option<Hit> = None;
        match left_res {
            Some(h) => {
                if h.distance < closest_distance {
                    closest_distance = h.distance;
                    best = Some(h);
                }
            },
            None => {},
        }
        let right_res = self.right.get_hit(spheres, ray, min_dist, max_dist);
        match right_res {
            Some(h) => {
                if h.distance < closest_distance {
                    best = Some(h);
                }
            },
            None => {},
        }
        proof {
            let ls = child_idxs(self.left);
            let rs = child_idxs(self.right);
            let nl = ls.len() as int;
            assert(idxs == ls + rs);
            lemma_combine_children(
                spheres@,
                ls,
                rs,
                ray,
                tmin,
                tmax,
                self.left,
                self.right,
                left_res,
                right_res,
                best,
            );
            match best {
                Option::Some(h) => {
                    lemma_hit_from_children(
                        spheres@,
                        self.left,
                        self.right,
                        ray,
                        tmin,
                        tmax,
                        left_res,
                        right_res,
                        h,
                    );
                },
                Option::None => {},
            }
        }
        best
    }
}

/// What one child's result says about the hit record it hands back.
pub open spec fn child_hit_rec_ok(
    spheres: Seq<Sphere>,
    c: BvhChild,
    r: Ray,
    tmin: int,
    tmax: int,
    res: Option<Hit>,
) -> bool {
    match res {
        Option::Some(h) => match c {
            BvhChild::Prim(i) => sphere_hit_exists(spheres[i as int], r, tmin, tmax)
                && sphere_hit_rec(spheres[i as int], r, tmin, tmax, h),
            BvhChild::Node(n) => hit_from_idxs(spheres, node_idxs(*n), r, tmin, tmax, h),
        },
        Option::None => true,
    }
}

/// A hit taken from either child, strictly before `tmax`, is a hit drawn
/// from the concatenated index sequence.
proof fn lemma_hit_from_children(
    spheres: Seq<Sphere>,
    left: BvhChild,
    right: BvhChild,
    r: Ray,
    tmin: int,
    tmax: int,
    left_res: Option<Hit>,
    right_res: Option<Hit>,
    h: Hit,
)
    requires
        child_hit_rec_ok(spheres, left, r, tmin, tmax, left_res),
        child_hit_rec_ok(spheres, right, r, tmin, tmax, right_res),
        left_res == Option::Some(h) || right_res == Option::Some(h),
        h.distance < tmax,
    ensures
        hit_from_idxs(spheres, child_idxs(left) + child_idxs(right), r, tmin, tmax, h),
{
    let ls = child_idxs(left);
    let rs = child_idxs(right);
    let idxs = ls + rs;
    let nl = ls.len() as int;
    if left_res == Option::Some(h) {
        match left {
            BvhChild::Prim(i) => {
                assert(idxs[0] == i);
                assert(idx_candidate(spheres, idxs, 0, r, tmin, tmax));
            },
            BvhChild::Node(n) => {
                let k = choose|k: int|
                    #[trigger] idx_candidate(spheres, node_idxs(*n), k, r, tmin, tmax)
                        && sphere_hit_rec(spheres[node_idxs(*n)[k] as int], r, tmin, tmax, h);
                assert(idxs[k] == ls[k]);
                assert(idx_candidate(spheres, idxs, k, r, tmin, tmax));
            },
        }
    } else {
        match right {
            BvhChild::Prim(i) => {
                assert(idxs[nl] == i);
                assert(idx_candidate(spheres, idxs, nl, r, tmin, tmax));
            },
            BvhChild::Node(n) => {
                let k = choose|k: int|
                    #[trigger] idx_candidate(spheres, node_idxs(*n), k, r, tmin, tmax)
                        && sphere_hit_rec(spheres[node_idxs(*n)[k] as int], r, tmin, tmax, h);
                assert(idxs[k + nl] == rs[k]);
                assert(idx_candidate(spheres, idxs, k + nl, r, tmin, tmax));
            },
        }
    }
}

/// The per-child query results combine, through the strict
/// closest-so-far filter, into the nearest result over the concatenated
/// index sequences.
proof fn lemma_combine_children(
    spheres: Seq<Sphere>,
    ls: Seq<usize>,
    rs: Seq<usize>,
    r: Ray,
    tmin: int,
    tmax: int,
    left: BvhChild,
    right: BvhChild,
    left_res: Option<Hit>,
    right_res: Option<Hit>,
    best: Option<Hit>,
)
    requires
        ls == child_idxs(left),
        rs == child_idxs(right),
        child_side_ok(spheres, left, r, tmin, tmax, left_res),
        child_side_ok(spheres, right, r, tmin, tmax, right_res),
        best == combine_spec(left_res, right_res, tmax),
    ensures
        set_nearest_ok(spheres, ls + rs, r, tmin, tmax, dist_of(best)),
{
    let idxs = ls + rs;
    let nl = ls.len() as int;
    let lok = side_filtered(spheres, ls, left, r, tmin, tmax, left_res);
    let rok = side_filtered(spheres, rs, right, r, tmin, tmax, right_res);
    lemma_side_filtered(spheres, ls, left, r, tmin, tmax, left_res);
    lemma_side_filtered(spheres, rs, right, r, tmin, tmax, right_res);
    assert forall|k: int|
        idx_candidate(spheres, idxs, k, r, tmin, tmax) implies (idx_candidate(
        spheres,
        ls,
        k,
        r,
        tmin,
        tmax,
    ) || idx_candidate(spheres, rs, k - nl, r, tmin, tmax)) by {
        if k < nl {
            assert(idxs[k] == ls[k]);
        } else {
            assert(idxs[k] == rs[k - nl]);
        }
    }
    assert forall|k: int|
        idx_candidate(spheres, ls, k, r, tmin, tmax) implies idx_candidate(
        spheres,
        idxs,
        k,
        r,
        tmin,
        tmax,
    ) by {
        assert(idxs[k] == ls[k]);
    }
    assert forall|k: int|
        idx_candidate(spheres, rs, k, r, tmin, tmax) implies idx_candidate(
        spheres,
        idxs,
        k + nl,
        r,
        tmin,
        tmax,
    ) by {
        assert(idxs[k + nl] == rs[k]);
    }
}

/// The result of the original combining logic: keep the left hit if it is
/// strictly before `tmax`, then let the right hit replace it only when
/// strictly closer.
pub open spec fn combine_spec(left_res: Option<Hit>, right_res: Option<Hit>, tmax: int) -> Option<
    Hit,
> {
    let closest: int = match left_res {
        Option::Some(h) => if h.distance < tmax {
            h.distance as int
        } else {
            tmax
        },
        Option::None => tmax,
    };
    let best0: Option<Hit> = match left_res {
        Option::Some(h) => if h.distance < tmax {
            Option::Some(h)
        } else {
            Option::None
        },
        Option::None => Option::None,
    };
    match right_res {
        Option::Some(h) => if h.distance < closest {
            Option::Some(h)
        } else {
            best0
        },
        Option::None => best0,
    }
}

/// What one child's result means for its own index sequence, after the
/// strict `tmax` filter.
pub open spec fn child_side_ok(
    spheres: Seq<Sphere>,
    c: BvhChild,
    r: Ray,
    tmin: int,
    tmax: int,
    res: Option<Hit>,
) -> bool {
    match c {
        BvhChild::Prim(i) => {
            &&& res.is_some() == sphere_hit_exists(spheres[i as int], r, tmin, tmax)
            &&& match res {
                Option::Some(h) => h.distance == sphere_hit_time(spheres[i as int], r, tmin, tmax),
                Option::None => true,
            }
        },
        BvhChild::Node(n) => set_nearest_ok(spheres, node_idxs(*n), r, tmin, tmax, dist_of(res)),
    }
}

/// Filtering a child result at `tmax` yields the nearest over its indices.
pub open spec fn side_filtered(
    spheres: Seq<Sphere>,
    idxs: Seq<usize>,
    c: BvhChild,
    r: Ray,
    tmin: int,
    tmax: int,
    res: Option<Hit>,
) -> Option<int> {
    match res {
        Option::Some(h) => if h.distance < tmax {
            Option::Some(h.distance as int)
        } else {
            Option::None
        },
        Option::None => Option::None,
    }
}

proof fn lemma_side_filtered(
    spheres: Seq<Sphere>,
    idxs: Seq<usize>,
    c: BvhChild,
    r: Ray,
    tmin: int,
    tmax: int,
    res: Option<Hit>,
)
    requires
        idxs == child_idxs(c),
        child_side_ok(spheres, c, r, tmin, tmax, res),
    ensures
        set_nearest_ok(spheres, idxs, r, tmin, tmax, side_filtered(spheres, idxs, c, r, tmin, tmax, res)),
{
    match c {
        BvhChild::Prim(i) => {
            assert(idxs == seq![i]);
            match res {
                Option::Some(h) => {
                    if h.distance < tmax {
                        assert(idx_candidate(spheres, idxs, 0, r, tmin, tmax));
                    } else {
                        assert forall|k: int| !idx_candidate(spheres, idxs, k, r, tmin, tmax) by {
                            if 0 <= k < idxs.len() {
                                assert(k == 0);
                            }
                        }
                    }
                },
                Option::None => {
                    assert forall|k: int| !idx_candidate(spheres, idxs, k, r, tmin, tmax) by {
                        if 0 <= k < idxs.len() {
                            assert(k == 0);
                        }
                    }
                },
            }
        },
        BvhChild::Node(n) => {
            match res {
                Option::Some(h) => {
                    assert(dist_of(res) == Option::Some(h.distance as int));
                    assert(h.distance < tmax);
                },
                Option::None => {},
            }
        },
    }
}

/// Axis extremes of a sphere's bounding box.
pub open spec fn axis_lo(s: Sphere, axis: int) -> int {
    if axis == 0 {
        s.center.x - s.radius
    } else if axis == 1 {
        s.center.y - s.radius
    } else {
        s.center.z - s.radius
    }
}

pub open spec fn axis_hi(s: Sphere, axis: int) -> int {
    if axis == 0 {
        s.center.x + s.radius
    } else if axis == 1 {
        s.center.y + s.radius
    } else {
        s.center.z + s.radius
    }
}

/// The ordering the construction sorts by on the chosen axis: ahead when the
/// box minimum is smaller, behind when the box maximum is larger, tied
/// otherwise.  (This is not a total order; the tree never relies on it.)
pub open spec fn cmp_boxes_spec(a: Sphere, b: Sphere, axis: int) -> int {
    if axis_lo(a, axis) < axis_lo(b, axis) {
        -1
    } else if axis_hi(a, axis) > axis_hi(b, axis) {
        1
    } else {
        0
    }
}

/// Compares two spheres' bounding boxes along an axis.
fn compare_boxes(a: &Sphere, b: &Sphere, axis: i64) -> (r: i64)
    requires
        sphere_wf(*a),
        sphere_wf(*b),
    ensures
        r == cmp_boxes_spec(*a, *b, axis as int),
{
    let (alo, ahi): (i64, i64) = if axis == 0 {
        (a.center.x - a.radius, a.center.x + a.radius)
    } else if axis == 1 {
        (a.center.y - a.radius, a.center.y + a.radius)
    } else {
        (a.center.z - a.radius, a.center.z + a.radius)
    };
    let (blo, bhi): (i64, i64) = if axis == 0 {
        (b.center.x - b.radius, b.center.x + b.radius)
    } else if axis == 1 {
        (b.center.y - b.radius, b.center.y + b.radius)
    } else {
        (b.center.z - b.radius, b.center.z + b.radius)
    };
    if alo < blo {
        -1
    } else if ahi > bhi {
        1
    } else {
        0
    }
}

/// Some axis choice orders a two-element node the way the construction
/// places it: when the comparator sorts the first element ahead it goes
/// left; on a tie or the reverse order the pair is swapped.
pub open spec fn two_ordered(spheres: Seq<Sphere>, i0: usize, i1: usize, n: BvhNode) -> bool {
    exists|axis: int|
        #![trigger cmp_boxes_spec(spheres[i0 as int], spheres[i1 as int], axis)]
        {
            &&& 0 <= axis < 3
            &&& if cmp_boxes_spec(spheres[i0 as int], spheres[i1 as int], axis) == -1 {
                n.left == BvhChild::Prim(i0) && n.right == BvhChild::Prim(i1)
            } else {
                n.left == BvhChild::Prim(i1) && n.right == BvhChild::Prim(i0)
            }
        }
}

/// A one-element sequence contains exactly its element.
proof fn lemma_contains_singleton(s: Seq<usize>, x: usize, v: usize)
    requires
        s.len() == 1,
        s[0] == x,
    ensures
        s.contains(v) <==> v == x,
{
    if s.contains(v) {
        let k = choose|k: int| 0 <= k < s.len() && s[k] == v;
        assert(k == 0);
    }
    if v == x {
        assert(s[0] == v);
    }
}

/// Swapping two positions leaves membership unchanged.
proof fn lemma_swap_contains(s: Seq<usize>, i: int, j: int)
    requires
        0 <= i < s.len(),
        0 <= j < s.len(),
    ensures
        forall|v: usize|
            s.update(i, s[j]).update(j, s[i]).contains(v) <==> #[trigger] s.contains(v),
{
    let s2 = s.update(i, s[j]).update(j, s[i]);
    assert forall|v: usize| s2.contains(v) <==> s.contains(v) by {
        if s2.contains(v) {
            let k = choose|k: int| 0 <= k < s2.len() && s2[k] == v;
            if k == j {
                assert(s[i] == v);
            } else if k == i {
                assert(s[j] == v);
            } else {
                assert(s[k] == v);
            }
        }
        if s.contains(v) {
            let k = choose|k: int| 0 <= k < s.len() && s[k] == v;
            if k == i {
                assert(s2[j] == v);
            } else if k == j {
                assert(s2[i] == v);
            } else {
                assert(s2[k] == v);
            }
        }
    }
}

/// Returns a BvhNode over the spheres named by `idxs[start..end]`: a leaf
/// pair for one element, an ordered pair for two, and otherwise a sort along
/// a uniformly random axis followed by a split at the midpoint.
pub fn construct_bvh_root(spheres: &Vec<Sphere>, idxs: &Vec<usize>, start: usize, end: usize) -> (n:
    BvhNode)
    requires
        all_spheres_wf(spheres@),
        start < end <= idxs@.len(),
        forall|k: int| start <= k < end ==> idxs@[k] < spheres@.len(),
    ensures
        node_wf(n, spheres@),
        forall|v: usize|
            #[trigger] node_idxs(n).contains(v) <==> idxs@.subrange(
                start as int,
                end as int,
            ).contains(v),
        end - start == 1 ==> n.left == BvhChild::Prim(idxs@[start as int]) && n.right
            == BvhChild::Prim(idxs@[start as int]),
        end - start == 2 ==> two_ordered(
            spheres@,
            idxs@[start as int],
            idxs@[start as int + 1],
            n,
        ),
    decreases end - start,
{
    let ghost orig = idxs@.subrange(start as int, end as int);
    let axis = rand_in_range(0, 3);
    let mut hittables: Vec<usize> = Vec::new();
    let mut k: usize = start;
    while k < end
        invariant
            start <= k <= end,
            end <= idxs@.len(),
            hittables@ == idxs@.subrange(start as int, k as int),
            forall|j: int| start <= j < end ==> idxs@[j] < spheres@.len(),
        decreases end - k,
    {
        let v = idxs[k];
        hittables.push(v);
        k = k + 1;
        proof {
            assert(hittables@ =~= idxs@.subrange(start as int, k as int));
        }
    }
    proof {
        assert(hittables@ == orig);
        assert(forall|j: int|
            0 <= j < hittables@.len() ==> #[trigger] hittables@[j] < spheres@.len());
    }
    if hittables.len() == 1 {
        let i = hittables[0];
        let b = spheres[i].get_aabb();
        let bb = surrounding_box(b, b);
        let n = BvhNode { bounding_box: bb, left: BvhChild::Prim(i), right: BvhChild::Prim(i) };
        proof {
            assert(node_idxs(n) == seq![i] + seq![i]);
            assert(orig.len() == 1 && orig[0] == i);
            assert(idxs@[start as int] == orig[0]);
            assert forall|v: usize|
                #[trigger] node_idxs(n).contains(v) <==> orig.contains(v) by {
                lemma_contains_split(seq![i], seq![i], v);
                lemma_contains_singleton(seq![i], i, v);
                lemma_contains_singleton(orig, i, v);
            }
        }
        n
    } else if hittables.len() == 2 {
        let i0 = hittables[0];
        let i1 = hittables[1];
        let c = compare_boxes(&spheres[i0], &spheres[i1], axis);
        let (l, r): (usize, usize) = if c == -1 {
            (i0, i1)
        } else {
            (i1, i0)
        };
        let bl = spheres[l].get_aabb();
        let br = spheres[r].get_aabb();
        let bb = surrounding_box(bl, br);
        let n = BvhNode { bounding_box: bb, left: BvhChild::Prim(l), right: BvhChild::Prim(r) };
        proof {
            assert(node_idxs(n) == seq![l] + seq![r]);
            assert(orig.len() == 2 && orig[0] == i0 && orig[1] == i1);
            assert(idxs@[start as int] == orig[0] && idxs@[start as int + 1] == orig[1]);
            assert(cmp_boxes_spec(spheres@[i0 as int], spheres@[i1 as int], axis as int) == c);
            assert(0 <= (axis as int) && (axis as int) < 3);
            assert(two_ordered(spheres@, i0, i1, n));
            assert(orig =~= seq![i0] + seq![i1]);
            assert forall|v: usize|
                #[trigger] node_idxs(n).contains(v) <==> orig.contains(v) by {
                lemma_contains_split(seq![l], seq![r], v);
                lemma_contains_split(seq![i0], seq![i1], v);
                lemma_contains_singleton(seq![l], l, v);
                lemma_contains_singleton(seq![r], r, v);
                lemma_contains_singleton(seq![i0], i0, v);
                lemma_contains_singleton(seq![i1], i1, v);
            }
        }
        n
    } else {
        let ghost presort = hittables@;
        let mut i: usize = 1;
        while i < hittables.len()
            invariant
                1 <= i <= hittables@.len(),
                hittables@.len() == presort.len(),
                forall|v: usize| #[trigger] hittables@.contains(v) <==> presort.contains(v),
                forall|j: int|
                    0 <= j < hittables@.len() ==> #[trigger] hittables@[j] < spheres@.len(),
                all_spheres_wf(spheres@),
            decreases hittables@.len() - i,
        {
            let mut j: usize = i;
            while j > 0
                invariant
                    j <= i < hittables@.len(),
                    hittables@.len() == presort.len(),
                    forall|v: usize| #[trigger] hittables@.contains(v) <==> presort.contains(v),
                    forall|jj: int|
                        0 <= jj < hittables@.len() ==> #[trigger] hittables@[jj]
                            < spheres@.len(),
                    all_spheres_wf(spheres@),
                decreases j,
            {
                let prev = hittables[j - 1];
                let cur = hittables[j];
                if compare_boxes(&spheres[prev], &spheres[cur], axis) != 1 {
                    break;
                }
                let ghost before = hittables@;
                hittables.set(j - 1, cur);
                hittables.set(j, prev);
                proof {
                    lemma_swap_contains(before, j - 1, j as int);
                    assert(hittables@ == before.update(j - 1, before[j as int]).update(
                        j as int,
                        before[j - 1],
                    ));
                    assert forall|v: usize|
                        #[trigger] hittables@.contains(v) <==> presort.contains(v) by {
                        assert(hittables@.contains(v) <==> before.contains(v));
                    }
                }
                j = j - 1;
            }
            i = i + 1;
        }
        let middle = hittables.len() / 2;
        let left_node = construct_bvh_root(spheres, &hittables, 0, middle);
        let right_node = construct_bvh_root(spheres, &hittables, middle, hittables.len());
        let bb = surrounding_box(left_node.get_aabb(), right_node.get_aabb());
        let n = BvhNode {
            bounding_box: bb,
            left: BvhChild::Node(Box::new(left_node)),
            right: BvhChild::Node(Box::new(right_node)),
        };
        proof {
            let ls = hittables@.subrange(0, middle as int);
            let rs = hittables@.subrange(middle as int, hittables@.len() as int);
            assert(hittables@ =~= ls + rs);
            assert(presort == orig);
            assert forall|v: usize|
                #[trigger] node_idxs(n).contains(v) <==> orig.contains(v) by {
                assert(node_idxs(left_node).contains(v) <==> ls.contains(v));
                assert(node_idxs(right_node).contains(v) <==> rs.contains(v));
                assert(child_idxs(n.left) == node_idxs(left_node));
                assert(child_idxs(n.right) == node_idxs(right_node));
                lemma_contains_split(child_idxs(n.left), child_idxs(n.right), v);
                lemma_contains_split(ls, rs, v);
                assert(hittables@.contains(v) <==> presort.contains(v));
                assert((ls + rs).contains(v) <==> hittables@.contains(v));
            }
        }
        n
    }
}

/// Returns the root of a BVH over `idxs[start..end]` as a child branch,
/// ready to hang under another node.
pub fn construct_bvh(spheres: &Vec<Sphere>, idxs: &Vec<usize>, start: usize, end: usize) -> (c:
    BvhChild)
    requires
        all_spheres_wf(spheres@),
        start < end <= idxs@.len(),
        forall|k: int| start <= k < end ==> idxs@[k] < spheres@.len(),
    ensures
        child_wf(c, spheres@),
        forall|v: usize|
            #[trigger] child_idxs(c).contains(v) <==> idxs@.subrange(
                start as int,
                end as int,
            ).contains(v),
{
    let root = construct_bvh_root(spheres, idxs, start, end);
    let c = BvhChild::Node(Box::new(root));
    proof {
        assert(child_idxs(c) == node_idxs(root));
        assert forall|v: usize|
            #[trigger] child_idxs(c).contains(v) <==> idxs@.subrange(
                start as int,
                end as int,
            ).contains(v) by {
            assert(node_idxs(root).contains(v) <==> idxs@.subrange(
                start as int,
                end as int,
            ).contains(v));
        }
    }
    c
}

/// One of the six faces of a box: the minima for `f` 0..3, the maxima for
/// `f` 3..6.
pub open spec fn box_face(b: AABB, f: int) -> int {
    if f == 0 {
        b.min.x as int
    } else if f == 1 {
        b.min.y as int
    } else if f == 2 {
        b.min.z as int
    } else if f == 3 {
        b.max.x as int
    } else if f == 4 {
        b.max.y as int
    } else {
        b.max.z as int
    }
}

/// A union box face always comes from one of the two inputs.
proof fn lemma_union_face(b1: AABB, b2: AABB, f: int)
    ensures
        box_face(box_union(b1, b2), f) == box_face(b1, f) || box_face(box_union(b1, b2), f)
            == box_face(b2, f),
{
}

/// Some sphere under the node achieves face `f` of its box.
pub proof fn lemma_node_box_tight(n: BvhNode, spheres: Seq<Sphere>, f: int)
    requires
        node_wf(n, spheres),
    ensures
        exists|k: int|
            0 <= k < node_idxs(n).len() && box_face(
                sphere_box(spheres[#[trigger] node_idxs(n)[k] as int]),
                f,
            ) == box_face(n.bounding_box, f),
    decreases n,
{
    lemma_union_face(child_box(n.left, spheres), child_box(n.right, spheres), f);
    let ls = child_idxs(n.left);
    let rs = child_idxs(n.right);
    if box_face(n.bounding_box, f) == box_face(child_box(n.left, spheres), f) {
        let k0 = lemma_child_box_tight(n.left, spheres, f);
        assert(node_idxs(n)[k0] == ls[k0]);
    } else {
        let k0 = lemma_child_box_tight(n.right, spheres, f);
        assert(node_idxs(n)[k0 + ls.len()] == rs[k0]);
    }
}

/// Same statement for a child branch, returning the witness position.
proof fn lemma_child_box_tight(c: BvhChild, spheres: Seq<Sphere>, f: int) -> (k: int)
    requires
        child_wf(c, spheres),
    ensures
        0 <= k < child_idxs(c).len(),
        box_face(sphere_box(spheres[child_idxs(c)[k] as int]), f) == box_face(
            child_box(c, spheres),
            f,
        ),
    decreases c,
{
    match c {
        BvhChild::Prim(i) => {
            assert(child_idxs(c)[0] == i);
            0
        },
        BvhChild::Node(n) => {
            lemma_node_box_tight(*n, spheres, f);
            let k0 = choose|k: int|
                0 <= k < node_idxs(*n).len() && box_face(
                    sphere_box(spheres[node_idxs(*n)[k] as int]),
                    f,
                ) == box_face(n.bounding_box, f);
            assert(child_idxs(c)[k0] == node_idxs(*n)[k0]);
            k0
        },
    }
}

/// Each face of `n2`'s box bounds the same face of `n1`'s box when `n2`
/// covers all of `n1`'s spheres.
proof fn lemma_box_face_bound(n1: BvhNode, n2: BvhNode, spheres: Seq<Sphere>, f: int)
    requires
        node_wf(n1, spheres),
        node_wf(n2, spheres),
        0 <= f < 6,
        forall|v: usize| #[trigger] node_idxs(n1).contains(v) ==> node_idxs(n2).contains(v),
    ensures
        f < 3 ==> box_face(n2.bounding_box, f) <= box_face(n1.bounding_box, f),
        f >= 3 ==> box_face(n1.bounding_box, f) <= box_face(n2.bounding_box, f),
{
    lemma_node_box_tight(n1, spheres, f);
    let k = choose|k: int|
        0 <= k < node_idxs(n1).len() && box_face(
            sphere_box(spheres[node_idxs(n1)[k] as int]),
            f,
        ) == box_face(n1.bounding_box, f);
    let v = node_idxs(n1)[k];
    assert(node_idxs(n1).contains(v));
    assert(node_idxs(n2).contains(v));
    let k2 = choose|k2: int| 0 <= k2 < node_idxs(n2).len() && node_idxs(n2)[k2] == v;
    lemma_node_box_contains(n2, spheres, k2);
}

/// Rebuilding over the same set of primitives always gives the same root
/// bounding box, whatever axis choices shaped the two trees.
pub proof fn lemma_rebuild_root_box_unique(n1: BvhNode, n2: BvhNode, spheres: Seq<Sphere>)
    requires
        node_wf(n1, spheres),
        node_wf(n2, spheres),
        forall|v: usize| #[trigger] node_idxs(n1).contains(v) <==> node_idxs(n2).contains(v),
    ensures
        n1.bounding_box == n2.bounding_box,
{
    lemma_box_face_bound(n1, n2, spheres, 0);
    lemma_box_face_bound(n2, n1, spheres, 0);
    lemma_box_face_bound(n1, n2, spheres, 1);
    lemma_box_face_bound(n2, n1, spheres, 1);
    lemma_box_face_bound(n1, n2, spheres, 2);
    lemma_box_face_bound(n2, n1, spheres, 2);
    lemma_box_face_bound(n1, n2, spheres, 3);
    lemma_box_face_bound(n2, n1, spheres, 3);
    lemma_box_face_bound(n1, n2, spheres, 4);
    lemma_box_face_bound(n2, n1, spheres, 4);
    lemma_box_face_bound(n1, n2, spheres, 5);
    lemma_box_face_bound(n2, n1, spheres, 5);
    assert(n1.bounding_box =~= n2.bounding_box) by {
        assert(n1.bounding_box.min =~= n2.bounding_box.min);
        assert(n1.bounding_box.max =~= n2.bounding_box.max);
    }
}

} // verus!
