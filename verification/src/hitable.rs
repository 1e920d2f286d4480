//! What a ray can strike: the record of a strike, the scene primitives, the
//! participating medium, and the bounding-volume hierarchy over them.
//!
//! The central fact proved here: over a tree of spheres, a BVH query returns
//! a hit at exactly the smallest accepted parameter among all the spheres in
//! its leaves — the same answer a brute-force scan gives.
use vstd::prelude::*;

verus! {

broadcast use vstd::multiset::group_multiset_axioms, vstd::seq_lib::group_to_multiset_ensures;

use vstd::multiset::Multiset;
use crate::aabb::{Aabb, Axis, contains_box, slab_all, hits_box, surround_spec};
use crate::aabb::{lemma_slab_monotone, lemma_slab_convex};
use crate::fixed::{fmul, fdiv, tdiv, iabs, ONE};
use crate::fixed::{fp_mul, fp_div};
use crate::fixed::{lemma_mul_bound, lemma_tdiv};
use vstd::arithmetic::mul::lemma_mul_inequality;
use vstd::arithmetic::power2::pow2;
use crate::material::{Material, Isotropic, Texture, wf_material};
use crate::ray::{Ray, point_on};
use crate::rng::random_u32;
use crate::sphere::Sphere;
use crate::vec3::{Vec3, bounded, dot_raw};

/// The record of one ray-primitive intersection: parametric distance, world
/// point, surface normal, and the material struck. It lives only for the
/// duration of one intersection test and the scatter that follows.
pub struct Hit<'a> {
    pub t: i64,
    pub p: Vec3,
    pub normal: Vec3,
    pub material: &'a Material,
}

/// A participating medium: a boundary primitive, a density, and the
/// isotropic material that scatters inside it.
pub struct ConstantMedium {
    pub boundary: Box<Hitable>,
    pub density: i64,
    pub material: Material,
}

/// One node of the bounding-volume hierarchy: a left child, an optional
/// right child (absent only over a single primitive), and the cached box.
pub struct BvhNode {
    pub left: Box<Hitable>,
    pub right: Option<Box<Hitable>>,
    pub bbox: Aabb,
}

/// Everything a ray can be tested against.
pub enum Hitable {
    Sphere(Sphere),
    Medium(ConstantMedium),
    Node(BvhNode),
}

/// The box that bounds a hitable: a sphere's own box, a medium's boundary
/// box, a node's cached box.
pub open spec fn bbox_of(h: Hitable) -> Aabb
    decreases h,
{
    match h {
        Hitable::Sphere(s) => s.bbox_spec(),
        Hitable::Medium(m) => bbox_of(*m.boundary),
        Hitable::Node(n) => n.bbox,
    }
}

/// Well-formedness: spheres and densities are in range, and every node's
/// cached box is exactly the union of its children's boxes.
pub open spec fn wf_hitable(h: Hitable) -> bool
    decreases h,
{
    match h {
        Hitable::Sphere(s) => s.wf() && wf_material(s.material),
        Hitable::Medium(m) => wf_hitable(*m.boundary) && 1 <= m.density && wf_material(m.material),
        Hitable::Node(n) => {
            &&& wf_hitable(*n.left)
            &&& n.bbox.wf()
            &&& match n.right {
                Some(rt) => wf_hitable(*rt) && n.bbox == surround_spec(
                    bbox_of(*n.left),
                    bbox_of(*rt),
                ),
                None => n.bbox == bbox_of(*n.left),
            }
        },
    }
}

/// The multiset of primitives at the leaves of a hitable.
pub open spec fn prims(h: Hitable) -> Multiset<Hitable>
    decreases h,
{
    match h {
        Hitable::Node(n) => {
            let l = prims(*n.left);
            match n.right {
                Some(rt) => l.add(prims(*rt)),
                None => l,
            }
        },
        _ => Multiset::empty().insert(h),
    }
}

/// Every leaf under this hitable is a sphere.
pub open spec fn all_spheres(h: Hitable) -> bool
    decreases h,
{
    match h {
        Hitable::Sphere(_) => true,
        Hitable::Medium(_) => false,
        Hitable::Node(n) => all_spheres(*n.left) && match n.right {
            Some(rt) => all_spheres(*rt),
            None => true,
        },
    }
}

/// The parameter a single primitive reports, where that is deterministic:
/// a sphere's accepted root; nothing for anything else.
pub open spec fn prim_hit_t(p: Hitable, r: Ray, tmin: int, tmax: int) -> Option<int> {
    match p {
        Hitable::Sphere(s) => s.hit_t_spec(r, tmin, tmax),
        _ => None,
    }
}

/// The returned record is the one this leaf produces: for a sphere, its
/// accepted root with the surface normal and its material; for a medium,
/// a point on the ray with the fixed placeholder normal and the medium's
/// material; a node is no leaf.
pub open spec fn record_from(
    p: Hitable,
    r: Ray,
    tmin: int,
    tmax: int,
    t: int,
    pnt: Vec3,
    nrm: Vec3,
    mat: Material,
) -> bool {
    match p {
        Hitable::Sphere(s) => {
            &&& s.hit_t_spec(r, tmin, tmax) == Some(t)
            &&& point_on(r, t, pnt)
            &&& nrm.x as int == fdiv(pnt.x - s.center.x, s.radius as int)
            &&& nrm.y as int == fdiv(pnt.y - s.center.y, s.radius as int)
            &&& nrm.z as int == fdiv(pnt.z - s.center.z, s.radius as int)
            &&& mat == s.material
        },
        Hitable::Medium(m) => {
            &&& point_on(r, t, pnt)
            &&& nrm == (Vec3 { x: ONE, y: 0, z: 0 })
            &&& mat == m.material
        },
        Hitable::Node(_) => false,
    }
}

/// `res` is the nearest report over the multiset: nothing when no member
/// reports, else the smallest reported parameter.
pub open spec fn is_nearest(
    ms: Multiset<Hitable>,
    r: Ray,
    tmin: int,
    tmax: int,
    res: Option<int>,
) -> bool {
    match res {
        None => forall|p: Hitable| #[trigger] ms.contains(p) ==> prim_hit_t(p, r, tmin, tmax) is None,
        Some(t) => {
            &&& exists|p: Hitable| #[trigger] ms.contains(p) && prim_hit_t(p, r, tmin, tmax)
                == Some(t)
            &&& forall|p: Hitable| #[trigger] ms.contains(p) && prim_hit_t(p, r, tmin, tmax)
                is Some ==> t <= prim_hit_t(p, r, tmin, tmax)->Some_0
        },
    }
}

/// At most one value is the nearest report over a multiset. This is what
/// makes a hierarchy query interchangeable with a brute-force scan: both
/// are nearest reports over the same primitives, so they agree exactly.
pub proof fn lemma_nearest_unique(
    ms: Multiset<Hitable>,
    r: Ray,
    tmin: int,
    tmax: int,
    a: Option<int>,
    b: Option<int>,
)
    requires
        is_nearest(ms, r, tmin, tmax, a),
        is_nearest(ms, r, tmin, tmax, b),
    ensures
        a == b,
{
}

/// A tree whose leaves are exactly a list's spheres answers a query with
/// the same parameter as the brute-force scan of that list: each is the
/// nearest report over the same primitives, and that report is unique.
pub proof fn lemma_tree_agrees_with_scan(
    list: Seq<Hitable>,
    tree: Hitable,
    r: Ray,
    tmin: int,
    tmax: int,
    from_tree: Option<int>,
    from_scan: Option<int>,
)
    requires
        prims(tree) == list.to_multiset(),
        is_nearest(prims(tree), r, tmin, tmax, from_tree),
        is_nearest(list.to_multiset(), r, tmin, tmax, from_scan),
    ensures
        from_tree == from_scan,
{
    lemma_nearest_unique(list.to_multiset(), r, tmin, tmax, from_tree, from_scan);
}

/// Nearest reports over two multisets combine into the nearest report over
/// their union by taking the smaller parameter.
pub proof fn lemma_nearest_combine(
    msl: Multiset<Hitable>,
    msr: Multiset<Hitable>,
    r: Ray,
    tmin: int,
    tmax: int,
    rl: Option<int>,
    rr: Option<int>,
)
    requires
        is_nearest(msl, r, tmin, tmax, rl),
        is_nearest(msr, r, tmin, tmax, rr),
    ensures
        is_nearest(
            msl.add(msr),
            r,
            tmin,
            tmax,
            match (rl, rr) {
                (Some(a), Some(b)) => Some(if a < b { a } else { b }),
                (Some(a), None) => Some(a),
                (None, Some(b)) => Some(b),
                (None, None) => None,
            },
        ),
{
    let sum = msl.add(msr);
    assert forall|p: Hitable| #[trigger] sum.contains(p) implies msl.contains(p) || msr.contains(
        p,
    ) by {}
    assert forall|p: Hitable| msl.contains(p) || msr.contains(p) implies #[trigger] sum.contains(
        p,
    ) by {}
    match (rl, rr) {
        (Some(a), Some(b)) => {
            let pa = choose|p: Hitable| #[trigger] msl.contains(p) && prim_hit_t(p, r, tmin, tmax)
                == Some(a);
            let pb = choose|p: Hitable| #[trigger] msr.contains(p) && prim_hit_t(p, r, tmin, tmax)
                == Some(b);
            assert(sum.contains(pa) && sum.contains(pb));
        },
        (Some(a), None) => {
            let pa = choose|p: Hitable| #[trigger] msl.contains(p) && prim_hit_t(p, r, tmin, tmax)
                == Some(a);
            assert(sum.contains(pa));
        },
        (None, Some(b)) => {
            let pb = choose|p: Hitable| #[trigger] msr.contains(p) && prim_hit_t(p, r, tmin, tmax)
                == Some(b);
            assert(sum.contains(pb));
        },
        (None, None) => {},
    }
}

/// Every leaf of a well-formed hitable is well formed, its box is inside
/// the root box, and under a sphere-only root it is a sphere.
pub proof fn lemma_prims_facts(h: Hitable)
    requires
        wf_hitable(h),
    ensures
        forall|p: Hitable| #[trigger] prims(h).contains(p) ==> wf_hitable(p) && contains_box(
            bbox_of(h),
            bbox_of(p),
        ) && (all_spheres(h) ==> p is Sphere),
    decreases h,
{
    match h {
        Hitable::Node(n) => {
            lemma_prims_facts(*n.left);
            match n.right {
                Some(rt) => {
                    lemma_prims_facts(*rt);
                },
                None => {},
            }
            assert forall|p: Hitable| #[trigger] prims(h).contains(p) implies wf_hitable(p)
                && contains_box(bbox_of(h), bbox_of(p)) && (all_spheres(h) ==> p is Sphere) by {
                if prims(*n.left).contains(p) {
                    assert(contains_box(bbox_of(h), bbox_of(*n.left)));
                } else {
                    match n.right {
                        Some(rt) => {
                            assert(prims(*rt).contains(p));
                            assert(contains_box(bbox_of(h), bbox_of(*rt)));
                        },
                        None => {},
                    }
                }
            }
        },
        _ => {},
    }
}

/// When the root box turns the ray away over the whole range, no sphere in
/// the leaves reports anything: every accepted root sits inside its
/// sphere's box, which sits inside the root box.
pub proof fn lemma_box_prune(h: Hitable, r: Ray, tmin: int, tmax: int)
    requires
        wf_hitable(h),
        !hits_box(bbox_of(h), r, tmin, tmax),
    ensures
        forall|p: Hitable| #[trigger] prims(h).contains(p) ==> prim_hit_t(p, r, tmin, tmax)
            is None,
{
    lemma_prims_facts(h);
    assert forall|p: Hitable| #[trigger] prims(h).contains(p) implies prim_hit_t(
        p,
        r,
        tmin,
        tmax,
    ) is None by {
        if prim_hit_t(p, r, tmin, tmax) is Some {
            let s = p->Sphere_0;
            let t = prim_hit_t(p, r, tmin, tmax)->Some_0;
            assert(s.accepts(r, tmin, tmax, t));
            lemma_slab_monotone(s.bbox_spec(), bbox_of(h), r, t);
            assert(tmin <= t <= tmax && slab_all(bbox_of(h), r, t));
        }
    }
}

/// A hitable made only of spheres has only spheres among its leaves, and
/// conversely.
pub proof fn lemma_all_spheres_iff(h: Hitable)
    ensures
        all_spheres(h) <==> (forall|p: Hitable| #[trigger] prims(h).contains(p) ==> p is Sphere),
    decreases h,
{
    match h {
        Hitable::Node(n) => {
            lemma_all_spheres_iff(*n.left);
            match n.right {
                Some(rt) => {
                    lemma_all_spheres_iff(*rt);
                },
                None => {},
            }
            if forall|p: Hitable| #[trigger] prims(h).contains(p) ==> p is Sphere {
                assert forall|p: Hitable| #[trigger] prims(*n.left).contains(p) implies p
                    is Sphere by {
                    assert(prims(h).contains(p));
                }
                match n.right {
                    Some(rt) => {
                        assert forall|p: Hitable| #[trigger] prims(*rt).contains(p) implies p
                            is Sphere by {
                            assert(prims(h).contains(p));
                        }
                    },
                    None => {},
                }
            }
            if all_spheres(h) {
                assert forall|p: Hitable| #[trigger] prims(h).contains(p) implies p is Sphere by {
                    if prims(*n.left).contains(p) {
                    } else {
                        match n.right {
                            Some(rt) => {
                                assert(prims(*rt).contains(p));
                            },
                            None => {},
                        }
                    }
                }
            }
        },
        _ => {
            assert(prims(h).contains(h));
        },
    }
}

impl Hitable {
    /// The bounding box, as `bbox_of` describes it.
    pub fn bounding_box(&self) -> (b: Aabb)
        requires
            wf_hitable(*self),
        ensures
            b == bbox_of(*self),
            b.wf(),
        decreases *self, 1int,
    {
        match self {
            Hitable::Sphere(s) => s.bounding_box(),
            Hitable::Medium(m) => m.boundary.bounding_box(),
            Hitable::Node(n) => {
                proof {
                    lemma_bbox_of_wf(*self);
                }
                n.bbox
            },
        }
    }

    /// Intersection dispatch over the closed set of hitables.
    ///
    /// Whatever the randomness inside a medium does, a reported parameter
    /// lies in `[t_min, t_max]` and the struck material is well formed; and
    /// over spheres alone the reported parameter is exactly the nearest
    /// accepted root among all leaves — or nothing, when no leaf accepts.
    pub fn hit<'a>(&'a self, t_min: i64, t_max: i64, r: &Ray) -> (res: Option<Hit<'a>>)
        requires
            wf_hitable(*self),
            bounded(r.origin, 0x4000_0000),
            bounded(r.direction, 0x4000_0000),
            iabs(t_min as int) <= 0x80_0000_0000,
            iabs(t_max as int) <= 0x80_0000_0000,
        ensures
            match res {
                Some(h) => {
                    &&& t_min <= h.t <= t_max
                    &&& dot_raw(r.direction, r.direction) >= 1
                    &&& wf_material(*h.material)
                    &&& slab_all(bbox_of(*self), *r, h.t as int)
                    &&& (all_spheres(*self) ==> is_nearest(
                        prims(*self),
                        *r,
                        t_min as int,
                        t_max as int,
                        Some(h.t as int),
                    ))
                    &&& exists|p: Hitable| #[trigger] prims(*self).contains(p) && record_from(
                        p,
                        *r,
                        t_min as int,
                        t_max as int,
                        h.t as int,
                        h.p,
                        h.normal,
                        *h.material,
                    )
                },
                None => all_spheres(*self) ==> is_nearest(
                    prims(*self),
                    *r,
                    t_min as int,
                    t_max as int,
                    Option::<int>::None,
                ),
            },
            (*self) is Sphere ==> (match res {
                Some(h) => prim_hit_t(*self, *r, t_min as int, t_max as int) == Some(h.t as int),
                None => prim_hit_t(*self, *r, t_min as int, t_max as int) is None,
            }),
        decreases *self,
    {
        match self {
            Hitable::Sphere(s) => {
                let res = s.hit(t_min, t_max, r);
                proof {
                    assert(prims(*self).contains(*self));
                    match &res {
                        Some(h) => {
                            assert(s.hit_t_spec(*r, t_min as int, t_max as int) is Some);
                            assert(s.a_spec(*r) > 0);
                            assert(record_from(
                                *self,
                                *r,
                                t_min as int,
                                t_max as int,
                                h.t as int,
                                h.p,
                                h.normal,
                                *h.material,
                            ));
                        },
                        None => {},
                    }
                }
                res
            },
            Hitable::Medium(m) => {
                let res = m.hit(t_min, t_max, r);
                proof {
                    assert(prims(*self).contains(*self));
                    match &res {
                        Some(h) => {
                            assert(record_from(
                                *self,
                                *r,
                                t_min as int,
                                t_max as int,
                                h.t as int,
                                h.p,
                                h.normal,
                                *h.material,
                            ));
                        },
                        None => {},
                    }
                }
                res
            },
            Hitable::Node(n) => n.hit(t_min, t_max, r),
        }
    }
}

/// The box of a well-formed hitable is well formed.
pub proof fn lemma_bbox_of_wf(h: Hitable)
    requires
        wf_hitable(h),
    ensures
        bbox_of(h).wf(),
    decreases h,
{
    match h {
        Hitable::Medium(m) => lemma_bbox_of_wf(*m.boundary),
        _ => {},
    }
}

/// The deterministic clipping and sampling arithmetic of a medium: given
/// the boundary's entry and exit parameters, the query range, a free-flight
/// distance and the direction's length, the parameter reported, if any.
/// The entry is clipped up to the range's start and to zero, the exit down
/// to the range's end; an empty interval reports nothing; otherwise a hit
/// is reported exactly when the flight ends before the exit, at the entry
/// plus the flight's parametric width.
pub open spec fn medium_outcome(b1: int, b2: int, tmin: int, tmax: int, hd: int, len: int) -> Option<
    int,
> {
    let t1c = if b1 < tmin {
        tmin
    } else {
        b1
    };
    let t2c = if b2 > tmax {
        tmax
    } else {
        b2
    };
    if t1c >= t2c {
        None
    } else {
        let t1 = if t1c < 0 {
            0
        } else {
            t1c
        };
        if t1 >= t2c {
            None
        } else if hd < fmul(t2c - t1, len) {
            Some(t1 + fdiv(hd, len))
        } else {
            None
        }
    }
}

/// What a medium whose boundary is a sphere reports, as a function of the
/// free-flight distance drawn: the boundary is struck once over the wide
/// range and once more just past that strike, and the clipped interval is
/// sampled.
pub open spec fn medium_hit_t(m: ConstantMedium, r: Ray, tmin: int, tmax: int, hd: int) -> Option<
    int,
> {
    match prim_hit_t(*m.boundary, r, -65536000, 65536000) {
        None => None,
        Some(b1) => match prim_hit_t(*m.boundary, r, b1 + 7, 65536000) {
            None => None,
            Some(b2) => medium_outcome(
                b1,
                b2,
                tmin,
                tmax,
                hd,
                crate::vec3::len_spec(r.direction),
            ),
        },
    }
}

impl ConstantMedium {
    pub fn new(boundary: Box<Hitable>, density: i64, texture: Texture) -> (m: ConstantMedium)
        ensures
            m.boundary == boundary,
            m.density == density,
            m.material == Material::Isotropic(Isotropic { albedo: texture }),
    {
        ConstantMedium { boundary, density, material: Material::Isotropic(Isotropic::new(texture)) }
    }

    /// Volumetric intersection: find where the ray passes through the
    /// boundary, draw a random free-flight distance from the density, and
    /// report an interior hit when the flight ends inside.
    pub fn hit<'a>(&'a self, t_min: i64, t_max: i64, r: &Ray) -> (res: Option<Hit<'a>>)
        requires
            wf_hitable(Hitable::Medium(*self)),
            bounded(r.origin, 0x4000_0000),
            bounded(r.direction, 0x4000_0000),
            iabs(t_min as int) <= 0x80_0000_0000,
            iabs(t_max as int) <= 0x80_0000_0000,
        ensures
            match res {
                Some(h) => {
                    &&& t_min <= h.t <= t_max
                    &&& dot_raw(r.direction, r.direction) >= 1
                    &&& wf_material(*h.material)
                    &&& slab_all(bbox_of(Hitable::Medium(*self)), *r, h.t as int)
                    &&& h.material == self.material
                    &&& point_on(*r, h.t as int, h.p)
                    &&& h.normal == (Vec3 { x: ONE, y: 0, z: 0 })
                },
                None => true,
            },
            (*self.boundary) is Sphere && res is Some ==> exists|u: u32|
                medium_hit_t(
                    *self,
                    *r,
                    t_min as int,
                    t_max as int,
                    #[trigger] free_path_spec(u, self.density as int),
                ) == Some(res->Some_0.t as int),
            (*self.boundary) is Sphere && res is None ==> exists|u: u32|
                medium_hit_t(
                    *self,
                    *r,
                    t_min as int,
                    t_max as int,
                    #[trigger] free_path_spec(u, self.density as int),
                ) is None,
        decreases Hitable::Medium(*self), 0int,
    {
        let hit1 = self.boundary.hit(-65536000, 65536000, r);
        match hit1 {
            None => {
                proof {
                    if (*self.boundary) is Sphere {
                        assert(medium_hit_t(
                            *self,
                            *r,
                            t_min as int,
                            t_max as int,
                            free_path_spec(0u32, self.density as int),
                        ) is None);
                    }
                }
                None
            },
            Some(h1) => {
                let hit2 = self.boundary.hit(h1.t + 7, 65536000, r);
                match hit2 {
                    None => {
                        proof {
                            if (*self.boundary) is Sphere {
                                assert(medium_hit_t(
                                    *self,
                                    *r,
                                    t_min as int,
                                    t_max as int,
                                    free_path_spec(0u32, self.density as int),
                                ) is None);
                            }
                        }
                        None
                    },
                    Some(h2) => {
                        let mut t1 = h1.t;
                        let mut t2 = h2.t;
                        if t1 < t_min {
                            t1 = t_min;
                        }
                        if t2 > t_max {
                            t2 = t_max;
                        }
                        if t1 >= t2 {
                            proof {
                                lemma_medium_interval_empty(
                                    *self,
                                    *r,
                                    t_min as int,
                                    t_max as int,
                                    h1.t as int,
                                    h2.t as int,
                                );
                            }
                            return None;
                        }
                        if t1 < 0 {
                            t1 = 0;
                        }
                        if t1 >= t2 {
                            proof {
                                lemma_medium_interval_empty(
                                    *self,
                                    *r,
                                    t_min as int,
                                    t_max as int,
                                    h1.t as int,
                                    h2.t as int,
                                );
                            }
                            return None;
                        }
                        let dir_len = r.direction.length();
                        proof {
                            assert(dir_len >= 1) by {
                                assert(dot_raw(r.direction, r.direction) >= 1);
                            }
                            crate::vec3::lemma_dot_raw_bound(
                                r.direction,
                                r.direction,
                                0x4000_0000,
                            );
                            assert(dir_len as int <= 0x1_0000_0000) by (nonlinear_arith)
                                requires
                                    (dir_len as int) * (dir_len as int) <= dot_raw(
                                        r.direction,
                                        r.direction,
                                    ),
                                    dot_raw(r.direction, r.direction) <= 3 * (0x4000_0000
                                        * 0x4000_0000),
                                    dir_len >= 0,
                            ;
                            lemma_mul_bound(
                                t2 - t1 as int,
                                dir_len as int,
                                0x100_0000_0000,
                                0x1_0000_0000,
                            );
                            lemma_tdiv((t2 - t1 as int) * (dir_len as int), ONE as int);
                        }
                        let distance_inside = fp_mul(t2 - t1, dir_len);
                        let u = random_u32();
                        let hit_distance = free_path(u, self.density);
                        if hit_distance < distance_inside {
                            proof {
                                lemma_tdiv((hit_distance as int) * (ONE as int), dir_len as int);
                                lemma_mul_bound(
                                    hit_distance as int,
                                    ONE as int,
                                    0x20_0000_0000,
                                    65536,
                                );
                            }
                            let dt = fp_div(hit_distance, dir_len);
                            proof {
                                lemma_free_flight_stays_inside(
                                    hit_distance as int,
                                    distance_inside as int,
                                    t1 as int,
                                    t2 as int,
                                    dir_len as int,
                                );
                            }
                            let t = t1 + dt;
                            proof {
                                // The reported parameter lies between the
                                // two boundary strikes, and the boundary's
                                // box holds the ray at both, so it holds
                                // the ray here too.
                                lemma_slab_convex(
                                    bbox_of(*self.boundary),
                                    *r,
                                    h1.t as int,
                                    h2.t as int,
                                    t as int,
                                );
                            }
                            let p = r.point_at_parameter(t);
                            proof {
                                if (*self.boundary) is Sphere {
                                    assert(medium_hit_t(
                                        *self,
                                        *r,
                                        t_min as int,
                                        t_max as int,
                                        free_path_spec(u, self.density as int),
                                    ) == Some(t as int));
                                }
                            }
                            Some(
                                Hit {
                                    t,
                                    p,
                                    normal: Vec3 { x: ONE, y: 0, z: 0 },
                                    material: &self.material,
                                },
                            )
                        } else {
                            proof {
                                if (*self.boundary) is Sphere {
                                    assert(medium_hit_t(
                                        *self,
                                        *r,
                                        t_min as int,
                                        t_max as int,
                                        free_path_spec(u, self.density as int),
                                    ) is None);
                                }
                            }
                            None
                        }
                    },
                }
            },
        }
    }

    pub fn bounding_box(&self) -> (b: Aabb)
        requires
            wf_hitable(Hitable::Medium(*self)),
        ensures
            b == bbox_of(Hitable::Medium(*self)),
            b.wf(),
        decreases Hitable::Medium(*self), 0int,
    {
        self.boundary.bounding_box()
    }
}

/// When the clipped interval between the boundary's two strikes is empty,
/// the medium reports nothing whatever the draw.
proof fn lemma_medium_interval_empty(
    m: ConstantMedium,
    r: Ray,
    tmin: int,
    tmax: int,
    b1: int,
    b2: int,
)
    requires
        (*m.boundary) is Sphere ==> {
            &&& prim_hit_t(*m.boundary, r, -65536000, 65536000) == Some(b1)
            &&& prim_hit_t(*m.boundary, r, b1 + 7, 65536000) == Some(b2)
        },
        ({
            let t1c = if b1 < tmin {
                tmin
            } else {
                b1
            };
            let t2c = if b2 > tmax {
                tmax
            } else {
                b2
            };
            t1c >= t2c || (if t1c < 0 {
                0
            } else {
                t1c
            }) >= t2c
        }),
    ensures
        (*m.boundary) is Sphere ==> exists|u: u32|
            medium_hit_t(m, r, tmin, tmax, #[trigger] free_path_spec(u, m.density as int))
                is None,
{
    if (*m.boundary) is Sphere {
        assert(medium_hit_t(m, r, tmin, tmax, free_path_spec(0u32, m.density as int)) is None);
    }
}

/// A free flight shorter than the spanned distance ends strictly before the
/// far end of the span: the quotient by the direction length cannot reach
/// the span's parametric width.
proof fn lemma_free_flight_stays_inside(hd: int, di: int, t1: int, t2: int, len: int)
    requires
        len >= 1,
        0 <= hd,
        hd < di,
        t1 < t2,
        di == fmul(t2 - t1, len),
    ensures
        0 <= fdiv(hd, len),
        t1 + fdiv(hd, len) < t2,
{
    let delta = t2 - t1;
    let dt = fdiv(hd, len);
    lemma_tdiv(hd * (ONE as int), len);
    lemma_tdiv(delta * len, ONE as int);
    assert(delta * len >= 0) by (nonlinear_arith)
        requires
            delta >= 1,
            len >= 1,
    ;
    if dt >= delta {
        lemma_mul_inequality(delta, dt, len);
        assert(delta * len <= dt * len);
        assert(len * dt <= hd * (ONE as int));
        assert((ONE as int) * di <= delta * len);
        assert(hd * (ONE as int) == (ONE as int) * hd) by (nonlinear_arith);
        assert(dt * len == len * dt) by (nonlinear_arith);
        assert((ONE as int) * (hd + 1) <= (ONE as int) * di) by (nonlinear_arith)
            requires
                hd + 1 <= di,
        ;
        assert(false);
    }
}

impl BvhNode {
    /// Query the tree: prune when the node's box turns the ray away, else
    /// take the nearer of the children's reports.
    pub fn hit<'a>(&'a self, t_min: i64, t_max: i64, r: &Ray) -> (res: Option<Hit<'a>>)
        requires
            wf_hitable(Hitable::Node(*self)),
            bounded(r.origin, 0x4000_0000),
            bounded(r.direction, 0x4000_0000),
            iabs(t_min as int) <= 0x80_0000_0000,
            iabs(t_max as int) <= 0x80_0000_0000,
        ensures
            match res {
                Some(h) => {
                    &&& t_min <= h.t <= t_max
                    &&& dot_raw(r.direction, r.direction) >= 1
                    &&& wf_material(*h.material)
                    &&& slab_all(self.bbox, *r, h.t as int)
                    &&& (all_spheres(Hitable::Node(*self)) ==> is_nearest(
                        prims(Hitable::Node(*self)),
                        *r,
                        t_min as int,
                        t_max as int,
                        Some(h.t as int),
                    ))
                    &&& exists|p: Hitable| #[trigger] prims(Hitable::Node(*self)).contains(p)
                        && record_from(
                        p,
                        *r,
                        t_min as int,
                        t_max as int,
                        h.t as int,
                        h.p,
                        h.normal,
                        *h.material,
                    )
                },
                None => all_spheres(Hitable::Node(*self)) ==> is_nearest(
                    prims(Hitable::Node(*self)),
                    *r,
                    t_min as int,
                    t_max as int,
                    Option::<int>::None,
                ),
            },
        decreases Hitable::Node(*self), 0int,
    {
        let me: Ghost<Hitable> = Ghost(Hitable::Node(*self));
        if self.bbox.hit(r, t_min, t_max) {
            let left_hit = self.left.hit(t_min, t_max, r);
            let right_hit = match &self.right {
                Some(x) => x.hit(t_min, t_max, r),
                None => None,
            };
            proof {
                match &self.right {
                    Some(rt) => {
                        assert forall|p: Hitable| #[trigger] prims(*self.left).contains(p)
                            implies prims(me@).contains(p) by {}
                        assert forall|p: Hitable| #[trigger] prims(**rt).contains(p) implies
                            prims(me@).contains(p) by {}
                    },
                    None => {},
                }
                if all_spheres(me@) {
                    match &self.right {
                        Some(rt) => {
                            let lt = match &left_hit {
                                Some(h) => Some(h.t as int),
                                None => Option::<int>::None,
                            };
                            let rtt = match &right_hit {
                                Some(h) => Some(h.t as int),
                                None => Option::<int>::None,
                            };
                            lemma_nearest_combine(
                                prims(*self.left),
                                prims(**rt),
                                *r,
                                t_min as int,
                                t_max as int,
                                lt,
                                rtt,
                            );
                        },
                        None => {},
                    }
                }
            }
            proof {
                match &left_hit {
                    Some(lh) => {
                        lemma_slab_monotone(bbox_of(*self.left), self.bbox, *r, lh.t as int);
                    },
                    None => {},
                }
                match (&right_hit, &self.right) {
                    (Some(rh), Some(rt)) => {
                        lemma_slab_monotone(bbox_of(**rt), self.bbox, *r, rh.t as int);
                    },
                    _ => {},
                }
            }
            match (left_hit, right_hit) {
                (Some(lh), Some(rh)) => {
                    if lh.t < rh.t {
                        Some(lh)
                    } else {
                        Some(rh)
                    }
                },
                (Some(lh), None) => Some(lh),
                (None, Some(rh)) => Some(rh),
                (None, None) => None,
            }
        } else {
            proof {
                if all_spheres(me@) {
                    lemma_box_prune(me@, *r, t_min as int, t_max as int);
                }
            }
            None
        }
    }

    pub fn bounding_box(&self) -> (b: Aabb)
        requires
            wf_hitable(Hitable::Node(*self)),
        ensures
            b == self.bbox,
            b.wf(),
    {
        self.bbox
    }
}



/// The root box of a well-formed tree is exactly the union of its leaves'
/// boxes: it contains every leaf box, and each of its six faces is attained
/// by some leaf's box.
pub proof fn lemma_root_box_tight(h: Hitable)
    requires
        wf_hitable(h),
    ensures
        forall|p: Hitable| #[trigger] prims(h).contains(p) ==> contains_box(bbox_of(h), bbox_of(p)),
        exists|p: Hitable| #[trigger] prims(h).contains(p) && bbox_of(p).min.x == bbox_of(h).min.x,
        exists|p: Hitable| #[trigger] prims(h).contains(p) && bbox_of(p).min.y == bbox_of(h).min.y,
        exists|p: Hitable| #[trigger] prims(h).contains(p) && bbox_of(p).min.z == bbox_of(h).min.z,
        exists|p: Hitable| #[trigger] prims(h).contains(p) && bbox_of(p).max.x == bbox_of(h).max.x,
        exists|p: Hitable| #[trigger] prims(h).contains(p) && bbox_of(p).max.y == bbox_of(h).max.y,
        exists|p: Hitable| #[trigger] prims(h).contains(p) && bbox_of(p).max.z == bbox_of(h).max.z,
    decreases h,
{
    lemma_prims_facts(h);
    match h {
        Hitable::Node(n) => {
            lemma_root_box_tight(*n.left);
            assert forall|p: Hitable| #[trigger] prims(*n.left).contains(p) implies prims(
                h,
            ).contains(p) by {}
            match n.right {
                Some(rt) => {
                    lemma_root_box_tight(*rt);
                    assert forall|p: Hitable| #[trigger] prims(*rt).contains(p) implies prims(
                        h,
                    ).contains(p) by {}
                },
                None => {},
            }
        },
        _ => {
            assert(prims(h).contains(h));
        },
    }
}

/// Brute-force intersection: test every primitive of the list over the full
/// range and keep the nearest report, exactly as the tree query would.
pub fn hit_list<'a>(list: &'a Vec<Hitable>, t_min: i64, t_max: i64, r: &Ray) -> (res: Option<
    Hit<'a>,
>)
    requires
        forall|i: int| 0 <= i < list@.len() ==> wf_hitable(#[trigger] list@[i]),
        bounded(r.origin, 0x4000_0000),
        bounded(r.direction, 0x4000_0000),
        iabs(t_min as int) <= 0x80_0000_0000,
        iabs(t_max as int) <= 0x80_0000_0000,
    ensures
        (forall|i: int| 0 <= i < list@.len() ==> (#[trigger] list@[i]) is Sphere) ==> is_nearest(
            list@.to_multiset(),
            *r,
            t_min as int,
            t_max as int,
            match res {
                Some(h) => Some(h.t as int),
                None => Option::<int>::None,
            },
        ),
        match res {
            Some(h) => t_min <= h.t <= t_max && wf_material(*h.material),
            None => true,
        },
{
    let ghost full = list@.to_multiset();
    let mut best: Option<Hit<'a>> = None;
    let mut i: usize = 0;
    while i < list.len()
        invariant
            0 <= i <= list@.len(),
            forall|j: int| 0 <= j < list@.len() ==> wf_hitable(#[trigger] list@[j]),
            bounded(r.origin, 0x4000_0000),
            bounded(r.direction, 0x4000_0000),
            iabs(t_min as int) <= 0x80_0000_0000,
            iabs(t_max as int) <= 0x80_0000_0000,
            (forall|j: int| 0 <= j < list@.len() ==> (#[trigger] list@[j]) is Sphere)
                ==> is_nearest(
                list@.subrange(0, i as int).to_multiset(),
                *r,
                t_min as int,
                t_max as int,
                match best {
                    Some(h) => Some(h.t as int),
                    None => Option::<int>::None,
                },
            ),
            match best {
                Some(h) => t_min <= h.t <= t_max && wf_material(*h.material),
                None => true,
            },
        decreases list@.len() - i,
    {
        let ghost pre = list@.subrange(0, i as int);
        let cand = list[i].hit(t_min, t_max, r);
        proof {
            if forall|j: int| 0 <= j < list@.len() ==> (#[trigger] list@[j]) is Sphere {
                assert(all_spheres(list@[i as int]));
                let bt = match &best {
                    Some(h) => Some(h.t as int),
                    None => Option::<int>::None,
                };
                let ct = match &cand {
                    Some(h) => Some(h.t as int),
                    None => Option::<int>::None,
                };
                lemma_nearest_combine(
                    pre.to_multiset(),
                    prims(list@[i as int]),
                    *r,
                    t_min as int,
                    t_max as int,
                    bt,
                    ct,
                );
                assert(list@.subrange(0, i as int + 1) =~= pre.push(list@[i as int]));
                lemma_prims_single(list@[i as int]);
                assert(list@.subrange(0, i as int + 1).to_multiset() =~= pre.to_multiset().add(
                    prims(list@[i as int]),
                ));
            }
        }
        best = match (best, cand) {
            (Some(b), Some(c)) => if b.t < c.t {
                Some(b)
            } else {
                Some(c)
            },
            (Some(b), None) => Some(b),
            (None, Some(c)) => Some(c),
            (None, None) => None,
        };
        i = i + 1;
    }
    proof {
        assert(list@.subrange(0, list@.len() as int) =~= list@);
    }
    best
}

/// A hitable that is not a node carries itself as its one leaf.
proof fn lemma_prims_single(h: Hitable)
    requires
        !(h is Node),
    ensures
        prims(h) =~= Multiset::empty().insert(h),
{
}

/// Scene construction can fail only one way: an empty primitive list.
#[derive(Clone, Copy, Debug, PartialEq, Eq, Structural)]
pub enum SceneError {
    InvalidInput,
}

/// The sort key of the surface-area-heuristic split: the least corner of
/// the bounding box along the chosen axis.
pub open spec fn axis_key(h: Hitable, a: Axis) -> int {
    match a {
        Axis::X => bbox_of(h).min.x as int,
        Axis::Y => bbox_of(h).min.y as int,
        Axis::Z => bbox_of(h).min.z as int,
    }
}

/// `pi` carries each output position back to a distinct input position and
/// preserves the input order of entries with equal keys: the output is a
/// stable rearrangement of the input.
pub open spec fn stable_perm(a: Seq<Hitable>, b: Seq<Hitable>, pi: Seq<int>, ax: Axis) -> bool {
    &&& pi.len() == b.len()
    &&& b.len() == a.len()
    &&& forall|i: int| 0 <= i < pi.len() ==> 0 <= #[trigger] pi[i] < a.len() && b[i] == a[pi[i]]
    &&& forall|i: int, j: int| 0 <= i < j < pi.len() ==> #[trigger] pi[i] != #[trigger] pi[j]
    &&& forall|i: int, j: int|
        0 <= i < j < b.len() && axis_key(b[i], ax) == axis_key(b[j], ax) ==> #[trigger] pi[i]
            < #[trigger] pi[j]
}

/// Keys do not decrease along the run.
pub open spec fn sorted_along(s: Seq<Hitable>, a: Axis) -> bool {
    forall|i: int, j: int|
        0 <= i < j < s.len() ==> axis_key(#[trigger] s[i], a) <= axis_key(#[trigger] s[j], a)
}

/// The box of the primitives up to index `i` inclusive, folded from the
/// front exactly as the build folds it.
pub open spec fn enclosing_upto(s: Seq<Hitable>, i: int) -> Aabb
    recommends
        0 <= i < s.len(),
    decreases i,
{
    if i <= 0 {
        bbox_of(s[0])
    } else {
        surround_spec(enclosing_upto(s, i - 1), bbox_of(s[i]))
    }
}

/// The box of the primitives from index `i` on, folded from the back
/// exactly as the build folds it.
pub open spec fn enclosing_from(s: Seq<Hitable>, i: int) -> Aabb
    recommends
        0 <= i < s.len(),
    decreases s.len() - i,
{
    if i >= s.len() - 1 {
        bbox_of(s[s.len() - 1])
    } else {
        surround_spec(enclosing_from(s, i + 1), bbox_of(s[i]))
    }
}

/// The cost the surface-area heuristic assigns to splitting after index
/// `i`: the primitive count of each side weighted by its enclosing area.
pub open spec fn sah_cost(s: Seq<Hitable>, i: int) -> int {
    i * enclosing_upto(s, i).area_spec() + (s.len() - 1 - i) * enclosing_from(s, i + 1).area_spec()
}

/// `i` is the first index of least split cost.
pub open spec fn first_min_sah(s: Seq<Hitable>, i: int) -> bool {
    &&& 0 <= i < s.len() - 1
    &&& forall|j: int| 0 <= j < s.len() - 1 ==> sah_cost(s, i) <= #[trigger] sah_cost(s, j)
    &&& forall|j: int| 0 <= j < i ==> #[trigger] sah_cost(s, j) > sah_cost(s, i)
}

fn key_of(h: &Hitable, a: Axis) -> (k: i64)
    requires
        wf_hitable(*h),
    ensures
        k as int == axis_key(*h, a),
{
    let bb = h.bounding_box();
    match a {
        Axis::X => bb.min.x,
        Axis::Y => bb.min.y,
        Axis::Z => bb.min.z,
    }
}

/// Sort primitives by their box key along one axis, by repeatedly taking
/// the first primitive of least key. The contract carries a witness that
/// the output is a permutation of the input in which entries of equal key
/// keep their original order: the sort is stable.
fn sort_by_key(list: Vec<Hitable>, axis: Axis) -> (out: Vec<Hitable>)
    requires
        forall|i: int| 0 <= i < list@.len() ==> wf_hitable(#[trigger] list@[i]),
    ensures
        out@.len() == list@.len(),
        out@.to_multiset() == list@.to_multiset(),
        forall|i: int| 0 <= i < out@.len() ==> wf_hitable(#[trigger] out@[i]),
        forall|i: int| 0 <= i < out@.len() ==> list@.contains(#[trigger] out@[i]),
        forall|i: int, j: int|
            0 <= i < j < out@.len() ==> axis_key(#[trigger] out@[i], axis) <= axis_key(
                #[trigger] out@[j],
                axis,
            ),
        exists|pi: Seq<int>| #[trigger] stable_perm(list@, out@, pi, axis),
{
    let ghost orig = list@.to_multiset();
    let ghost n0 = list@.len();
    let ghost list0 = list@;
    let mut rest = list;
    let mut out: Vec<Hitable> = Vec::new();
    let ghost mut rem: Seq<int> = Seq::new(n0, |i: int| i);
    let ghost mut pi: Seq<int> = Seq::empty();
    while rest.len() > 0
        invariant
            out@.len() + rest@.len() == n0,
            out@.to_multiset().add(rest@.to_multiset()) == orig,
            list0.len() == n0,
            pi.len() == out@.len(),
            rem.len() == rest@.len(),
            forall|i: int| 0 <= i < rem.len() ==> 0 <= #[trigger] rem[i] < n0 && rest@[i]
                == list0[rem[i]],
            forall|i: int, j: int| 0 <= i < j < rem.len() ==> #[trigger] rem[i] < #[trigger] rem[j],
            forall|i: int| 0 <= i < pi.len() ==> 0 <= #[trigger] pi[i] < n0 && out@[i]
                == list0[pi[i]],
            forall|i: int, j: int| 0 <= i < j < pi.len() ==> #[trigger] pi[i] != #[trigger] pi[j],
            forall|i: int, j: int|
                0 <= i < pi.len() && 0 <= j < rem.len() ==> #[trigger] pi[i] != #[trigger] rem[j],
            forall|i: int, j: int|
                0 <= i < j < out@.len() && axis_key(out@[i], axis) == axis_key(out@[j], axis)
                    ==> #[trigger] pi[i] < #[trigger] pi[j],
            forall|i: int, j: int|
                0 <= i < out@.len() && 0 <= j < rest@.len() && axis_key(out@[i], axis)
                    == axis_key(rest@[j], axis) ==> #[trigger] pi[i] < #[trigger] rem[j],
            forall|i: int| 0 <= i < out@.len() ==> wf_hitable(#[trigger] out@[i]),
            forall|i: int| 0 <= i < rest@.len() ==> wf_hitable(#[trigger] rest@[i]),
            forall|i: int, j: int|
                0 <= i < j < out@.len() ==> axis_key(#[trigger] out@[i], axis) <= axis_key(
                    #[trigger] out@[j],
                    axis,
                ),
            forall|i: int, j: int|
                0 <= i < out@.len() && 0 <= j < rest@.len() ==> axis_key(
                    #[trigger] out@[i],
                    axis,
                ) <= axis_key(#[trigger] rest@[j], axis),
        decreases rest@.len(),
    {
        let mut mi: usize = 0;
        let mut k: usize = 1;
        while k < rest.len()
            invariant
                rest@.len() >= 1,
                0 <= mi < rest@.len(),
                k <= rest@.len(),
                forall|j: int|
                    0 <= j < k ==> axis_key(rest@[mi as int], axis) <= axis_key(
                        #[trigger] rest@[j],
                        axis,
                    ),
                forall|j: int|
                    0 <= j < mi ==> axis_key(#[trigger] rest@[j], axis) > axis_key(
                        rest@[mi as int],
                        axis,
                    ),
                forall|i: int| 0 <= i < rest@.len() ==> wf_hitable(#[trigger] rest@[i]),
            decreases rest@.len() - k,
        {
            if key_of(&rest[k], axis) < key_of(&rest[mi], axis) {
                mi = k;
            }
            k = k + 1;
        }
        let ghost rest0 = rest@;
        let ghost out0 = out@;
        let ghost rem0 = rem;
        let ghost pi0 = pi;
        let ghost origin = rem[mi as int];
        let p = rest.remove(mi);
        out.push(p);
        proof {
            pi = pi0.push(origin);
            rem = rem0.remove(mi as int);
            assert(rest@ == rest0.remove(mi as int));
            assert(out@ == out0.push(p));
            assert forall|i: int| 0 <= i < rem.len() implies 0 <= #[trigger] rem[i] < n0
                && rest@[i] == list0[rem[i]] by {
                assert(rem[i] == if i < mi as int {
                    rem0[i]
                } else {
                    rem0[i + 1]
                });
                assert(rest@[i] == if i < mi as int {
                    rest0[i]
                } else {
                    rest0[i + 1]
                });
            }
            assert forall|i: int, j: int| 0 <= i < j < rem.len() implies #[trigger] rem[i]
                < #[trigger] rem[j] by {
                assert(rem[i] == if i < mi as int {
                    rem0[i]
                } else {
                    rem0[i + 1]
                });
                assert(rem[j] == if j < mi as int {
                    rem0[j]
                } else {
                    rem0[j + 1]
                });
            }
            // The extracted element is the first of least key, so any
            // remaining element of equal key stood after it and keeps a
            // later origin.
            assert forall|i: int, j: int|
                0 <= i < out@.len() && 0 <= j < rest@.len() && axis_key(out@[i], axis)
                    == axis_key(rest@[j], axis) implies #[trigger] pi[i] < #[trigger] rem[j] by {
                let j0 = if j < mi as int {
                    j
                } else {
                    j + 1
                };
                assert(rest@[j] == rest0[j0] && rem[j] == rem0[j0]);
                if i < out0.len() {
                    assert(out@[i] == out0[i] && pi[i] == pi0[i]);
                } else {
                    assert(out@[i] == p && pi[i] == origin);
                    assert(axis_key(rest0[j0], axis) >= axis_key(rest0[mi as int], axis));
                    assert(j0 > mi as int);
                }
            }
            assert forall|i: int, j: int|
                0 <= i < j < out@.len() && axis_key(out@[i], axis) == axis_key(out@[j], axis)
                    implies #[trigger] pi[i] < #[trigger] pi[j] by {
                if j < out0.len() {
                    assert(out@[i] == out0[i] && out@[j] == out0[j]);
                } else {
                    assert(out@[j] == p && pi[j] == origin && out@[i] == out0[i] && pi[i]
                        == pi0[i]);
                }
            }
            assert(out@.to_multiset().add(rest@.to_multiset()) =~= orig) by {
                assert(rest0.remove(mi as int).to_multiset() == rest0.to_multiset().remove(
                    rest0[mi as int],
                ));
                assert(out0.push(p).to_multiset() =~= out0.to_multiset().insert(p));
                assert(rest0.to_multiset().contains(p)) by {
                    assert(rest0.contains(p)) by {
                        assert(rest0[mi as int] == p);
                    }
                }
            }
            assert forall|i: int, j: int|
                0 <= i < out@.len() && 0 <= j < rest@.len() implies axis_key(
                #[trigger] out@[i],
                axis,
            ) <= axis_key(#[trigger] rest@[j], axis) by {
                assert(rest@[j] == if j < mi as int {
                    rest0[j]
                } else {
                    rest0[j + 1]
                });
                if i < out0.len() {
                    assert(out@[i] == out0[i]);
                } else {
                    assert(out@[i] == p);
                }
            }
            assert forall|i: int| 0 <= i < rest@.len() implies wf_hitable(
                #[trigger] rest@[i],
            ) by {
                assert(rest@[i] == if i < mi as int {
                    rest0[i]
                } else {
                    rest0[i + 1]
                });
            }
        }
    }
    proof {
        assert(stable_perm(list0, out@, pi, axis));
        assert forall|i: int| 0 <= i < out@.len() implies list@.contains(#[trigger] out@[i]) by {
            assert(out@.to_multiset().count(out@[i]) > 0) by {
                assert(out@.contains(out@[i]));
            }
            assert(list@.to_multiset().count(out@[i]) > 0);
        }
    }
    out
}

impl BvhNode {
    /// Build a tree over the primitives with a surface-area-heuristic
    /// split: sort stably along the longest axis of the whole set's box,
    /// pick the first split index whose count-weighted child areas are
    /// cheapest, and recurse on the two contiguous halves; one or two
    /// primitives become direct leaves. An empty input is refused. The
    /// contract states all of it: the tree is well formed, its leaves are
    /// exactly the input, and for three or more primitives the children
    /// are subtrees over the two halves of a stably sorted order cut at
    /// the first minimum-cost index.
    pub fn new(list: Vec<Hitable>) -> (res: Result<BvhNode, SceneError>)
        requires
            forall|i: int| 0 <= i < list@.len() ==> wf_hitable(#[trigger] list@[i]),
            forall|i: int| 0 <= i < list@.len() ==> !((#[trigger] list@[i]) is Node),
            list@.len() <= 0x1_0000_0000,
        ensures
            res is Ok <==> list@.len() >= 1,
            match res {
                Ok(node) => {
                    &&& wf_hitable(Hitable::Node(node))
                    &&& prims(Hitable::Node(node)) == list@.to_multiset()
                    &&& (node.right is Some <==> list@.len() >= 2)
                    &&& (list@.len() == 1 ==> node.right is None && *node.left == list@[0])
                    &&& (list@.len() == 2 ==> node.right is Some && ((*node.left == list@[0]
                        && *(node.right->Some_0) == list@[1]) || (*node.left == list@[1]
                        && *(node.right->Some_0) == list@[0])))
                    &&& (list@.len() >= 3 ==> exists|s: Seq<Hitable>, pi: Seq<int>, i: int|
                        {
                            &&& #[trigger] first_min_sah(s, i)
                            &&& #[trigger] stable_perm(
                                list@,
                                s,
                                pi,
                                enclosing_upto(list@, list@.len() - 1).longest_axis_spec(),
                            )
                            &&& s.to_multiset() == list@.to_multiset()
                            &&& sorted_along(
                                s,
                                enclosing_upto(
                                    list@,
                                    list@.len() - 1,
                                ).longest_axis_spec(),
                            )
                            &&& (*node.left) is Node
                            &&& (*(node.right->Some_0)) is Node
                            &&& prims(*node.left) == s.subrange(0, i + 1).to_multiset()
                            &&& prims(*(node.right->Some_0)) == s.subrange(
                                i + 1,
                                s.len() as int,
                            ).to_multiset()
                        })
                },
                Err(e) => e == SceneError::InvalidInput,
            },
        decreases list@.len(),
    {
        let n = list.len();
        if n == 0 {
            return Err(SceneError::InvalidInput);
        }
        // The box of the whole input chooses the split axis.
        let mut main_bbox = list[0].bounding_box();
        let mut i: usize = 1;
        while i < n
            invariant
                1 <= i <= n,
                n == list@.len(),
                main_bbox.wf(),
                main_bbox == enclosing_upto(list@, i - 1),
                forall|j: int| 0 <= j < list@.len() ==> wf_hitable(#[trigger] list@[j]),
            decreases n - i,
        {
            main_bbox = crate::aabb::surrounding_bbox(main_bbox, list[i].bounding_box());
            i = i + 1;
        }
        let axis = main_bbox.longest_axis();
        let ghost input = list@;
        let sorted = sort_by_key(list, axis);
        proof {
            assert forall|i: int| 0 <= i < sorted@.len() implies !((#[trigger] sorted@[i])
                is Node) by {
                let j = choose|j: int| 0 <= j < input.len() && input[j] == sorted@[i];
            }
        }
        if n == 1 {
            let ghost sorted0 = sorted@;
            let mut sorted = sorted;
            let h = sorted.remove(0);
            let bbox = h.bounding_box();
            proof {
                assert(input =~= Seq::empty().push(input[0]));
                assert(input.to_multiset() =~= Multiset::empty().insert(input[0]));
                assert(sorted0 =~= Seq::empty().push(h));
                assert(sorted0.to_multiset() =~= Multiset::empty().insert(h));
                assert(Multiset::empty().insert(h).count(h) == 1);
                assert(input.to_multiset().count(h) >= 1);
                assert(h == input[0]);
            }
            let node = BvhNode { left: Box::new(h), right: None, bbox };
            proof {
                assert(!(h is Node));
                assert(prims(Hitable::Node(node)) == prims(h));
                assert(prims(h) =~= Multiset::empty().insert(h));
                assert(prims(Hitable::Node(node)) =~= input.to_multiset());
            }
            return Ok(node);
        }
        if n == 2 {
            let ghost sorted0 = sorted@;
            let mut sorted = sorted;
            let right = sorted.remove(1);
            let left = sorted.remove(0);
            let left_bbox = left.bounding_box();
            let right_bbox = right.bounding_box();
            let bbox = crate::aabb::surrounding_bbox(left_bbox, right_bbox);
            proof {
                assert(sorted0 =~= Seq::empty().push(left).push(right));
                lemma_pair_multisets(left, right, input);
                assert(Multiset::empty().insert(left).add(Multiset::empty().insert(right)) =~= Seq::empty().push(left).push(right).to_multiset());
            }
            let node = BvhNode { left: Box::new(left), right: Some(Box::new(right)), bbox };
            proof {
                assert(!(left is Node) && !(right is Node));
                assert(prims(Hitable::Node(node)) == prims(left).add(prims(right)));
                assert(prims(left) =~= Multiset::empty().insert(left));
                assert(prims(right) =~= Multiset::empty().insert(right));
                assert(prims(Hitable::Node(node)) =~= input.to_multiset());
            }
            return Ok(node);
        }
        // Prefix and suffix areas of the sorted order, each by one pass.
        let mut boxes: Vec<Aabb> = Vec::new();
        let mut i: usize = 0;
        while i < n
            invariant
                0 <= i <= n,
                n == sorted@.len(),
                boxes@.len() == i,
                forall|j: int| 0 <= j < sorted@.len() ==> wf_hitable(#[trigger] sorted@[j]),
                forall|j: int|
                    0 <= j < i ==> (#[trigger] boxes@[j]).wf() && boxes@[j] == bbox_of(
                        sorted@[j],
                    ),
            decreases n - i,
        {
            boxes.push(sorted[i].bounding_box());
            i = i + 1;
        }
        let mut left_area: Vec<i128> = Vec::new();
        let mut left_bbox = boxes[0];
        left_area.push(left_bbox.surface_area());
        let mut i: usize = 1;
        while i < n
            invariant
                1 <= i <= n,
                n == boxes@.len(),
                n == sorted@.len(),
                left_area@.len() == i,
                left_bbox.wf(),
                left_bbox == enclosing_upto(sorted@, i - 1),
                forall|j: int|
                    0 <= j < n ==> (#[trigger] boxes@[j]).wf() && boxes@[j] == bbox_of(
                        sorted@[j],
                    ),
                forall|j: int|
                    0 <= j < i ==> 0 <= #[trigger] left_area@[j] <= 0x6_0000_0000_0000_0000
                        && left_area@[j] as int == enclosing_upto(sorted@, j).area_spec(),
            decreases n - i,
        {
            left_bbox = crate::aabb::surrounding_bbox(left_bbox, boxes[i]);
            left_area.push(left_bbox.surface_area());
            i = i + 1;
        }
        let mut right_area_rev: Vec<i128> = Vec::new();
        let mut right_bbox = boxes[n - 1];
        right_area_rev.push(right_bbox.surface_area());
        let mut i: usize = 1;
        while i < n
            invariant
                1 <= i <= n,
                n == boxes@.len(),
                n == sorted@.len(),
                right_area_rev@.len() == i,
                right_bbox.wf(),
                right_bbox == enclosing_from(sorted@, n - i),
                forall|j: int|
                    0 <= j < n ==> (#[trigger] boxes@[j]).wf() && boxes@[j] == bbox_of(
                        sorted@[j],
                    ),
                forall|j: int|
                    0 <= j < i ==> 0 <= #[trigger] right_area_rev@[j] <= 0x6_0000_0000_0000_0000
                        && right_area_rev@[j] as int == enclosing_from(
                        sorted@,
                        n - 1 - j,
                    ).area_spec(),
            decreases n - i,
        {
            right_bbox = crate::aabb::surrounding_bbox(right_bbox, boxes[n - 1 - i]);
            right_area_rev.push(right_bbox.surface_area());
            i = i + 1;
        }
        // The split of least cost: count times area on each side, first
        // minimum wins.
        let mut min_sah: i128 = i128::MAX;
        let mut min_sah_idx: usize = 0;
        let mut i: usize = 0;
        while i < n - 1
            invariant
                3 <= n <= 0x1_0000_0000,
                0 <= i <= n - 1,
                0 <= min_sah_idx <= n - 2,
                n == sorted@.len(),
                left_area@.len() == n,
                right_area_rev@.len() == n,
                forall|j: int|
                    0 <= j < n ==> 0 <= #[trigger] left_area@[j] <= 0x6_0000_0000_0000_0000
                        && left_area@[j] as int == enclosing_upto(sorted@, j).area_spec(),
                forall|j: int|
                    0 <= j < n ==> 0 <= #[trigger] right_area_rev@[j] <= 0x6_0000_0000_0000_0000
                        && right_area_rev@[j] as int == enclosing_from(
                        sorted@,
                        n - 1 - j,
                    ).area_spec(),
                i > 0 ==> {
                    &&& min_sah_idx < i
                    &&& min_sah as int == sah_cost(sorted@, min_sah_idx as int)
                    &&& forall|j: int|
                        0 <= j < i ==> min_sah as int <= #[trigger] sah_cost(sorted@, j)
                    &&& forall|j: int|
                        0 <= j < min_sah_idx ==> (#[trigger] sah_cost(sorted@, j))
                            > min_sah as int
                },
                i == 0 ==> min_sah == i128::MAX,
            decreases n - 1 - i,
        {
            proof {
                lemma_mul_bound(
                    i as int,
                    left_area@[i as int] as int,
                    0x1_0000_0000,
                    0x6_0000_0000_0000_0000,
                );
                lemma_mul_bound(
                    (n - i - 1) as int,
                    right_area_rev@[(n - 2 - i) as int] as int,
                    0x1_0000_0000,
                    0x6_0000_0000_0000_0000,
                );
            }
            let sah: i128 = (i as i128) * left_area[i] + ((n - i - 1) as i128) * right_area_rev[n
                - 2 - i];
            proof {
                assert(sah as int == sah_cost(sorted@, i as int));
            }
            if sah < min_sah {
                min_sah_idx = i;
                min_sah = sah;
            }
            i = i + 1;
        }
        proof {
            assert(first_min_sah(sorted@, min_sah_idx as int));
        }
        // Split the sorted order and build the two subtrees.
        let mut sorted = sorted;
        let ghost sorted0 = sorted@;
        let right_list = sorted.split_off(min_sah_idx + 1);
        let left_list = sorted;
        proof {
            assert(sorted0 =~= left_list@ + right_list@);
            vstd::seq_lib::lemma_multiset_commutative(left_list@, right_list@);
            assert forall|j: int| 0 <= j < left_list@.len() implies wf_hitable(
                #[trigger] left_list@[j],
            ) by {
                assert(left_list@[j] == sorted0[j]);
            }
            assert forall|j: int| 0 <= j < right_list@.len() implies wf_hitable(
                #[trigger] right_list@[j],
            ) by {
                assert(right_list@[j] == sorted0[j + min_sah_idx + 1]);
            }
            assert forall|j: int| 0 <= j < left_list@.len() implies !((#[trigger] left_list@[j])
                is Node) by {
                assert(left_list@[j] == sorted0[j]);
            }
            assert forall|j: int| 0 <= j < right_list@.len() implies !((
            #[trigger] right_list@[j]) is Node) by {
                assert(right_list@[j] == sorted0[j + min_sah_idx + 1]);
            }
        }
        let lnode = match BvhNode::new(left_list) {
            Ok(x) => x,
            Err(e) => {
                return Err(e);
            },
        };
        let rnode = match BvhNode::new(right_list) {
            Ok(x) => x,
            Err(e) => {
                return Err(e);
            },
        };
        let lh = Hitable::Node(lnode);
        let rh = Hitable::Node(rnode);
        let lbox = lh.bounding_box();
        let rbox = rh.bounding_box();
        let bbox = crate::aabb::surrounding_bbox(lbox, rbox);
        let node = BvhNode { left: Box::new(lh), right: Some(Box::new(rh)), bbox };
        proof {
            let axg = enclosing_upto(input, input.len() - 1).longest_axis_spec();
            let pi0 = choose|pi: Seq<int>| #[trigger] stable_perm(input, sorted0, pi, axg);
            assert(first_min_sah(sorted0, min_sah_idx as int) && stable_perm(
                input,
                sorted0,
                pi0,
                axg,
            ) && sorted0.to_multiset() == input.to_multiset() && sorted_along(sorted0, axg) && (
            *node.left) is Node && (*(node.right->Some_0)) is Node && prims(*node.left)
                == sorted0.subrange(0, min_sah_idx as int + 1).to_multiset() && prims(
                *(node.right->Some_0),
            ) == sorted0.subrange(min_sah_idx as int + 1, sorted0.len() as int).to_multiset());
        }
        Ok(node)
    }
}

/// Two sequences of length two with equal multisets hold the same two
/// elements, in order or swapped.
proof fn lemma_pair_multisets(a0: Hitable, a1: Hitable, input: Seq<Hitable>)
    requires
        input.len() == 2,
        Seq::empty().push(a0).push(a1).to_multiset() == input.to_multiset(),
    ensures
        (a0 == input[0] && a1 == input[1]) || (a0 == input[1] && a1 == input[0]),
{
    let b0 = input[0];
    let b1 = input[1];
    let la = Multiset::empty().insert(a0).insert(a1);
    let lb = Multiset::empty().insert(b0).insert(b1);
    assert(input =~= Seq::empty().push(b0).push(b1));
    assert(input.to_multiset() =~= lb);
    assert(Seq::empty().push(a0).push(a1).to_multiset() =~= la);
    assert(la.count(a0) >= 1 && la.count(a1) >= 1);
    assert(lb.count(b0) >= 1 && lb.count(b1) >= 1);
    assert(la.count(b0) == lb.count(b0) && la.count(b1) == lb.count(b1) && la.count(a0)
        == lb.count(a0) && la.count(a1) == lb.count(a1));
}

/// The rounded-down base-two logarithm: the position of the highest bit.
pub open spec fn msb(m: int) -> int
    decreases m,
{
    if m < 2 {
        0
    } else {
        1 + msb(m / 2)
    }
}

/// The highest set bit brackets its number between consecutive powers of
/// two.
pub proof fn lemma_msb(m: int)
    requires
        m >= 1,
    ensures
        0 <= msb(m),
        pow2(msb(m) as nat) <= m < 2 * pow2(msb(m) as nat),
    decreases m,
{
    vstd::arithmetic::power2::lemma2_to64();
    if m >= 2 {
        lemma_msb(m / 2);
        let q = msb(m / 2);
        vstd::arithmetic::div_mod::lemma_fundamental_div_mod(m, 2);
        vstd::arithmetic::power2::lemma_pow2_unfold((q + 1) as nat);
    }
}

/// A number of at most thirty-two bits has its highest bit there.
proof fn lemma_msb_le32(m: int)
    requires
        1 <= m <= 0x1_0000_0000,
    ensures
        0 <= msb(m) <= 32,
{
    lemma_msb(m);
    vstd::arithmetic::power2::lemma2_to64();
    if msb(m) > 32 {
        vstd::arithmetic::power2::lemma_pow2_strictly_increases(32, msb(m) as nat);
    }
}

/// The fixed-point approximate negative natural logarithm of `(u+1)/2^32`:
/// the bit width of `u + 1` gives the integer part of the base-two
/// logarithm, a linear interpolation over the leading octave fills the
/// fraction, and the whole is scaled by ln 2.
pub open spec fn neg_ln_spec(u: u32) -> int {
    let m = u as int + 1;
    let p = msb(m);
    let pw = pow2(p as nat) as int;
    let frac = ((m - pw) * 65536) / pw;
    let pd = if p >= 32 {
        0
    } else {
        32 - p
    };
    let v0 = pd * 65536 - frac;
    let v = if v0 < 0 {
        0
    } else {
        v0
    };
    fmul(v, 45426)
}

/// The free-flight distance a draw yields: the approximate negative
/// logarithm of the draw, divided by the density, in fixed point.
pub open spec fn free_path_spec(u: u32, density: int) -> int {
    fdiv(neg_ln_spec(u), density)
}

/// A randomly drawn free-flight distance: exactly `free_path_spec` of the
/// draw and the density.
fn free_path(u: u32, density: i64) -> (r: i64)
    requires
        1 <= density,
    ensures
        r as int == free_path_spec(u, density as int),
        0 <= r <= 0x20_0000_0000,
{
    let nl = neg_ln_fp(u);
    proof {
        lemma_tdiv((nl as int) * (ONE as int), density as int);
        lemma_mul_bound(nl as int, ONE as int, 0x20_0000, 65536);
    }
    fp_div(nl, density)
}

/// The negative-logarithm approximation, computed bit by bit: exactly
/// `neg_ln_spec` of the draw.
fn neg_ln_fp(u: u32) -> (r: i64)
    ensures
        r as int == neg_ln_spec(u),
        0 <= r <= 0x20_0000,
{
    let m: u64 = u as u64 + 1;
    let mut k: u64 = m;
    let mut p: u64 = 0;
    let mut pw: u64 = 1;
    proof {
        vstd::arithmetic::power2::lemma2_to64();
        lemma_msb_le32(m as int);
    }
    while k >= 2
        invariant
            1 <= k <= m,
            1 <= pw <= m,
            m <= 0x1_0000_0000,
            p <= 32,
            msb(m as int) == p + msb(k as int),
            pw as int == pow2(p as nat),
        decreases k,
    {
        let ghost k0 = k as int;
        let ghost pw0 = pw as int;
        k = k / 2;
        p = p + 1;
        proof {
            assert(msb(k0) == 1 + msb(k0 / 2));
            lemma_msb(k0 / 2);
            lemma_msb_le32(m as int);
            vstd::arithmetic::power2::lemma_pow2_unfold(p as nat);
            // The doubled power still fits under m.
            lemma_msb(m as int);
            if (p as int) + msb(k as int) == msb(m as int) {
                vstd::arithmetic::power2::lemma_pow2_adds(p as nat, msb(k as int) as nat);
                vstd::arithmetic::power2::lemma_pow2_pos(msb(k as int) as nat);
                assert(pow2(p as nat) * pow2(msb(k as int) as nat) >= pow2(p as nat) * 1)
                    by (nonlinear_arith)
                    requires
                        pow2(msb(k as int) as nat) >= 1,
                        pow2(p as nat) >= 0,
                ;
                assert(pow2((p + msb(k as int)) as nat) <= m as int) by {
                    lemma_msb(m as int);
                }
            }
        }
        pw = pw * 2;
    }
    // Now k == 1, so p is the bit position and pw the matching power.
    proof {
        assert(msb(1int) == 0);
        assert(p as int == msb(m as int));
        lemma_msb(m as int);
    }
    let frac: u64 = ((m - pw) * 65536) / pw;
    proof {
        assert(m - pw < pw);
        assert((m - pw) * 65536 < pw * 65536) by (nonlinear_arith)
            requires
                m - pw < pw,
                0 <= m - pw,
        ;
        vstd::arithmetic::div_mod::lemma_div_is_ordered(
            ((m - pw) as int) * 65536,
            (pw as int) * 65536 - 1,
            pw as int,
        );
        vstd::arithmetic::div_mod::lemma_div_pos_is_pos(((m - pw) as int) * 65536, pw as int);
        assert(((pw as int) * 65536 - 1) / (pw as int) < 65536) by {
            crate::fixed::lemma_le_div_iff_mul_le((pw as int) * 65536 - 1, pw as int, 65536);
            assert(65536 * (pw as int) > (pw as int) * 65536 - 1) by (nonlinear_arith);
        }
    }
    let pd: i64 = if p >= 32 {
        0
    } else {
        32 - p as i64
    };
    let v: i64 = pd * 65536 - frac as i64;
    let v: i64 = if v < 0 {
        0
    } else {
        v
    };
    proof {
        lemma_mul_bound(v as int, 45426, 0x20_0000, 45426);
        lemma_tdiv((v as int) * 45426, ONE as int);
        assert((v as int) * 45426 <= (v as int) * 65536) by (nonlinear_arith)
            requires
                v >= 0,
        ;
        lemma_mul_bound(v as int, 65536, 0x20_0000, 65536);
        assert(65536 * tdiv((v as int) * 45426, 65536) <= (v as int) * 65536);
        assert(65536 * (v as int) == (v as int) * 65536) by (nonlinear_arith);
    }
    fp_mul(v, 45426)
}

} // verus!
