//! Analytic ray-sphere intersection in fixed point.
//!
//! Substituting the ray into `|p - center|^2 == radius^2` and clearing the
//! fixed-point denominators gives the integer quadratic
//! `a t^2 + 2 b t + c == 0` with `a = d.d`, `b = ONE * (oc.d)` and
//! `c = ONE^2 * (oc.oc - r^2)`; its roots are taken with the rounded-down
//! integer square root. A root is accepted only strictly inside
//! `(t_min, t_max)` and only when it places the ray inside the sphere's
//! bounding box, which makes every reported hit prunable by the box test.
use vstd::prelude::*;

verus! {

use crate::aabb::{Aabb, slab_all};
use crate::fixed::{fmul, fdiv, tdiv, iabs, sqrt_floor, ONE};
use crate::fixed::{fp_div, isqrt};
use crate::fixed::{lemma_mul_bound, lemma_tdiv_mono, lemma_tdiv_multiple, lemma_fdiv_ratio_bounded};
use crate::hitable::Hit;
use crate::material::Material;
use crate::ray::{Ray, point_on};
use crate::vec3::{Vec3, bounded, dot_raw, lemma_dot_raw_bound};

pub struct Sphere {
    pub center: Vec3,
    pub radius: i64,
    pub material: Material,
}

impl Sphere {
    /// A sphere the tracer can work with: a positive radius and coordinates
    /// small enough for the quadratic to stay inside wide words.
    pub open spec fn wf(self) -> bool {
        &&& bounded(self.center, 0x1000_0000)
        &&& 1 <= self.radius <= 0x1000_0000
    }

    /// The box from corner `center - radius` to `center + radius`.
    pub open spec fn bbox_spec(self) -> Aabb {
        Aabb {
            min: Vec3 {
                x: (self.center.x - self.radius) as i64,
                y: (self.center.y - self.radius) as i64,
                z: (self.center.z - self.radius) as i64,
            },
            max: Vec3 {
                x: (self.center.x + self.radius) as i64,
                y: (self.center.y + self.radius) as i64,
                z: (self.center.z + self.radius) as i64,
            },
        }
    }

    /// Leading coefficient of the quadratic: the direction's raw square.
    pub open spec fn a_spec(self, r: Ray) -> int {
        dot_raw(r.direction, r.direction)
    }

    /// Half the linear coefficient, before scaling: `(origin - center).d`.
    pub open spec fn hb_spec(self, r: Ray) -> int {
        (r.origin.x - self.center.x) * r.direction.x + (r.origin.y - self.center.y)
            * r.direction.y + (r.origin.z - self.center.z) * r.direction.z
    }

    /// Constant coefficient before scaling: `(origin - center).(origin - center) - radius^2`.
    pub open spec fn cc_spec(self, r: Ray) -> int {
        (r.origin.x - self.center.x) * (r.origin.x - self.center.x) + (r.origin.y - self.center.y)
            * (r.origin.y - self.center.y) + (r.origin.z - self.center.z) * (r.origin.z
            - self.center.z) - self.radius * self.radius
    }

    /// Reduced discriminant of the quadratic.
    pub open spec fn disc_spec(self, r: Ray) -> int {
        self.hb_spec(r) * self.hb_spec(r) - self.a_spec(r) * self.cc_spec(r)
    }

    /// The nearer root, in fixed point, rounded toward zero.
    pub open spec fn root1_spec(self, r: Ray) -> int {
        tdiv((-self.hb_spec(r) - sqrt_floor(self.disc_spec(r) as nat)) * (ONE as int), self.a_spec(r))
    }

    /// The farther root, in fixed point, rounded toward zero.
    pub open spec fn root2_spec(self, r: Ray) -> int {
        tdiv((-self.hb_spec(r) + sqrt_floor(self.disc_spec(r) as nat)) * (ONE as int), self.a_spec(r))
    }

    /// A root is reported only strictly inside the queried range and only
    /// where the ray is inside the sphere's bounding box. The box guard is
    /// a deliberate tightening of the pure range rule: with rounded-down
    /// roots, a root strictly in range can place the ray marginally outside
    /// the box that bounds the sphere, and such a root is rejected rather
    /// than reported. This is what makes every reported hit prunable by the
    /// box test, which the tree query's agreement with the brute-force scan
    /// rests on; it differs from the plain two-root rule only on inputs
    /// within one rounding step of the box's faces.
    pub open spec fn accepts(self, r: Ray, tmin: int, tmax: int, t: int) -> bool {
        tmin < t < tmax && slab_all(self.bbox_spec(), r, t)
    }

    /// The parameter the intersection test reports: the nearer root if
    /// acceptable, else the farther root if acceptable, else nothing; and
    /// nothing when the discriminant shows no real root or the direction is
    /// degenerate.
    pub open spec fn hit_t_spec(self, r: Ray, tmin: int, tmax: int) -> Option<int> {
        if self.disc_spec(r) > 0 && self.a_spec(r) > 0 {
            if self.accepts(r, tmin, tmax, self.root1_spec(r)) {
                Some(self.root1_spec(r))
            } else if self.accepts(r, tmin, tmax, self.root2_spec(r)) {
                Some(self.root2_spec(r))
            } else {
                None
            }
        } else {
            None
        }
    }

    pub fn new(center: Vec3, radius: i64, material: Material) -> (s: Sphere)
        ensures
            s.center == center && s.radius == radius && s.material == material,
    {
        Sphere { center, radius, material }
    }

    pub fn bounding_box(&self) -> (b: Aabb)
        requires
            self.wf(),
        ensures
            b == self.bbox_spec(),
            b.wf(),
    {
        Aabb {
            min: Vec3 {
                x: self.center.x - self.radius,
                y: self.center.y - self.radius,
                z: self.center.z - self.radius,
            },
            max: Vec3 {
                x: self.center.x + self.radius,
                y: self.center.y + self.radius,
                z: self.center.z + self.radius,
            },
        }
    }

    /// Accept `t128` as a hit if it is strictly inside the range and the
    /// box guard, and build its record.
    fn accept_root<'a>(&'a self, t_min: i64, t_max: i64, r: &Ray, t128: i128) -> (res: Option<
        Hit<'a>,
    >)
        requires
            self.wf(),
            bounded(r.origin, 0x4000_0000),
            bounded(r.direction, 0x4000_0000),
            iabs(t_min as int) <= 0x80_0000_0000,
            iabs(t_max as int) <= 0x80_0000_0000,
        ensures
            res is Some <==> self.accepts(*r, t_min as int, t_max as int, t128 as int),
            match res {
                Some(h) => {
                    &&& h.t as int == t128 as int
                    &&& point_on(*r, h.t as int, h.p)
                    &&& h.normal.x as int == fdiv(h.p.x - self.center.x, self.radius as int)
                    &&& h.normal.y as int == fdiv(h.p.y - self.center.y, self.radius as int)
                    &&& h.normal.z as int == fdiv(h.p.z - self.center.z, self.radius as int)
                    &&& bounded(h.normal, ONE as int)
                    &&& h.material == self.material
                },
                None => true,
            },
    {
        if t128 > t_min as i128 && t128 < t_max as i128 {
            let t = t128 as i64;
            let bb = self.bounding_box();
            if bb.contains_at(r, t) {
                let p = r.point_at_parameter(t);
                proof {
                    // Inside the box guard, the reached point stays within
                    // one radius of the center on each axis.
                    let s = ONE as int;
                    let ti = t as int;
                    lemma_point_within(
                        self.center.x as int,
                        self.radius as int,
                        r.origin.x as int,
                        r.direction.x as int,
                        ti,
                    );
                    lemma_point_within(
                        self.center.y as int,
                        self.radius as int,
                        r.origin.y as int,
                        r.direction.y as int,
                        ti,
                    );
                    lemma_point_within(
                        self.center.z as int,
                        self.radius as int,
                        r.origin.z as int,
                        r.direction.z as int,
                        ti,
                    );
                    lemma_fdiv_ratio_bounded(p.x - self.center.x, self.radius as int);
                    lemma_fdiv_ratio_bounded(p.y - self.center.y, self.radius as int);
                    lemma_fdiv_ratio_bounded(p.z - self.center.z, self.radius as int);
                }
                let normal = Vec3 {
                    x: fp_div(p.x - self.center.x, self.radius),
                    y: fp_div(p.y - self.center.y, self.radius),
                    z: fp_div(p.z - self.center.z, self.radius),
                };
                Some(Hit { t, p, normal, material: &self.material })
            } else {
                None
            }
        } else {
            None
        }
    }

    /// Intersection test over the parameter range `(t_min, t_max)`.
    pub fn hit<'a>(&'a self, t_min: i64, t_max: i64, r: &Ray) -> (res: Option<Hit<'a>>)
        requires
            self.wf(),
            bounded(r.origin, 0x4000_0000),
            bounded(r.direction, 0x4000_0000),
            iabs(t_min as int) <= 0x80_0000_0000,
            iabs(t_max as int) <= 0x80_0000_0000,
        ensures
            match res {
                Some(h) => {
                    &&& self.hit_t_spec(*r, t_min as int, t_max as int) == Some(h.t as int)
                    &&& t_min < h.t < t_max
                    &&& slab_all(self.bbox_spec(), *r, h.t as int)
                    &&& point_on(*r, h.t as int, h.p)
                    &&& h.normal.x as int == fdiv(h.p.x - self.center.x, self.radius as int)
                    &&& h.normal.y as int == fdiv(h.p.y - self.center.y, self.radius as int)
                    &&& h.normal.z as int == fdiv(h.p.z - self.center.z, self.radius as int)
                    &&& bounded(h.normal, ONE as int)
                    &&& h.material == self.material
                },
                None => self.hit_t_spec(*r, t_min as int, t_max as int) is None,
            },
    {
        let ocv = Vec3 {
            x: r.origin.x - self.center.x,
            y: r.origin.y - self.center.y,
            z: r.origin.z - self.center.z,
        };
        let aq: i128 = r.direction.dot_wide(&r.direction);
        let hb: i128 = ocv.dot_wide(&r.direction);
        let oo: i128 = ocv.dot_wide(&ocv);
        proof {
            lemma_dot_raw_bound(ocv, r.direction, 0x5000_0000);
            lemma_dot_raw_bound(ocv, ocv, 0x5000_0000);
            lemma_dot_raw_bound(r.direction, r.direction, 0x5000_0000);
            lemma_mul_bound(self.radius as int, self.radius as int, 0x1000_0000, 0x1000_0000);
        }
        let cc: i128 = oo - (self.radius as i128) * (self.radius as i128);
        proof {
            lemma_mul_bound(
                hb as int,
                hb as int,
                0x4B00_0000_0000_0000,
                0x4B00_0000_0000_0000,
            );
            lemma_mul_bound(
                aq as int,
                cc as int,
                0x4B00_0000_0000_0000,
                0x4C00_0000_0000_0000,
            );
            assert(hb as int == self.hb_spec(*r));
            assert(cc as int == self.cc_spec(*r));
        }
        let disc: i128 = hb * hb - aq * cc;
        if disc > 0 && aq > 0 {
            let s = isqrt(disc as u128);
            proof {
                assert((s as int) * (s as int) <= disc as int);
                assert(s as int <= 0x1_0000_0000_0000_0000) by (nonlinear_arith)
                    requires
                        (s as int) * (s as int) <= disc as int,
                        disc as int <= (0x8000_0000_0000_0000 * 0x8000_0000_0000_0000) * 2,
                        s >= 0,
                ;
            }
            let s128: i128 = s as i128;
            let num1: i128 = (-hb - s128) * 65536;
            let num2: i128 = (-hb + s128) * 65536;
            let t1 = crate::fixed::div_trunc(num1, aq);
            let t2 = crate::fixed::div_trunc(num2, aq);
            let first = self.accept_root(t_min, t_max, r, t1);
            match first {
                Some(h) => Some(h),
                None => self.accept_root(t_min, t_max, r, t2),
            }
        } else {
            None
        }
    }
}

/// If the cleared slab inequalities hold at `t` for the planes one radius
/// either side of `c`, then the fixed-point point reached at `t` is within
/// one radius of `c`.
proof fn lemma_point_within(c: int, rad: int, o: int, d: int, t: int)
    requires
        rad >= 1,
        (((c - rad) - o) * 65536 <= t * d),
        (t * d <= ((c + rad) - o) * 65536),
    ensures
        iabs(o + fmul(t, d) - c) <= rad,
{
    lemma_tdiv_mono(((c - rad) - o) * 65536, t * d, 65536);
    lemma_tdiv_mono(t * d, ((c + rad) - o) * 65536, 65536);
    lemma_tdiv_multiple((c - rad) - o, 65536);
    lemma_tdiv_multiple((c + rad) - o, 65536);
}

} // verus!
