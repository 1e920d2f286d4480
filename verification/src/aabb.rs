//! Axis-aligned bounding boxes: the interval volumes that bound primitives
//! and prune ray queries.
//!
//! The ray-box test is exact: it reports whether some fixed-point parameter
//! `t` in the queried range places the ray inside the box on every axis,
//! which is the slab test carried out in integer arithmetic.
use vstd::prelude::*;

verus! {

use crate::fixed::{iabs, cdiv, lemma_ge_cdiv_iff_mul_ge, lemma_le_div_iff_mul_le};
use crate::fixed::{div_floor, div_ceil_wide, lemma_mul_bound};
use crate::vec3::{Vec3, bounded};
use crate::ray::Ray;

#[derive(Clone, Copy, Debug, PartialEq, Eq, Structural)]
pub struct Aabb {
    pub min: Vec3,
    pub max: Vec3,
}

#[derive(Clone, Copy, Debug, PartialEq, Eq, Structural)]
pub enum Axis {
    X,
    Y,
    Z,
}

/// `outer` contains `inner`.
pub open spec fn contains_box(outer: Aabb, inner: Aabb) -> bool {
    &&& outer.min.x <= inner.min.x && inner.max.x <= outer.max.x
    &&& outer.min.y <= inner.min.y && inner.max.y <= outer.max.y
    &&& outer.min.z <= inner.min.z && inner.max.z <= outer.max.z
}

/// At parameter `t` the ray lies between the two planes of one axis:
/// the exact membership condition, cleared of denominators.
pub open spec fn slab_axis(mn: int, mx: int, o: int, d: int, t: int) -> bool {
    (mn - o) * 65536 <= t * d && t * d <= (mx - o) * 65536
}

/// At parameter `t` the ray lies inside the box on every axis.
pub open spec fn slab_all(b: Aabb, r: Ray, t: int) -> bool {
    &&& slab_axis(b.min.x as int, b.max.x as int, r.origin.x as int, r.direction.x as int, t)
    &&& slab_axis(b.min.y as int, b.max.y as int, r.origin.y as int, r.direction.y as int, t)
    &&& slab_axis(b.min.z as int, b.max.z as int, r.origin.z as int, r.direction.z as int, t)
}

/// Some parameter in `[tmin, tmax]` places the ray inside the box.
pub open spec fn hits_box(b: Aabb, r: Ray, tmin: int, tmax: int) -> bool {
    exists|t: int| tmin <= t <= tmax && #[trigger] slab_all(b, r, t)
}

/// A parameter inside an inner box is inside any containing box.
pub proof fn lemma_slab_monotone(inner: Aabb, outer: Aabb, r: Ray, t: int)
    requires
        contains_box(outer, inner),
        slab_all(inner, r, t),
    ensures
        slab_all(outer, r, t),
{
}

/// The set of parameters inside a box is an interval: membership at two
/// parameters gives membership everywhere in between.
pub proof fn lemma_slab_convex(b: Aabb, r: Ray, t1: int, t2: int, t: int)
    requires
        slab_all(b, r, t1),
        slab_all(b, r, t2),
        t1 <= t <= t2,
    ensures
        slab_all(b, r, t),
{
    lemma_mul_between(t1, t2, t, r.direction.x as int);
    lemma_mul_between(t1, t2, t, r.direction.y as int);
    lemma_mul_between(t1, t2, t, r.direction.z as int);
}

proof fn lemma_mul_between(t1: int, t2: int, t: int, d: int)
    by (nonlinear_arith)
    requires
        t1 <= t <= t2,
    ensures
        (t1 * d <= t * d && t * d <= t2 * d) || (t2 * d <= t * d && t * d <= t1 * d),
{
}

impl Aabb {
    /// Each minimum does not exceed its maximum, and all corners are small
    /// enough for the integer arithmetic of the queries.
    pub open spec fn wf(self) -> bool {
        &&& self.min.x <= self.max.x
        &&& self.min.y <= self.max.y
        &&& self.min.z <= self.max.z
        &&& bounded(self.min, 0x8000_0000)
        &&& bounded(self.max, 0x8000_0000)
    }

    /// The surface area, in squared fixed-point units.
    pub open spec fn area_spec(self) -> int {
        let dx = self.max.x - self.min.x;
        let dy = self.max.y - self.min.y;
        let dz = self.max.z - self.min.z;
        2 * (dx * dy + dy * dz + dz * dx)
    }

    /// First axis, in the order x then y then z, whose extent is largest.
    pub open spec fn longest_axis_spec(self) -> Axis {
        let dx = self.max.x - self.min.x;
        let dy = self.max.y - self.min.y;
        let dz = self.max.z - self.min.z;
        if dx >= dy && dx >= dz {
            Axis::X
        } else if dy >= dz {
            Axis::Y
        } else {
            Axis::Z
        }
    }

    /// Surface area: twice the sum of the three face areas.
    pub fn surface_area(&self) -> (r: i128)
        requires
            self.wf(),
        ensures
            r as int == self.area_spec(),
            r >= 0,
            r <= 0x6_0000_0000_0000_0000,
    {
        let dx: i128 = self.max.x as i128 - self.min.x as i128;
        let dy: i128 = self.max.y as i128 - self.min.y as i128;
        let dz: i128 = self.max.z as i128 - self.min.z as i128;
        proof {
            lemma_mul_bound(dx as int, dy as int, 0x1_0000_0000, 0x1_0000_0000);
            lemma_mul_bound(dy as int, dz as int, 0x1_0000_0000, 0x1_0000_0000);
            lemma_mul_bound(dz as int, dx as int, 0x1_0000_0000, 0x1_0000_0000);
            assert(dx as int * dy as int >= 0 && dy as int * dz as int >= 0 && dz as int
                * dx as int >= 0) by (nonlinear_arith)
                requires
                    dx as int >= 0 && dy as int >= 0 && dz as int >= 0,
            ;
        }
        2 * (dx * dy + dy * dz + dz * dx)
    }

    /// The axis of greatest extent, ties resolved in the order x, y, z.
    pub fn longest_axis(&self) -> (r: Axis)
        requires
            self.wf(),
        ensures
            r == self.longest_axis_spec(),
    {
        let dx = self.max.x - self.min.x;
        let dy = self.max.y - self.min.y;
        let dz = self.max.z - self.min.z;
        if dx >= dy && dx >= dz {
            Axis::X
        } else if dy >= dz {
            Axis::Y
        } else {
            Axis::Z
        }
    }

    /// Whether parameter `t` places the ray inside the box on every axis.
    pub fn contains_at(&self, r: &Ray, t: i64) -> (res: bool)
        requires
            self.wf(),
            bounded(r.origin, 0x4000_0000),
            bounded(r.direction, 0x4000_0000),
        ensures
            res == slab_all(*self, *r, t as int),
    {
        proof {
            lemma_mul_bound(t as int, r.direction.x as int, 0x8000_0000_0000_0000, 0x4000_0000);
            lemma_mul_bound(t as int, r.direction.y as int, 0x8000_0000_0000_0000, 0x4000_0000);
            lemma_mul_bound(t as int, r.direction.z as int, 0x8000_0000_0000_0000, 0x4000_0000);
        }
        let tdx: i128 = (t as i128) * (r.direction.x as i128);
        let tdy: i128 = (t as i128) * (r.direction.y as i128);
        let tdz: i128 = (t as i128) * (r.direction.z as i128);
        let lox: i128 = (self.min.x as i128 - r.origin.x as i128) * 65536;
        let hix: i128 = (self.max.x as i128 - r.origin.x as i128) * 65536;
        let loy: i128 = (self.min.y as i128 - r.origin.y as i128) * 65536;
        let hiy: i128 = (self.max.y as i128 - r.origin.y as i128) * 65536;
        let loz: i128 = (self.min.z as i128 - r.origin.z as i128) * 65536;
        let hiz: i128 = (self.max.z as i128 - r.origin.z as i128) * 65536;
        lox <= tdx && tdx <= hix && loy <= tdy && tdy <= hiy && loz <= tdz && tdz <= hiz
    }

    /// Slab test: whether some parameter in `[t_min, t_max]` places the ray
    /// inside the box on every axis at once.
    pub fn hit(&self, r: &Ray, t_min: i64, t_max: i64) -> (res: bool)
        requires
            self.wf(),
            bounded(r.origin, 0x4000_0000),
            bounded(r.direction, 0x4000_0000),
        ensures
            res == hits_box(*self, *r, t_min as int, t_max as int),
    {
        let ix = axis_interval(self.min.x, self.max.x, r.origin.x, r.direction.x);
        let iy = axis_interval(self.min.y, self.max.y, r.origin.y, r.direction.y);
        let iz = axis_interval(self.min.z, self.max.z, r.origin.z, r.direction.z);
        match (ix, iy, iz) {
            (Some((lx, hx)), Some((ly, hy)), Some((lz, hz))) => {
                let mut lo: i128 = t_min as i128;
                let mut hi: i128 = t_max as i128;
                if lx > lo {
                    lo = lx;
                }
                if ly > lo {
                    lo = ly;
                }
                if lz > lo {
                    lo = lz;
                }
                if hx < hi {
                    hi = hx;
                }
                if hy < hi {
                    hi = hy;
                }
                if hz < hi {
                    hi = hz;
                }
                let res = lo <= hi;
                proof {
                    if res {
                        let t = lo as int;
                        assert(-0x40_0000_0000_0000_0000 <= t <= 0x40_0000_0000_0000_0000);
                        assert(slab_all(*self, *r, t));
                        assert(t_min as int <= t <= t_max as int && slab_all(*self, *r, t));
                    } else {
                        assert forall|t: int|
                            t_min as int <= t <= t_max as int implies !slab_all(
                            *self,
                            *r,
                            t,
                        ) by {
                            assert(-0x40_0000_0000_0000_0000 <= t <= 0x40_0000_0000_0000_0000);
                            if slab_all(*self, *r, t) {
                                assert(lx as int <= t <= hx as int);
                                assert(ly as int <= t <= hy as int);
                                assert(lz as int <= t <= hz as int);
                            }
                        }
                    }
                }
                res
            },
            _ => {
                proof {
                    assert forall|t: int|
                        t_min as int <= t <= t_max as int implies !slab_all(*self, *r, t) by {}
                }
                false
            },
        }
    }
}

/// The parameters that keep the ray between one axis's two planes, as an
/// integer interval: `None` when there are none, and bounds that are exact
/// for every parameter of magnitude at most 2^70 otherwise.
fn axis_interval(mn: i64, mx: i64, o: i64, d: i64) -> (res: Option<(i128, i128)>)
    requires
        mn <= mx,
        iabs(mn as int) <= 0x8000_0000,
        iabs(mx as int) <= 0x8000_0000,
        iabs(o as int) <= 0x4000_0000,
        iabs(d as int) <= 0x4000_0000,
    ensures
        match res {
            None => forall|t: int| !slab_axis(mn as int, mx as int, o as int, d as int, t),
            Some(b) => forall|t: int|
                -0x40_0000_0000_0000_0000 <= t <= 0x40_0000_0000_0000_0000 ==> (#[trigger] slab_axis(
                    mn as int,
                    mx as int,
                    o as int,
                    d as int,
                    t,
                ) <==> b.0 <= t <= b.1),
        },
{
    let a_lo: i128 = (mn as i128 - o as i128) * 65536;
    let a_hi: i128 = (mx as i128 - o as i128) * 65536;
    if d == 0 {
        if a_lo <= 0 && 0 <= a_hi {
            proof {
                assert forall|t: int| #[trigger] (t * 0) == 0 by {
                    vstd::arithmetic::mul::lemma_mul_basics(t);
                }
            }
            Some((-0x40_0000_0000_0000_0000, 0x40_0000_0000_0000_0000))
        } else {
            proof {
                assert forall|t: int|
                    !slab_axis(mn as int, mx as int, o as int, d as int, t) by {
                    vstd::arithmetic::mul::lemma_mul_basics(t);
                }
            }
            None
        }
    } else if d > 0 {
        let lo = div_ceil_wide(a_lo, d as i128);
        let hi = div_floor(a_hi, d as i128);
        proof {
            assert forall|t: int|
                -0x40_0000_0000_0000_0000 <= t <= 0x40_0000_0000_0000_0000 implies (
            #[trigger] slab_axis(mn as int, mx as int, o as int, d as int, t) <==> lo as int <= t
                <= hi as int) by {
                lemma_ge_cdiv_iff_mul_ge(a_lo as int, d as int, t);
                lemma_le_div_iff_mul_le(a_hi as int, d as int, t);
                assert(t * (d as int) == t * d);
            }
        }
        Some((lo, hi))
    } else {
        let dp: i128 = -(d as i128);
        let lo = div_ceil_wide(-a_hi, dp);
        let hi = div_floor(-a_lo, dp);
        proof {
            assert forall|t: int|
                -0x40_0000_0000_0000_0000 <= t <= 0x40_0000_0000_0000_0000 implies (
            #[trigger] slab_axis(mn as int, mx as int, o as int, d as int, t) <==> lo as int <= t
                <= hi as int) by {
                lemma_ge_cdiv_iff_mul_ge(-(a_hi as int), dp as int, t);
                lemma_le_div_iff_mul_le(-(a_lo as int), dp as int, t);
                assert(t * (dp as int) == -(t * (d as int))) by (nonlinear_arith)
                    requires
                        dp as int == -(d as int),
                ;
            }
        }
        Some((lo, hi))
    }
}

/// The box whose corners are the componentwise minima and maxima of two
/// boxes' corners.
pub open spec fn surround_spec(a: Aabb, b: Aabb) -> Aabb {
    Aabb {
        min: Vec3 {
            x: if a.min.x <= b.min.x { a.min.x } else { b.min.x },
            y: if a.min.y <= b.min.y { a.min.y } else { b.min.y },
            z: if a.min.z <= b.min.z { a.min.z } else { b.min.z },
        },
        max: Vec3 {
            x: if a.max.x >= b.max.x { a.max.x } else { b.max.x },
            y: if a.max.y >= b.max.y { a.max.y } else { b.max.y },
            z: if a.max.z >= b.max.z { a.max.z } else { b.max.z },
        },
    }
}

/// The smallest box containing both arguments: its corners are the
/// componentwise minima and maxima, so it contains `a` and `b`, and every
/// box containing both contains it.
pub fn surrounding_bbox(a: Aabb, b: Aabb) -> (r: Aabb)
    ensures
        r == surround_spec(a, b),
        r.min.x == if a.min.x <= b.min.x { a.min.x } else { b.min.x },
        r.min.y == if a.min.y <= b.min.y { a.min.y } else { b.min.y },
        r.min.z == if a.min.z <= b.min.z { a.min.z } else { b.min.z },
        r.max.x == if a.max.x >= b.max.x { a.max.x } else { b.max.x },
        r.max.y == if a.max.y >= b.max.y { a.max.y } else { b.max.y },
        r.max.z == if a.max.z >= b.max.z { a.max.z } else { b.max.z },
        contains_box(r, a),
        contains_box(r, b),
        forall|c: Aabb| contains_box(c, a) && contains_box(c, b) ==> #[trigger] contains_box(c, r),
        a.wf() && b.wf() ==> r.wf(),
{
    Aabb {
        min: Vec3 {
            x: if a.min.x <= b.min.x { a.min.x } else { b.min.x },
            y: if a.min.y <= b.min.y { a.min.y } else { b.min.y },
            z: if a.min.z <= b.min.z { a.min.z } else { b.min.z },
        },
        max: Vec3 {
            x: if a.max.x >= b.max.x { a.max.x } else { b.max.x },
            y: if a.max.y >= b.max.y { a.max.y } else { b.max.y },
            z: if a.max.z >= b.max.z { a.max.z } else { b.max.z },
        },
    }
}

} // verus!
