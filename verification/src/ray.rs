//! A parametric line: origin plus a scaled direction.
use vstd::prelude::*;

verus! {

use crate::fixed::{fmul, iabs};
use crate::vec3::{Vec3, bounded};

#[derive(Clone, Copy, Debug, PartialEq, Eq, Structural)]
pub struct Ray {
    pub origin: Vec3,
    pub direction: Vec3,
}

/// `p` is the point the ray reaches at parameter `t`, each component the
/// fixed-point sum of the origin and the scaled direction.
pub open spec fn point_on(r: Ray, t: int, p: Vec3) -> bool {
    &&& p.x as int == r.origin.x + fmul(t, r.direction.x as int)
    &&& p.y as int == r.origin.y + fmul(t, r.direction.y as int)
    &&& p.z as int == r.origin.z + fmul(t, r.direction.z as int)
}

impl Ray {
    pub fn new(origin: Vec3, direction: Vec3) -> (r: Ray)
        ensures
            r.origin == origin && r.direction == direction,
    {
        Ray { origin, direction }
    }

    pub fn origin(&self) -> (r: Vec3)
        ensures
            r == self.origin,
    {
        self.origin
    }

    pub fn direction(&self) -> (r: Vec3)
        ensures
            r == self.direction,
    {
        self.direction
    }

    /// The point reached at parameter `t`.
    pub fn point_at_parameter(&self, t: i64) -> (p: Vec3)
        requires
            iabs(t as int) <= 0x80_0000_0000,
            bounded(self.direction, 0x80_0000_0000),
            bounded(self.origin, 0x2000_0000_0000_0000),
        ensures
            point_on(*self, t as int, p),
    {
        proof {
            crate::fixed::lemma_mul_bound(
                t as int,
                self.direction.x as int,
                0x80_0000_0000,
                0x80_0000_0000,
            );
            crate::fixed::lemma_mul_bound(
                t as int,
                self.direction.y as int,
                0x80_0000_0000,
                0x80_0000_0000,
            );
            crate::fixed::lemma_mul_bound(
                t as int,
                self.direction.z as int,
                0x80_0000_0000,
                0x80_0000_0000,
            );
            crate::fixed::lemma_tdiv((t as int) * (self.direction.x as int), 65536);
            crate::fixed::lemma_tdiv((t as int) * (self.direction.y as int), 65536);
            crate::fixed::lemma_tdiv((t as int) * (self.direction.z as int), 65536);
        }
        self.origin.plus(&self.direction.scaled(t))
    }
}

} // verus!
