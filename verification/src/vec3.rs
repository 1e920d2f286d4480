//! Three-component fixed-point vectors: points, directions and colors.
use vstd::prelude::*;

verus! {

use crate::fixed::ONE;
use crate::fixed::{fmul, fdiv, tdiv, iabs, sqrt_floor};
use crate::fixed::{fp_mul, fp_div, isqrt, div_trunc};
use crate::fixed::{lemma_mul_bound, lemma_tdiv, lemma_sqrt_unique};
use vstd::arithmetic::div_mod::lemma_div_is_ordered;
use vstd::arithmetic::div_mod::lemma_div_multiples_vanish;

#[derive(Clone, Copy, Debug, PartialEq, Eq, Structural)]
pub struct Vec3 {
    pub x: i64,
    pub y: i64,
    pub z: i64,
}

/// Every component has magnitude at most `m`.
pub open spec fn bounded(v: Vec3, m: int) -> bool {
    iabs(v.x as int) <= m && iabs(v.y as int) <= m && iabs(v.z as int) <= m
}

/// Unscaled dot product: the exact sum of component products, which is
/// `ONE * ONE` times the mathematical dot product of the values represented.
pub open spec fn dot_raw(a: Vec3, b: Vec3) -> int {
    (a.x as int) * (b.x as int) + (a.y as int) * (b.y as int) + (a.z as int) * (b.z as int)
}

/// Fixed-point length: `ONE` times the Euclidean length of the value
/// represented, rounded down.
pub open spec fn len_spec(v: Vec3) -> int {
    sqrt_floor(dot_raw(v, v) as nat) as int
}

/// The vector scaled to unit length: each component divided by the
/// rounded-down length, in fixed point.
pub open spec fn unit_spec(v: Vec3) -> Vec3 {
    Vec3 {
        x: fdiv(v.x as int, len_spec(v)) as i64,
        y: fdiv(v.y as int, len_spec(v)) as i64,
        z: fdiv(v.z as int, len_spec(v)) as i64,
    }
}

/// The squared magnitude of any vector is non-negative.
pub proof fn lemma_dot_raw_self_nonneg(v: Vec3)
    ensures
        dot_raw(v, v) >= 0,
{
    let x = v.x as int;
    let y = v.y as int;
    let z = v.z as int;
    assert(x * x + y * y + z * z >= 0) by (nonlinear_arith);
}

/// The raw dot product of vectors bounded by `m` is at most `3 * m * m`.
pub proof fn lemma_dot_raw_bound(a: Vec3, b: Vec3, m: int)
    requires
        bounded(a, m),
        bounded(b, m),
        0 <= m,
    ensures
        -(3 * (m * m)) <= dot_raw(a, b) <= 3 * (m * m),
{
    lemma_mul_bound(a.x as int, b.x as int, m, m);
    lemma_mul_bound(a.y as int, b.y as int, m, m);
    lemma_mul_bound(a.z as int, b.z as int, m, m);
}

/// The raw dot product of vectors bounded by `ma` and `mb` respectively.
pub proof fn lemma_dot_raw_bound2(a: Vec3, b: Vec3, ma: int, mb: int)
    requires
        bounded(a, ma),
        bounded(b, mb),
        0 <= ma,
        0 <= mb,
    ensures
        -(3 * (ma * mb)) <= dot_raw(a, b) <= 3 * (ma * mb),
{
    lemma_mul_bound(a.x as int, b.x as int, ma, mb);
    lemma_mul_bound(a.y as int, b.y as int, ma, mb);
    lemma_mul_bound(a.z as int, b.z as int, ma, mb);
}

impl Vec3 {
    pub fn zero_vector() -> (r: Vec3)
        ensures
            r.x == 0 && r.y == 0 && r.z == 0,
    {
        Vec3 { x: 0, y: 0, z: 0 }
    }

    pub fn new(x: i64, y: i64, z: i64) -> (r: Vec3)
        ensures
            r.x == x && r.y == y && r.z == z,
    {
        Vec3 { x, y, z }
    }

    /// Whether every component's magnitude stays within `m`.
    pub fn within(&self, m: i64) -> (res: bool)
        requires
            m >= 0,
        ensures
            res == bounded(*self, m as int),
    {
        -m <= self.x && self.x <= m && -m <= self.y && self.y <= m && -m <= self.z && self.z <= m
    }

    /// Componentwise sum.
    pub fn plus(&self, o: &Vec3) -> (r: Vec3)
        requires
            i64::MIN <= self.x + o.x <= i64::MAX,
            i64::MIN <= self.y + o.y <= i64::MAX,
            i64::MIN <= self.z + o.z <= i64::MAX,
        ensures
            r.x == self.x + o.x && r.y == self.y + o.y && r.z == self.z + o.z,
    {
        Vec3 { x: self.x + o.x, y: self.y + o.y, z: self.z + o.z }
    }

    /// Componentwise difference.
    pub fn minus(&self, o: &Vec3) -> (r: Vec3)
        requires
            i64::MIN <= self.x - o.x <= i64::MAX,
            i64::MIN <= self.y - o.y <= i64::MAX,
            i64::MIN <= self.z - o.z <= i64::MAX,
        ensures
            r.x == self.x - o.x && r.y == self.y - o.y && r.z == self.z - o.z,
    {
        Vec3 { x: self.x - o.x, y: self.y - o.y, z: self.z - o.z }
    }

    /// Componentwise negation.
    pub fn negated(&self) -> (r: Vec3)
        requires
            self.x != i64::MIN && self.y != i64::MIN && self.z != i64::MIN,
        ensures
            r.x == -self.x && r.y == -self.y && r.z == -self.z,
    {
        Vec3 { x: -self.x, y: -self.y, z: -self.z }
    }

    /// Fixed-point scaling by `k`.
    pub fn scaled(&self, k: i64) -> (r: Vec3)
        requires
            iabs(k as int) <= 0x80_0000_0000,
            bounded(*self, 0x80_0000_0000),
        ensures
            r.x as int == fmul(k as int, self.x as int),
            r.y as int == fmul(k as int, self.y as int),
            r.z as int == fmul(k as int, self.z as int),
    {
        proof {
            lemma_mul_bound(k as int, self.x as int, 0x80_0000_0000, 0x80_0000_0000);
            lemma_mul_bound(k as int, self.y as int, 0x80_0000_0000, 0x80_0000_0000);
            lemma_mul_bound(k as int, self.z as int, 0x80_0000_0000, 0x80_0000_0000);
            lemma_tdiv(k as int * self.x as int, ONE as int);
            lemma_tdiv(k as int * self.y as int, ONE as int);
            lemma_tdiv(k as int * self.z as int, ONE as int);
        }
        Vec3 { x: fp_mul(k, self.x), y: fp_mul(k, self.y), z: fp_mul(k, self.z) }
    }

    /// Fixed-point dot product.
    pub fn dot(&self, v2: Vec3) -> (r: i64)
        requires
            bounded(*self, 0x40_0000_0000),
            bounded(v2, 0x40_0000_0000),
        ensures
            r as int == tdiv(dot_raw(*self, v2), ONE as int),
    {
        proof {
            lemma_mul_bound(self.x as int, v2.x as int, 0x40_0000_0000, 0x40_0000_0000);
            lemma_mul_bound(self.y as int, v2.y as int, 0x40_0000_0000, 0x40_0000_0000);
            lemma_mul_bound(self.z as int, v2.z as int, 0x40_0000_0000, 0x40_0000_0000);
            lemma_tdiv(dot_raw(*self, v2), ONE as int);
        }
        let w: i128 = (self.x as i128) * (v2.x as i128) + (self.y as i128) * (v2.y as i128)
            + (self.z as i128) * (v2.z as i128);
        div_trunc(w, ONE as i128) as i64
    }

    /// Unscaled dot product on a wide word, exact.
    pub fn dot_wide(&self, v2: &Vec3) -> (r: i128)
        requires
            bounded(*self, 0x4000_0000_0000_0000),
            bounded(*v2, 0x4000_0000_0000_0000),
        ensures
            r as int == dot_raw(*self, *v2),
    {
        proof {
            lemma_mul_bound(
                self.x as int,
                v2.x as int,
                0x4000_0000_0000_0000,
                0x4000_0000_0000_0000,
            );
            lemma_mul_bound(
                self.y as int,
                v2.y as int,
                0x4000_0000_0000_0000,
                0x4000_0000_0000_0000,
            );
            lemma_mul_bound(
                self.z as int,
                v2.z as int,
                0x4000_0000_0000_0000,
                0x4000_0000_0000_0000,
            );
        }
        (self.x as i128) * (v2.x as i128) + (self.y as i128) * (v2.y as i128) + (self.z as i128)
            * (v2.z as i128)
    }

    /// Fixed-point squared length.
    pub fn squared_length(&self) -> (r: i64)
        requires
            bounded(*self, 0x40_0000_0000),
        ensures
            r as int == tdiv(dot_raw(*self, *self), ONE as int),
            r >= 0,
    {
        proof {
            lemma_dot_raw_self_nonneg(*self);
            lemma_tdiv(dot_raw(*self, *self), ONE as int);
        }
        self.dot(*self)
    }

    /// Fixed-point length.
    pub fn length(&self) -> (r: i64)
        requires
            bounded(*self, 0x40_0000_0000),
        ensures
            r as int == len_spec(*self),
            r >= 0,
            (r as int) * (r as int) <= dot_raw(*self, *self),
            dot_raw(*self, *self) < (r as int + 1) * (r as int + 1),
            dot_raw(*self, *self) >= 1 ==> r >= 1,
    {
        proof {
            lemma_dot_raw_self_nonneg(*self);
            lemma_dot_raw_bound(*self, *self, 0x40_0000_0000);
        }
        let w: i128 = self.dot_wide(self);
        let s = isqrt(w as u128);
        proof {
            // The root of a number below 2^76 is below 2^38.
            assert(s as int <= 0x40_0000_0000_0000) by (nonlinear_arith)
                requires
                    (s as int) * (s as int) <= w as int,
                    w as int <= 3 * (0x40_0000_0000 * 0x40_0000_0000),
                    s >= 0,
            ;
        }
        s as i64
    }

    /// Normalize in place: each component becomes its fixed-point quotient
    /// by the old length.
    pub fn normalize(&mut self)
        requires
            bounded(*old(self), 0x40_0000_0000),
            dot_raw(*old(self), *old(self)) >= 1,
        ensures
            final(self).x as int == fdiv(old(self).x as int, len_spec(*old(self))),
            final(self).y as int == fdiv(old(self).y as int, len_spec(*old(self))),
            final(self).z as int == fdiv(old(self).z as int, len_spec(*old(self))),
            bounded(*final(self), ONE as int),
    {
        let u = Vec3::unit_vector(*self);
        self.x = u.x;
        self.y = u.y;
        self.z = u.z;
    }

    /// The vector scaled to unit length, in fixed point.
    pub fn unit_vector(v: Vec3) -> (r: Vec3)
        requires
            bounded(v, 0x40_0000_0000),
            dot_raw(v, v) >= 1,
        ensures
            r == unit_spec(v),
            r.x as int == fdiv(v.x as int, len_spec(v)),
            r.y as int == fdiv(v.y as int, len_spec(v)),
            r.z as int == fdiv(v.z as int, len_spec(v)),
            bounded(r, ONE as int),
    {
        let w: i128 = v.dot_wide(&v);
        let s = isqrt(w as u128);
        let len: i64 = {
            proof {
                lemma_dot_raw_bound(v, v, 0x40_0000_0000);
                assert(s as int <= 0x40_0000_0000_0000) by (nonlinear_arith)
                    requires
                        (s as int) * (s as int) <= w as int,
                        w as int <= 3 * (0x40_0000_0000 * 0x40_0000_0000),
                        s >= 0,
                ;
                assert(s >= 1) by (nonlinear_arith)
                    requires
                        (w as int) < (s as int + 1) * (s as int + 1),
                        w >= 1,
                        s >= 0,
                ;
            }
            s as i64
        };
        proof {
            let x = v.x as int;
            let y = v.y as int;
            let z = v.z as int;
            assert(x * x <= x * x + y * y + z * z && y * y <= x * x + y * y + z * z && z * z <= x
                * x + y * y + z * z) by (nonlinear_arith);
            lemma_unit_component(v.x as int, len as int, w as int);
            lemma_unit_component(v.y as int, len as int, w as int);
            lemma_unit_component(v.z as int, len as int, w as int);
        }
        Vec3 { x: fp_div(v.x, len), y: fp_div(v.y, len), z: fp_div(v.z, len) }
    }

    /// Fixed-point cross product.
    pub fn cross(&self, v2: Vec3) -> (r: Vec3)
        requires
            bounded(*self, 0x40_0000_0000),
            bounded(v2, 0x40_0000_0000),
        ensures
            r.x as int == tdiv(
                (self.y as int) * (v2.z as int) - (self.z as int) * (v2.y as int),
                ONE as int,
            ),
            r.y as int == tdiv(
                (self.z as int) * (v2.x as int) - (self.x as int) * (v2.z as int),
                ONE as int,
            ),
            r.z as int == tdiv(
                (self.x as int) * (v2.y as int) - (self.y as int) * (v2.x as int),
                ONE as int,
            ),
    {
        proof {
            lemma_mul_bound(self.y as int, v2.z as int, 0x40_0000_0000, 0x40_0000_0000);
            lemma_mul_bound(self.z as int, v2.y as int, 0x40_0000_0000, 0x40_0000_0000);
            lemma_mul_bound(self.z as int, v2.x as int, 0x40_0000_0000, 0x40_0000_0000);
            lemma_mul_bound(self.x as int, v2.z as int, 0x40_0000_0000, 0x40_0000_0000);
            lemma_mul_bound(self.x as int, v2.y as int, 0x40_0000_0000, 0x40_0000_0000);
            lemma_mul_bound(self.y as int, v2.x as int, 0x40_0000_0000, 0x40_0000_0000);
            lemma_tdiv((self.y as int) * (v2.z as int) - (self.z as int) * (v2.y as int), ONE as int);
            lemma_tdiv((self.z as int) * (v2.x as int) - (self.x as int) * (v2.z as int), ONE as int);
            lemma_tdiv((self.x as int) * (v2.y as int) - (self.y as int) * (v2.x as int), ONE as int);
        }
        let cx: i128 = (self.y as i128) * (v2.z as i128) - (self.z as i128) * (v2.y as i128);
        let cy: i128 = (self.z as i128) * (v2.x as i128) - (self.x as i128) * (v2.z as i128);
        let cz: i128 = (self.x as i128) * (v2.y as i128) - (self.y as i128) * (v2.x as i128);
        Vec3 {
            x: div_trunc(cx, ONE as i128) as i64,
            y: div_trunc(cy, ONE as i128) as i64,
            z: div_trunc(cz, ONE as i128) as i64,
        }
    }
}

/// A component divided by the vector's rounded-down length has magnitude at
/// most `ONE`, and the fixed-point quotient fits a machine word.
proof fn lemma_unit_component(c: int, len: int, w: int)
    requires
        len >= 1,
        len * len <= w,
        w < (len + 1) * (len + 1),
        c * c <= w,
    ensures
        iabs(fdiv(c, len)) <= ONE as int,
        i64::MIN <= fdiv(c, len) <= i64::MAX,
{
    assert(iabs(c) <= len) by (nonlinear_arith)
        requires
            c * c <= w,
            w < (len + 1) * (len + 1),
            len >= 1,
    ;
    lemma_tdiv(c * (ONE as int), len);
    assert(iabs(c * (ONE as int)) <= len * (ONE as int)) by (nonlinear_arith)
        requires
            iabs(c) <= len,
            len >= 1,
    ;
    lemma_div_is_ordered(iabs(c * (ONE as int)), len * (ONE as int), len);
    lemma_div_multiples_vanish(ONE as int, len);
    assert(iabs(fdiv(c, len)) == iabs(c * (ONE as int)) / len);
}

} // verus!
