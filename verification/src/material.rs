//! Scattering laws: diffuse, specular, dielectric and volumetric, together
//! with the textures their albedos are read from.
use vstd::prelude::*;

verus! {

use crate::fixed::ONE;
use crate::fixed::{fmul, fdiv, tdiv, iabs};
use crate::fixed::lemma_even_halves;
use crate::fixed::{div_floor, fmul_small, fdiv_small, isqrt, sqrt_floor};
use crate::fixed::{lemma_mul_bound, lemma_tdiv, lemma_tdiv_ordered, lemma_tdiv_multiple,
    lemma_fmul_unit, lemma_fmul_mono, lemma_sqrt_unique};
use crate::ray::Ray;
use crate::rng::{random_u32, random_unit};
use crate::vec3::{Vec3, bounded, dot_raw, unit_spec, len_spec, lemma_dot_raw_bound,
    lemma_dot_raw_bound2, lemma_dot_raw_self_nonneg};

/// A color whose channels lie between zero and one.
pub open spec fn color_wf(c: Vec3) -> bool {
    &&& 0 <= c.x <= ONE
    &&& 0 <= c.y <= ONE
    &&& 0 <= c.z <= ONE
}

/// An albedo source: a constant color, or a checker of two sources laid out
/// on the unit lattice.
pub enum Texture {
    Constant(Vec3),
    Checker(Box<Texture>, Box<Texture>),
}

/// Whether the lattice cell that holds `p` is an even cell: the parity of
/// the summed cell coordinates.
pub open spec fn checker_even(p: Vec3) -> bool {
    ((p.x as int / ONE as int) + (p.y as int / ONE as int) + (p.z as int / ONE as int)) % 2 == 0
}

/// The color a texture takes at a point.
pub open spec fn texture_value_spec(t: Texture, p: Vec3) -> Vec3
    decreases t,
{
    match t {
        Texture::Constant(c) => c,
        Texture::Checker(e, o) => if checker_even(p) {
            texture_value_spec(*e, p)
        } else {
            texture_value_spec(*o, p)
        },
    }
}

/// Every color a texture can take is a well-formed color.
pub open spec fn texture_wf(t: Texture) -> bool
    decreases t,
{
    match t {
        Texture::Constant(c) => color_wf(c),
        Texture::Checker(e, o) => texture_wf(*e) && texture_wf(*o),
    }
}

impl Texture {
    /// The color at `p`.
    pub fn value(&self, p: &Vec3) -> (r: Vec3)
        ensures
            r == texture_value_spec(*self, *p),
        decreases *self,
    {
        match self {
            Texture::Constant(c) => *c,
            Texture::Checker(e, o) => {
                let fx = div_floor(p.x as i128, ONE as i128);
                let fy = div_floor(p.y as i128, ONE as i128);
                let fz = div_floor(p.z as i128, ONE as i128);
                let s = fx + fy + fz;
                let h = div_floor(s, 2);
                proof {
                    lemma_even_halves(s as int);
                }
                if h * 2 == s {
                    e.value(p)
                } else {
                    o.value(p)
                }
            },
        }
    }
}

pub struct Lambertian {
    pub albedo: Texture,
}

pub struct Metal {
    pub albedo: Texture,
    pub fuzz: i64,
}

pub struct Dielectric {
    pub ref_idx: i64,
}

pub struct Isotropic {
    pub albedo: Texture,
}

/// The closed set of scattering laws a surface can follow.
pub enum Material {
    Lambertian(Lambertian),
    Metal(Metal),
    Dielectric(Dielectric),
    Isotropic(Isotropic),
}

/// Albedos take colors in range, fuzz lies between zero and one, and a
/// refractive index lies between one and sixteen.
pub open spec fn wf_material(m: Material) -> bool {
    match m {
        Material::Lambertian(l) => texture_wf(l.albedo),
        Material::Metal(mt) => texture_wf(mt.albedo) && 0 <= mt.fuzz <= ONE,
        Material::Dielectric(d) => ONE as int <= d.ref_idx as int <= 0x10_0000,
        Material::Isotropic(i) => texture_wf(i.albedo),
    }
}

impl Lambertian {
    pub fn new(albedo: Texture) -> (r: Lambertian)
        ensures
            r.albedo == albedo,
    {
        Lambertian { albedo }
    }
}

impl Metal {
    pub fn new(albedo: Texture, fuzz: i64) -> (r: Metal)
        ensures
            r.albedo == albedo && r.fuzz == fuzz,
    {
        Metal { albedo, fuzz }
    }
}

impl Dielectric {
    pub fn new(ref_idx: i64) -> (r: Dielectric)
        ensures
            r.ref_idx == ref_idx,
    {
        Dielectric { ref_idx }
    }
}

impl Isotropic {
    pub fn new(albedo: Texture) -> (r: Isotropic)
        ensures
            r.albedo == albedo,
    {
        Isotropic { albedo }
    }
}

/// What a scatter produces: whether the ray survives, the componentwise
/// attenuation, and the outgoing ray.
pub struct ScatterRecord {
    pub should_scatter: bool,
    pub attenuation: Vec3,
    pub scattered: Ray,
}

/// Any color a well-formed texture takes is a well-formed color.
pub proof fn lemma_texture_value_wf(t: Texture, p: Vec3)
    requires
        texture_wf(t),
    ensures
        color_wf(texture_value_spec(t, p)),
    decreases t,
{
    match t {
        Texture::Constant(_) => {},
        Texture::Checker(e, o) => {
            lemma_texture_value_wf(*e, p);
            lemma_texture_value_wf(*o, p);
        },
    }
}

/// A point drawn uniformly from the unit ball by rejection: draw a point of
/// the cube until its raw square is below one. The textbook loop is
/// unbounded with about two expected draws; a termination measure is
/// mandatory here, so the attempts are capped — at a count the sampler has
/// no realistic chance of exhausting (the odds are below one in 10^1200) —
/// and the fallback is the center, which the ball contains.
fn random_in_unit_sphere() -> (r: Vec3)
    ensures
        dot_raw(r, r) < 65536 * 65536,
        bounded(r, ONE as int),
{
    let mut i: u32 = 0;
    while i < 4096
        invariant
            true,
        decreases 4096 - i,
    {
        let p = Vec3 {
            x: 2 * random_unit() - ONE,
            y: 2 * random_unit() - ONE,
            z: 2 * random_unit() - ONE,
        };
        proof {
            lemma_dot_raw_bound(p, p, ONE as int);
        }
        let sl = p.dot_wide(&p);
        if sl < 65536 * 65536 {
            return p;
        }
        i = i + 1;
    }
    Vec3 { x: 0, y: 0, z: 0 }
}

/// The mirror image of `v` about `n`: `v - 2 (v.n) n`, with the fixed-point
/// dot product and scaling.
pub open spec fn reflect_spec(v: Vec3, n: Vec3) -> Vec3 {
    let d = tdiv(dot_raw(v, n), ONE as int);
    Vec3 {
        x: (v.x - fmul(2 * d, n.x as int)) as i64,
        y: (v.y - fmul(2 * d, n.y as int)) as i64,
        z: (v.z - fmul(2 * d, n.z as int)) as i64,
    }
}

/// Reflect `v` about the normal `n`.
pub fn reflect(v: Vec3, n: Vec3) -> (r: Vec3)
    requires
        bounded(v, 0x100_0000),
        bounded(n, 0x2_0000),
    ensures
        r == reflect_spec(v, n),
        bounded(r, 0x4000_0000),
{
    let d = v.dot(n);
    proof {
        lemma_dot_raw_bound2(v, n, 0x100_0000, 0x2_0000);
        lemma_tdiv(dot_raw(v, n), ONE as int);
        assert(iabs(2 * d as int) <= 0x1000_0000);
        lemma_mul_bound(2 * d as int, n.x as int, 0x1000_0000, 0x2_0000);
        lemma_mul_bound(2 * d as int, n.y as int, 0x1000_0000, 0x2_0000);
        lemma_mul_bound(2 * d as int, n.z as int, 0x1000_0000, 0x2_0000);
        lemma_tdiv((2 * d as int) * (n.x as int), ONE as int);
        lemma_tdiv((2 * d as int) * (n.y as int), ONE as int);
        lemma_tdiv((2 * d as int) * (n.z as int), ONE as int);
    }
    let s = n.scaled(2 * d);
    v.minus(&s)
}

/// The fifth fixed-point power.
pub open spec fn fpow5(x: int) -> int {
    fmul(fmul(fmul(fmul(x, x), x), x), x)
}

/// Schlick's approximation to the Fresnel reflectance:
/// `r0 + (1 - r0) (1 - cos)^5` with `r0 = ((1 - n) / (1 + n))^2`.
pub open spec fn schlick_r0(ref_idx: int) -> int {
    let a = fdiv(ONE - ref_idx, ONE + ref_idx);
    fmul(a, a)
}

pub open spec fn schlick_spec(cosine: int, ref_idx: int) -> int {
    schlick_r0(ref_idx) + fmul(ONE - schlick_r0(ref_idx), fpow5(ONE - cosine))
}

/// The base reflectance lies in `[0, 1)`.
pub proof fn lemma_schlick_r0_range(ref_idx: int)
    requires
        ONE as int <= ref_idx <= 0x10_0000,
    ensures
        0 <= schlick_r0(ref_idx) < ONE,
        iabs(fdiv(ONE - ref_idx, ONE + ref_idx)) <= 65535,
{
    let a = fdiv(ONE - ref_idx, ONE + ref_idx);
    lemma_tdiv((ONE - ref_idx) * (ONE as int), ONE + ref_idx);
    assert(iabs((ONE - ref_idx) * 65536) <= (ref_idx - ONE) * 65536) by (nonlinear_arith)
        requires
            ref_idx >= ONE as int,
    ;
    assert((ref_idx - ONE) * 65536 <= (ref_idx + ONE) * 65536 - 65536) by (nonlinear_arith);
    vstd::arithmetic::div_mod::lemma_div_is_ordered(
        iabs((ONE - ref_idx) * 65536),
        (ONE + ref_idx) * 65536 - 65536,
        ONE + ref_idx,
    );
    assert(((ONE + ref_idx) * 65536 - 65536) / (ONE + ref_idx) < 65536) by {
        crate::fixed::lemma_le_div_iff_mul_le((ONE + ref_idx) * 65536 - 65536, ONE + ref_idx, 65536);
        assert(65536 * (ONE + ref_idx) > (ONE + ref_idx) * 65536 - 65536) by (nonlinear_arith);
    }
    assert(iabs(a) == iabs((ONE - ref_idx) * 65536) / (ONE + ref_idx));
    assert(iabs(a) <= 65535);
    // The square of a value below one stays in [0, 1).
    lemma_tdiv(a * a, ONE as int);
    assert(0 <= a * a <= (65535int * 65535)) by (nonlinear_arith)
        requires
            iabs(a) <= 65535,
    ;
    lemma_tdiv_ordered(a * a, 65535int * 65535, 65536);
    assert(tdiv(65535int * 65535, 65536) < 65536) by {
        assert(65535int * 65535 < 65536int * 65536);
        lemma_tdiv_ordered(65535int * 65535, 65535int * 65536, 65536);
        lemma_tdiv_multiple(65535, 65536);
    }
}

/// The fifth power maps the unit interval into itself, monotonically.
pub proof fn lemma_fpow5_unit_mono(x1: int, x2: int)
    requires
        0 <= x1 <= x2 <= ONE,
    ensures
        0 <= fpow5(x1) <= fpow5(x2) <= ONE,
{
    lemma_fpow_step(x1, x2, x1, x2);
    lemma_fpow_step(x1, x2, fmul(x1, x1), fmul(x2, x2));
    lemma_fpow_step(x1, x2, fmul(fmul(x1, x1), x1), fmul(fmul(x2, x2), x2));
    lemma_fpow_step(
        x1,
        x2,
        fmul(fmul(fmul(x1, x1), x1), x1),
        fmul(fmul(fmul(x2, x2), x2), x2),
    );
    lemma_fpow_step(
        x1,
        x2,
        fmul(fmul(fmul(fmul(x1, x1), x1), x1), x1),
        fmul(fmul(fmul(fmul(x2, x2), x2), x2), x2),
    );
}

/// One power step: multiplying ordered unit values by ordered unit factors
/// keeps the order and the interval.
proof fn lemma_fpow_step(x1: int, x2: int, p1: int, p2: int)
    requires
        0 <= x1 <= x2 <= ONE,
        0 <= p1 <= p2 <= ONE,
    ensures
        0 <= fmul(p1, x1) <= fmul(p2, x2) <= ONE,
{
    lemma_fmul_unit(p1, x1);
    lemma_fmul_unit(p2, x2);
    lemma_fmul_mono(p1, x1, x2);
    assert(p1 * x2 <= p2 * x2) by (nonlinear_arith)
        requires
            0 <= p1 <= p2,
            0 <= x2,
    ;
    lemma_tdiv_ordered(p1 * x2, p2 * x2, 65536);
}

/// At normal incidence the Schlick reflectance is exactly the base
/// reflectance.
pub proof fn lemma_schlick_normal_incidence(ref_idx: int)
    ensures
        schlick_spec(ONE as int, ref_idx) == schlick_r0(ref_idx),
{
    assert(fpow5(0) == 0) by {
        assert(fmul(0, 0) == 0) by {
            lemma_tdiv_multiple(0, 65536);
        }
    }
    assert(fmul(ONE - schlick_r0(ref_idx), 0) == 0) by {
        lemma_tdiv_multiple(0, 65536);
        assert((ONE - schlick_r0(ref_idx)) * 0 == 0) by (nonlinear_arith);
    }
}

/// Reflectance does not decrease as the incidence moves from normal toward
/// grazing: a smaller cosine gives at least as much reflection.
pub proof fn lemma_schlick_monotone(c1: int, c2: int, ref_idx: int)
    requires
        0 <= c1 <= c2 <= ONE,
        ONE as int <= ref_idx <= 0x10_0000,
    ensures
        schlick_spec(c2, ref_idx) <= schlick_spec(c1, ref_idx),
{
    let r0 = schlick_r0(ref_idx);
    lemma_schlick_r0_range(ref_idx);
    lemma_fpow5_unit_mono(ONE - c2, ONE - c1);
    lemma_fmul_mono(ONE - r0, fpow5(ONE - c2), fpow5(ONE - c1));
}

/// Schlick reflectance, in fixed point.
pub fn schlick(cosine: i64, ref_idx: i64) -> (r: i64)
    requires
        0 <= cosine <= ONE,
        ONE <= ref_idx <= 0x10_0000,
    ensures
        r as int == schlick_spec(cosine as int, ref_idx as int),
        schlick_r0(ref_idx as int) <= r as int <= ONE,
        0 <= r,
{
    proof {
        lemma_schlick_r0_range(ref_idx as int);
    }
    let a = fdiv_small(ONE - ref_idx, ONE + ref_idx);
    let r0 = fmul_small(a, a);
    let x = ONE - cosine;
    proof {
        lemma_fpow5_unit_mono(0, x as int);
        lemma_fpow5_unit_mono(x as int, x as int);
        lemma_fmul_unit(x as int, x as int);
        lemma_fmul_unit(fmul(x as int, x as int), x as int);
        lemma_fmul_unit(fmul(fmul(x as int, x as int), x as int), x as int);
        lemma_fmul_unit(fmul(fmul(fmul(x as int, x as int), x as int), x as int), x as int);
        lemma_fmul_unit((ONE - r0) as int, fpow5(x as int));
    }
    let x2 = fmul_small(x, x);
    let x3 = fmul_small(x2, x);
    let x4 = fmul_small(x3, x);
    let x5 = fmul_small(x4, x);
    r0 + fmul_small(ONE - r0, x5)
}

/// The outcome of an attempted refraction.
struct RefractRecord {
    should_refract: bool,
    refracted: Vec3,
}

/// The refraction discriminant: `1 - n^2 (1 - dt^2)` for the fixed-point
/// dot `dt` of the unit incoming direction with the outward normal.
pub open spec fn refract_disc_spec(v: Vec3, n: Vec3, nint: int) -> int {
    let uv = unit_spec(v);
    let dt = tdiv(dot_raw(uv, n), ONE as int);
    ONE - fmul(fmul(nint, nint), ONE - fmul(dt, dt))
}

/// The refracted direction: `n_ratio (uv - n dt) - n sqrt(disc)`.
pub open spec fn refract_vec_spec(v: Vec3, n: Vec3, nint: int) -> Vec3 {
    let uv = unit_spec(v);
    let dt = tdiv(dot_raw(uv, n), ONE as int);
    let disc = refract_disc_spec(v, n, nint);
    let s = sqrt_floor((disc * 65536) as nat) as int;
    Vec3 {
        x: (fmul(nint, uv.x - fmul(dt, n.x as int)) - fmul(s, n.x as int)) as i64,
        y: (fmul(nint, uv.y - fmul(dt, n.y as int)) - fmul(s, n.y as int)) as i64,
        z: (fmul(nint, uv.z - fmul(dt, n.z as int)) - fmul(s, n.z as int)) as i64,
    }
}

/// Attempt Snell refraction of `v` about the outward normal `n` with the
/// refractive ratio `nint`; fails exactly when the discriminant shows total
/// internal reflection.
fn refract(v: Vec3, n: Vec3, nint: i64) -> (rec: RefractRecord)
    requires
        bounded(v, 0x100_0000),
        dot_raw(v, v) >= 1,
        bounded(n, 0x2_0000),
        1 <= nint <= 0x10_0000,
    ensures
        rec.should_refract == (refract_disc_spec(v, n, nint as int) > 0),
        rec.should_refract ==> rec.refracted == refract_vec_spec(v, n, nint as int),
        !rec.should_refract ==> rec.refracted == (Vec3 { x: 0, y: 0, z: 0 }),
        bounded(rec.refracted, 0x2000_0000_0000),
{
    let uv = Vec3::unit_vector(v);
    let dt = uv.dot(n);
    proof {
        lemma_dot_raw_bound2(uv, n, ONE as int, 0x2_0000);
        lemma_tdiv(dot_raw(uv, n), ONE as int);
        assert(iabs(dt as int) <= 0x8_0000);
        lemma_mul_bound(dt as int, dt as int, 0x8_0000, 0x8_0000);
        lemma_mul_bound(nint as int, nint as int, 0x10_0000, 0x10_0000);
    }
    let dtdt = fmul_small(dt, dt);
    let nn = fmul_small(nint, nint);
    proof {
        assert(iabs(dtdt as int) <= 0x40_0000);
        assert(iabs(nn as int) <= 0x100_0000);
        lemma_mul_bound(nn as int, (ONE - dtdt) as int, 0x100_0000, 0x80_0000);
    }
    let inner = fmul_small(nn, ONE - dtdt);
    let disc = ONE - inner;
    if disc > 0 {
        proof {
            assert(iabs(inner as int) <= 0x8000_0000);
            assert(disc as int <= 0x1_0000_0000);
        }
        let wide: i128 = (disc as i128) * 65536;
        let sq = isqrt(wide as u128);
        proof {
            assert((sq as int) * (sq as int) <= wide as int);
            assert(sq as int <= 0x100_0000) by (nonlinear_arith)
                requires
                    (sq as int) * (sq as int) <= wide as int,
                    wide as int <= (0x100_0000 * 0x100_0000),
                    sq >= 0,
            ;
        }
        let s = sq as i64;
        proof {
            lemma_mul_bound(dt as int, n.x as int, 0x8_0000, 0x2_0000);
            lemma_mul_bound(dt as int, n.y as int, 0x8_0000, 0x2_0000);
            lemma_mul_bound(dt as int, n.z as int, 0x8_0000, 0x2_0000);
        }
        let mx = fmul_small(dt, n.x);
        let my = fmul_small(dt, n.y);
        let mz = fmul_small(dt, n.z);
        proof {
            assert(iabs(mx as int) <= 0x10_0000 && iabs(my as int) <= 0x10_0000 && iabs(
                mz as int,
            ) <= 0x10_0000);
        }
        let rx = fmul_small(nint, uv.x - mx);
        let ry = fmul_small(nint, uv.y - my);
        let rz = fmul_small(nint, uv.z - mz);
        let sx = fmul_small(s, n.x);
        let sy = fmul_small(s, n.y);
        let sz = fmul_small(s, n.z);
        let refracted = Vec3 { x: rx - sx, y: ry - sy, z: rz - sz };
        RefractRecord { should_refract: true, refracted }
    } else {
        RefractRecord { should_refract: false, refracted: Vec3 { x: 0, y: 0, z: 0 } }
    }
}

impl Lambertian {
    /// Diffuse scatter: a new ray toward the normal jittered inside the
    /// unit ball; always scatters, attenuated by the albedo at the point.
    pub fn scatter(&self, _r: &Ray, _t: i64, point: Vec3, normal: Vec3) -> (res: ScatterRecord)
        requires
            bounded(point, 0x2000_0000_0000_0000),
            bounded(normal, 0x2_0000),
        ensures
            res.should_scatter,
            res.attenuation == texture_value_spec(self.albedo, point),
            res.scattered.origin == point,
            exists|rv: Vec3|
                #[trigger] dot_raw(rv, rv) < (65536 * 65536) && bounded(rv, ONE as int)
                    && res.scattered.direction == (Vec3 {
                    x: (normal.x + rv.x) as i64,
                    y: (normal.y + rv.y) as i64,
                    z: (normal.z + rv.z) as i64,
                }),
            texture_wf(self.albedo) ==> color_wf(res.attenuation),
            bounded(res.scattered.direction, 0x4_0000),
    {
        let rv = random_in_unit_sphere();
        let direction = normal.plus(&rv);
        proof {
            if texture_wf(self.albedo) {
                lemma_texture_value_wf(self.albedo, point);
            }
        }
        ScatterRecord {
            should_scatter: true,
            attenuation: self.albedo.value(&point),
            scattered: Ray { origin: point, direction },
        }
    }
}

impl Isotropic {
    /// Uniform scatter inside a medium: a new ray in a random direction,
    /// attenuated by the albedo at the point.
    pub fn scatter(&self, _r: &Ray, _t: i64, point: Vec3, _normal: Vec3) -> (res: ScatterRecord)
        requires
            bounded(point, 0x2000_0000_0000_0000),
        ensures
            res.should_scatter,
            res.attenuation == texture_value_spec(self.albedo, point),
            res.scattered.origin == point,
            exists|rv: Vec3|
                #[trigger] dot_raw(rv, rv) < (65536 * 65536) && bounded(rv, ONE as int)
                    && res.scattered.direction == rv,
            texture_wf(self.albedo) ==> color_wf(res.attenuation),
            bounded(res.scattered.direction, ONE as int),
    {
        let rv = random_in_unit_sphere();
        proof {
            if texture_wf(self.albedo) {
                lemma_texture_value_wf(self.albedo, point);
            }
        }
        ScatterRecord {
            should_scatter: true,
            attenuation: self.albedo.value(&point),
            scattered: Ray { origin: point, direction: rv },
        }
    }
}

/// The direction a metal scatter produces from the draw `rv`: the mirrored
/// unit direction, jittered by the fuzzed draw.
pub open spec fn metal_dir_spec(r: Ray, normal: Vec3, fuzz: int, rv: Vec3) -> Vec3 {
    let m = reflect_spec(unit_spec(r.direction), normal);
    Vec3 {
        x: (m.x + fmul(fuzz, rv.x as int)) as i64,
        y: (m.y + fmul(fuzz, rv.y as int)) as i64,
        z: (m.z + fmul(fuzz, rv.z as int)) as i64,
    }
}

impl Metal {
    /// Specular scatter: mirror the unit incoming direction about the
    /// normal and jitter it by the fuzz; the ray is absorbed when the
    /// jittered direction no longer leaves the surface. With zero fuzz the
    /// direction is the exact mirror image, whatever the generator drew.
    pub fn scatter(&self, r: &Ray, _t: i64, point: Vec3, normal: Vec3) -> (res: ScatterRecord)
        requires
            0 <= self.fuzz <= ONE,
            bounded(r.direction, 0x4000_0000),
            dot_raw(r.direction, r.direction) >= 1,
            bounded(point, 0x2000_0000_0000_0000),
            bounded(normal, 0x2_0000),
        ensures
            res.scattered.origin == point,
            res.should_scatter == (tdiv(
                dot_raw(res.scattered.direction, normal),
                ONE as int,
            ) > 0),
            self.fuzz == 0 ==> res.scattered.direction == reflect_spec(
                unit_spec(r.direction),
                normal,
            ),
            exists|rv: Vec3|
                #[trigger] dot_raw(rv, rv) < (65536 * 65536) && bounded(rv, ONE as int)
                    && res.scattered.direction == metal_dir_spec(*r, normal, self.fuzz as int, rv),
            res.should_scatter ==> res.attenuation == texture_value_spec(self.albedo, point),
            !res.should_scatter ==> res.attenuation == (Vec3 { x: 0, y: 0, z: 0 }),
            texture_wf(self.albedo) ==> color_wf(res.attenuation),
            bounded(res.scattered.direction, 0x8000_0000),
    {
        let u = Vec3::unit_vector(r.direction);
        let reflected = reflect(u, normal);
        let rv = random_in_unit_sphere();
        let jx = fmul_small(self.fuzz, rv.x);
        let jy = fmul_small(self.fuzz, rv.y);
        let jz = fmul_small(self.fuzz, rv.z);
        proof {
            lemma_fmul_unit(self.fuzz as int, iabs(rv.x as int));
            if self.fuzz == 0 {
                lemma_tdiv_multiple(0, 65536);
                assert((0int) * (rv.x as int) == 0 && (0int) * (rv.y as int) == 0 && (0int) * (
                rv.z as int) == 0) by (nonlinear_arith);
            }
            assert(iabs(jx as int) <= ONE as int && iabs(jy as int) <= ONE as int && iabs(
                jz as int,
            ) <= ONE as int) by {
                lemma_fmul_abs_unit(self.fuzz as int, rv.x as int);
                lemma_fmul_abs_unit(self.fuzz as int, rv.y as int);
                lemma_fmul_abs_unit(self.fuzz as int, rv.z as int);
            }
        }
        let direction = Vec3 { x: reflected.x + jx, y: reflected.y + jy, z: reflected.z + jz };
        let scattered = Ray { origin: point, direction };
        let d = direction.dot(normal);
        proof {
            if texture_wf(self.albedo) {
                lemma_texture_value_wf(self.albedo, point);
            }
        }
        if d > 0 {
            ScatterRecord {
                should_scatter: true,
                attenuation: self.albedo.value(&point),
                scattered,
            }
        } else {
            ScatterRecord {
                should_scatter: false,
                attenuation: Vec3 { x: 0, y: 0, z: 0 },
                scattered,
            }
        }
    }
}

/// The fixed-point product of unit-bounded factors is unit-bounded in
/// magnitude.
proof fn lemma_fmul_abs_unit(a: int, b: int)
    requires
        0 <= a <= ONE,
        iabs(b) <= ONE,
    ensures
        iabs(fmul(a, b)) <= ONE,
{
    lemma_mul_bound(a, b, ONE as int, ONE as int);
    lemma_tdiv(a * b, ONE as int);
    if a * b >= 0 {
        lemma_tdiv_ordered(a * b, 65536int * 65536, 65536);
        lemma_tdiv_multiple(65536, 65536);
    } else {
        lemma_tdiv_ordered(-(a * b), 65536int * 65536, 65536);
        lemma_tdiv_multiple(65536, 65536);
        assert(tdiv(a * b, 65536) == -tdiv(-(a * b), 65536));
    }
}

/// The outward normal a dielectric crossing uses: against the ray when the
/// ray runs with the stored normal, else the stored normal itself.
pub open spec fn dielectric_outward(r: Ray, normal: Vec3) -> Vec3 {
    if tdiv(dot_raw(r.direction, normal), ONE as int) > 0 {
        Vec3 { x: (-normal.x) as i64, y: (-normal.y) as i64, z: (-normal.z) as i64 }
    } else {
        normal
    }
}

/// The refractive ratio for that crossing: the index itself when leaving
/// the medium, its reciprocal when entering.
pub open spec fn dielectric_ratio(r: Ray, normal: Vec3, ref_idx: int) -> int {
    if tdiv(dot_raw(r.direction, normal), ONE as int) > 0 {
        ref_idx
    } else {
        fdiv(ONE as int, ref_idx)
    }
}

/// The incidence cosine a dielectric uses, exactly as computed: the
/// fixed-point dot over the length, scaled by the index when leaving the
/// medium, and guarded into the unit interval against rounding.
pub open spec fn dielectric_cosine(r: Ray, normal: Vec3, ref_idx: int) -> int {
    let d = tdiv(dot_raw(r.direction, normal), ONE as int);
    let len = len_spec(r.direction);
    let c0r = if d > 0 {
        fdiv(d, len)
    } else {
        fdiv(-d, len)
    };
    let c0 = if c0r > 0x4000_0000 {
        0x4000_0000
    } else {
        c0r
    };
    let craw = if d > 0 {
        fmul(ref_idx, c0)
    } else {
        c0
    };
    if craw < 0 {
        0
    } else if craw > ONE {
        ONE as int
    } else {
        craw
    }
}

/// The probability of reflecting rather than refracting: Schlick's value
/// when refraction is geometrically possible, certainty otherwise.
pub open spec fn dielectric_reflect_prob(r: Ray, normal: Vec3, ref_idx: int) -> int {
    if refract_disc_spec(
        r.direction,
        dielectric_outward(r, normal),
        dielectric_ratio(r, normal, ref_idx),
    ) > 0 {
        schlick_spec(dielectric_cosine(r, normal, ref_idx), ref_idx)
    } else {
        2 * (ONE as int)
    }
}

/// The direction a dielectric produces from the uniform draw `u`: the
/// mirror image when the draw falls under the reflection probability, the
/// refracted direction otherwise.
pub open spec fn dielectric_choice(r: Ray, normal: Vec3, ref_idx: int, u: int) -> Vec3 {
    if u < dielectric_reflect_prob(r, normal, ref_idx) {
        reflect_spec(r.direction, normal)
    } else {
        refract_vec_spec(
            r.direction,
            dielectric_outward(r, normal),
            dielectric_ratio(r, normal, ref_idx),
        )
    }
}

impl Dielectric {
    /// Dielectric scatter: pick the side being crossed, try Snell
    /// refraction, and on success choose between reflection and refraction
    /// with the Schlick probability; under total internal reflection the
    /// ray always reflects. The ray is never absorbed and never tinted.
    pub fn scatter(&self, r: &Ray, _t: i64, point: Vec3, normal: Vec3) -> (res: ScatterRecord)
        requires
            ONE <= self.ref_idx <= 0x10_0000,
            bounded(r.direction, 0x100_0000),
            dot_raw(r.direction, r.direction) >= 1,
            bounded(point, 0x2000_0000_0000_0000),
            bounded(normal, 0x2_0000),
        ensures
            res.should_scatter,
            res.attenuation == (Vec3 { x: ONE, y: ONE, z: ONE }),
            res.scattered.origin == point,
            res.scattered.direction == reflect_spec(r.direction, normal)
                || res.scattered.direction == refract_vec_spec(
                r.direction,
                dielectric_outward(*r, normal),
                dielectric_ratio(*r, normal, self.ref_idx as int),
            ),
            refract_disc_spec(
                r.direction,
                dielectric_outward(*r, normal),
                dielectric_ratio(*r, normal, self.ref_idx as int),
            ) <= 0 ==> res.scattered.direction == reflect_spec(r.direction, normal),
            exists|u: int|
                0 <= u < ONE && (#[trigger] dielectric_choice(*r, normal, self.ref_idx as int, u))
                    == res.scattered.direction,
            bounded(res.scattered.direction, 0x2000_0000_0000),
    {
        let reflected = reflect(r.direction, normal);
        let d = r.direction.dot(normal);
        let len = r.direction.length();
        let outward_normal: Vec3;
        let ni_over_nt: i64;
        let cosine_raw: i64;
        if d > 0 {
            outward_normal = Vec3 { x: -normal.x, y: -normal.y, z: -normal.z };
            ni_over_nt = self.ref_idx;
            proof {
                lemma_dot_raw_bound(r.direction, normal, 0x100_0000);
                lemma_tdiv(dot_raw(r.direction, normal), ONE as int);
            }
            let c0 = fdiv_small(d, len);
            cosine_raw = fmul_small(self.ref_idx, if c0 > 0x4000_0000 {
                0x4000_0000
            } else {
                c0
            });
        } else {
            outward_normal = normal;
            proof {
                lemma_tdiv((ONE as int) * (ONE as int), self.ref_idx as int);
            }
            ni_over_nt = fdiv_small(ONE, self.ref_idx);
            proof {
                lemma_dot_raw_bound(r.direction, normal, 0x100_0000);
                lemma_tdiv(dot_raw(r.direction, normal), ONE as int);
            }
            let c0 = fdiv_small(-d, len);
            cosine_raw = if c0 > 0x4000_0000 {
                0x4000_0000
            } else {
                c0
            };
        }
        // Guard the cosine into the unit interval: rounding can nudge it
        // past one.
        let cosine = if cosine_raw < 0 {
            0
        } else if cosine_raw > ONE {
            ONE
        } else {
            cosine_raw
        };
        proof {
            assert(1 <= ni_over_nt <= 0x10_0000) by {
                if !(d > 0) {
                    lemma_fdiv_one_over(self.ref_idx as int);
                }
            }
        }
        let refract_rec = refract(r.direction, outward_normal, ni_over_nt);
        let reflect_prob: i64 = if refract_rec.should_refract {
            schlick(cosine, self.ref_idx)
        } else {
            2 * ONE
        };
        let u = random_unit();
        let scattered = if u < reflect_prob {
            Ray { origin: point, direction: reflected }
        } else {
            Ray { origin: point, direction: refract_rec.refracted }
        };
        proof {
            if !refract_rec.should_refract {
                assert(u < reflect_prob);
            }
            assert(cosine as int == dielectric_cosine(*r, normal, self.ref_idx as int));
            assert(reflect_prob as int == dielectric_reflect_prob(*r, normal, self.ref_idx as int));
            assert(dielectric_choice(*r, normal, self.ref_idx as int, u as int)
                == scattered.direction);
        }
        ScatterRecord {
            should_scatter: true,
            attenuation: Vec3 { x: ONE, y: ONE, z: ONE },
            scattered,
        }
    }
}

/// The reciprocal of a refractive index of at least one is at least one
/// fixed-point unit.
proof fn lemma_fdiv_one_over(ri: int)
    requires
        ONE as int <= ri <= 0x10_0000,
    ensures
        1 <= fdiv(ONE as int, ri) <= ONE,
{
    lemma_tdiv((ONE as int) * (ONE as int), ri);
    assert(tdiv(65536int * 65536, ri) >= 1) by {
        crate::fixed::lemma_le_div_iff_mul_le(65536int * 65536, ri, 1);
        assert(1 * ri <= (65536int * 65536)) by (nonlinear_arith)
            requires
                ri <= 0x10_0000,
        ;
        assert(tdiv(65536int * 65536, ri) == (65536int * 65536) / ri);
    }
    assert(tdiv(65536int * 65536, ri) <= ONE) by {
        assert(65536int * 65536 <= ri * 65536) by (nonlinear_arith)
            requires
                ri >= 65536,
        ;
        lemma_tdiv_ordered(65536int * 65536, ri * 65536, ri);
        lemma_tdiv_multiple(65536, ri);
    }
}

impl Material {
    /// Scatter dispatch over the closed set of materials.
    pub fn scatter(&self, r: &Ray, t: i64, point: Vec3, normal: Vec3) -> (res: ScatterRecord)
        requires
            wf_material(*self),
            bounded(r.direction, 0x100_0000),
            dot_raw(r.direction, r.direction) >= 1,
            bounded(point, 0x2000_0000_0000_0000),
            bounded(normal, 0x2_0000),
        ensures
            color_wf(res.attenuation),
            res.scattered.origin == point,
            bounded(res.scattered.direction, 0x1_0000_0000_0000),
            self is Lambertian || self is Dielectric || self is Isotropic
                ==> res.should_scatter,
    {
        match self {
            Material::Lambertian(m) => m.scatter(r, t, point, normal),
            Material::Metal(m) => m.scatter(r, t, point, normal),
            Material::Dielectric(m) => m.scatter(r, t, point, normal),
            Material::Isotropic(m) => m.scatter(r, t, point, normal),
        }
    }
}

} // verus!
