//! The radiance estimator: intersect, scatter, attenuate, and bound the
//! bounce count — written as a loop with an accumulating attenuation, which
//! computes the same product the recursion would.
use vstd::prelude::*;

verus! {

use crate::fixed::{fmul, tdiv, iabs, ONE};
use crate::fixed::{fmul_small, div_floor};
use crate::fixed::{lemma_fmul_unit, lemma_tdiv, lemma_tdiv_multiple, lemma_tdiv_ordered};
use crate::hitable::{Hitable, all_spheres, prims, is_nearest, lemma_nearest_unique};
use crate::material::color_wf;
use crate::ray::Ray;
use crate::vec3::{Vec3, bounded, dot_raw, unit_spec};

/// Rays start just off their origin, to dodge self-intersection.
pub const T_MIN: i64 = 66;

/// The far plane: fifty units out.
pub const T_MAX: i64 = 3276800;

/// The background: white at the horizon blending to sky blue overhead,
/// keyed by the unit direction's height. A degenerate direction gets plain
/// white.
pub open spec fn sky_spec(d: Vec3) -> Vec3 {
    if dot_raw(d, d) < 1 {
        Vec3 { x: ONE, y: ONE, z: ONE }
    } else {
        let u = unit_spec(d);
        let t = tdiv(u.y + ONE, 2);
        Vec3 { x: (ONE - t + fmul(t, 32768)) as i64, y: (ONE - t + fmul(t, 45875)) as i64, z: ONE }
    }
}

/// The background radiance for a direction.
pub fn sky_color(d: &Vec3) -> (c: Vec3)
    requires
        bounded(*d, 0x4000_0000),
    ensures
        c == sky_spec(*d),
        color_wf(c),
{
    let w = d.dot_wide(d);
    if w < 1 {
        Vec3 { x: ONE, y: ONE, z: ONE }
    } else {
        let u = Vec3::unit_vector(*d);
        let t = div_floor((u.y + ONE) as i128, 2) as i64;
        proof {
            lemma_tdiv(u.y as int + ONE as int, 2);
            assert(t as int == tdiv(u.y as int + ONE as int, 2));
            lemma_tdiv_ordered(u.y as int + ONE as int, 2 * (ONE as int), 2);
            lemma_tdiv_multiple(ONE as int, 2);
            assert((ONE as int) * 2 == 2 * (ONE as int));
            lemma_fmul_unit(t as int, 32768);
            lemma_fmul_unit(t as int, 45875);
        }
        let bx = fmul_small(t, 32768);
        let by = fmul_small(t, 45875);
        Vec3 { x: ONE - t + bx, y: ONE - t + by, z: ONE }
    }
}

/// Componentwise fixed-point product of two colors.
fn mul_color(a: Vec3, b: Vec3) -> (r: Vec3)
    requires
        color_wf(a),
        color_wf(b),
    ensures
        r.x as int == fmul(a.x as int, b.x as int),
        r.y as int == fmul(a.y as int, b.y as int),
        r.z as int == fmul(a.z as int, b.z as int),
        color_wf(r),
{
    proof {
        lemma_fmul_unit(a.x as int, b.x as int);
        lemma_fmul_unit(a.y as int, b.y as int);
        lemma_fmul_unit(a.z as int, b.z as int);
    }
    Vec3 {
        x: fmul_small(a.x, b.x),
        y: fmul_small(a.y, b.y),
        z: fmul_small(a.z, b.z),
    }
}

/// Estimate the radiance carried to the ray's origin: follow the ray
/// through the scene, attenuating at each scatter, until a miss reaches the
/// sky, the ray is absorbed, or the depth cap falls — absorption and
/// exhaustion both yield black, so the result is always a color in range.
/// Over a scene of spheres that the ray misses entirely, the result is
/// exactly the sky gradient of the incoming direction.
pub fn radiance(r: &Ray, world: &Hitable, depth: u32) -> (c: Vec3)
    requires
        crate::hitable::wf_hitable(*world),
        bounded(r.origin, 0x4000_0000),
        bounded(r.direction, 0x100_0000),
        depth <= 50,
    ensures
        color_wf(c),
        all_spheres(*world) && is_nearest(
            prims(*world),
            *r,
            T_MIN as int,
            T_MAX as int,
            Option::<int>::None,
        ) ==> c == sky_spec(r.direction),
        all_spheres(*world) && depth == 50 && (exists|t: int|
            #[trigger] is_nearest(prims(*world), *r, T_MIN as int, T_MAX as int, Some(t)))
            ==> c == (Vec3 { x: 0, y: 0, z: 0 }),
{
    let ghost first_ray = *r;
    let mut cur: Ray = *r;
    let mut att = Vec3 { x: ONE, y: ONE, z: ONE };
    let mut d: u32 = depth;
    loop
        invariant
            first_ray == *r,
            crate::hitable::wf_hitable(*world),
            bounded(cur.origin, 0x4000_0000),
            bounded(cur.direction, 0x100_0000),
            color_wf(att),
            d <= 50,
            all_spheres(*world) && is_nearest(
                prims(*world),
                first_ray,
                T_MIN as int,
                T_MAX as int,
                Option::<int>::None,
            ) ==> cur == first_ray && att == (Vec3 { x: ONE, y: ONE, z: ONE }),
            depth == 50 ==> d == 50 && cur == first_ray,
        decreases 50 - d,
    {
        let hit = world.hit(T_MIN, T_MAX, &cur);
        match hit {
            None => {
                let s = sky_color(&cur.direction);
                proof {
                    // A miss contradicts any claim that some leaf reports.
                    if all_spheres(*world) && exists|t: int|
                        #[trigger] is_nearest(
                            prims(*world),
                            first_ray,
                            T_MIN as int,
                            T_MAX as int,
                            Some(t),
                        ) {
                        if cur == first_ray {
                            let t0 = choose|t: int|
                                is_nearest(
                                    prims(*world),
                                    first_ray,
                                    T_MIN as int,
                                    T_MAX as int,
                                    Some(t),
                                );
                            lemma_nearest_unique(
                                prims(*world),
                                first_ray,
                                T_MIN as int,
                                T_MAX as int,
                                Some(t0),
                                Option::<int>::None,
                            );
                        }
                    }
                    lemma_tdiv_multiple(s.x as int, 65536);
                    lemma_tdiv_multiple(s.y as int, 65536);
                    lemma_tdiv_multiple(s.z as int, 65536);
                    assert((s.x as int) * 65536 == 65536 * (s.x as int));
                    assert((s.y as int) * 65536 == 65536 * (s.y as int));
                    assert((s.z as int) * 65536 == 65536 * (s.z as int));
                }
                return mul_color(att, s);
            },
            Some(h) => {
                proof {
                    if all_spheres(*world) && is_nearest(
                        prims(*world),
                        first_ray,
                        T_MIN as int,
                        T_MAX as int,
                        Option::<int>::None,
                    ) {
                        lemma_nearest_unique(
                            prims(*world),
                            first_ray,
                            T_MIN as int,
                            T_MAX as int,
                            Some(h.t as int),
                            Option::<int>::None,
                        );
                    }
                }
                if !h.p.within(0x4000_0000) || !h.normal.within(0x2_0000) {
                    return Vec3 { x: 0, y: 0, z: 0 };
                }
                let sc = h.material.scatter(&cur, h.t, h.p, h.normal);
                if sc.should_scatter && d < 50 {
                    if !sc.scattered.direction.within(0x100_0000) {
                        return Vec3 { x: 0, y: 0, z: 0 };
                    }
                    att = mul_color(att, sc.attenuation);
                    cur = sc.scattered;
                    d = d + 1;
                } else {
                    return Vec3 { x: 0, y: 0, z: 0 };
                }
            },
        }
    }
}

} // verus!
