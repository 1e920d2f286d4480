use pathtracer::aabb::{Aabb, Axis};
use pathtracer::aabb::surrounding_bbox;
use pathtracer::fixed::ONE;
use pathtracer::hitable::{BvhNode, ConstantMedium, Hitable, SceneError, hit_list};
use pathtracer::material::{Dielectric, Isotropic, Lambertian, Material, Metal, Texture};
use pathtracer::radiance::{radiance, sky_color, T_MAX, T_MIN};
use pathtracer::ray::Ray;
use pathtracer::sphere::Sphere;
use pathtracer::vec3::Vec3;

fn gray() -> Material {
    Material::Lambertian(Lambertian::new(Texture::Constant(Vec3::new(
        ONE / 2,
        ONE / 2,
        ONE / 2,
    ))))
}

fn sphere_at(x: i64, y: i64, z: i64, r: i64) -> Hitable {
    Hitable::Sphere(Sphere::new(Vec3::new(x, y, z), r, gray()))
}

fn bbox_of(h: &Hitable) -> Aabb {
    h.bounding_box()
}

// Vector algebra on exact fixed-point values.
#[test]
fn vec3_ops_exact() {
    let a = Vec3::new(3 * ONE, 4 * ONE, 0);
    assert_eq!(a.length(), 5 * ONE);
    assert_eq!(a.squared_length(), 25 * ONE);
    let b = Vec3::new(ONE, -ONE, 2 * ONE);
    assert_eq!(a.dot(b), -ONE);
    let c = a.cross(b);
    assert_eq!(c.x, 8 * ONE);
    assert_eq!(c.y, -6 * ONE);
    assert_eq!(c.z, -7 * ONE);
    let s = a.plus(&b);
    assert_eq!(s.x, 4 * ONE);
    let mut u = Vec3::new(0, 0, -7 * ONE);
    u.normalize();
    assert_eq!(u.x, 0);
    assert_eq!(u.y, 0);
    assert_eq!(u.z, -ONE);
    assert_eq!(Vec3::zero_vector().x, 0);
}

// The surrounding box is the componentwise minimum and maximum.
#[test]
fn surrounding_contains_both_and_is_smallest() {
    let a = Aabb {
        min: Vec3::new(-ONE, 0, 2 * ONE),
        max: Vec3::new(ONE, ONE, 3 * ONE),
    };
    let b = Aabb {
        min: Vec3::new(0, -2 * ONE, ONE),
        max: Vec3::new(5 * ONE, ONE / 2, 4 * ONE),
    };
    let s = surrounding_bbox(a, b);
    assert_eq!(s.min.x, -ONE);
    assert_eq!(s.min.y, -2 * ONE);
    assert_eq!(s.min.z, ONE);
    assert_eq!(s.max.x, 5 * ONE);
    assert_eq!(s.max.y, ONE);
    assert_eq!(s.max.z, 4 * ONE);
}

#[test]
fn surface_area_and_longest_axis() {
    let b = Aabb {
        min: Vec3::new(0, 0, 0),
        max: Vec3::new(2 * ONE, 3 * ONE, ONE),
    };
    // 2 * (dx dy + dy dz + dz dx) with dx = 2, dy = 3, dz = 1 (in units),
    // scaled twice by ONE.
    let one = ONE as i128;
    assert_eq!(b.surface_area(), 2 * (6 * one * one + 3 * one * one + 2 * one * one));
    assert_eq!(b.longest_axis(), Axis::Y);
    let cube = Aabb {
        min: Vec3::new(0, 0, 0),
        max: Vec3::new(ONE, ONE, ONE),
    };
    // Ties resolve to the earliest axis.
    assert_eq!(cube.longest_axis(), Axis::X);
}

#[test]
fn slab_test_hits_and_misses() {
    let b = Aabb {
        min: Vec3::new(-ONE, -ONE, -ONE),
        max: Vec3::new(ONE, ONE, ONE),
    };
    let toward = Ray::new(Vec3::new(0, 0, 3 * ONE), Vec3::new(0, 0, -ONE));
    assert!(b.hit(&toward, 0, 10 * ONE));
    // The box lies behind the allowed range.
    assert!(!b.hit(&toward, 0, ONE));
    // A ray pointed away.
    let away = Ray::new(Vec3::new(0, 0, 3 * ONE), Vec3::new(0, 0, ONE));
    assert!(!b.hit(&away, 0, 10 * ONE));
    // A sideways ray that never enters.
    let side = Ray::new(Vec3::new(0, 5 * ONE, 0), Vec3::new(ONE, 0, 0));
    assert!(!b.hit(&side, -100 * ONE, 100 * ONE));
}

// Sphere intersection round trip: a ray from the surface toward the center
// reports a point one radius from the center.
#[test]
fn sphere_surface_round_trip() {
    let s = Sphere::new(Vec3::new(0, 0, 0), ONE, gray());
    let r = Ray::new(Vec3::new(ONE, 0, 0), Vec3::new(-ONE, 0, 0));
    let h = s.hit(-2 * ONE, 2 * ONE, &r).expect("the ray starts on the surface");
    let d = h.p.minus(&Vec3::new(0, 0, 0));
    let rr = (d.x as i128) * (d.x as i128) + (d.y as i128) * (d.y as i128) + (d.z as i128)
        * (d.z as i128);
    let want = (ONE as i128) * (ONE as i128);
    assert!((rr - want).abs() <= 4 * ONE as i128, "|p|^2 = {rr}, want about {want}");
    // The normal points along +x and is unit length.
    assert_eq!(h.normal.x, ONE);
    assert_eq!(h.normal.y, 0);
    assert_eq!(h.normal.z, 0);
}

#[test]
fn sphere_miss_reports_nothing() {
    let s = Sphere::new(Vec3::new(0, 0, 0), ONE, gray());
    let r = Ray::new(Vec3::new(3 * ONE, 0, 5 * ONE), Vec3::new(0, 0, -ONE));
    assert!(s.hit(T_MIN, T_MAX, &r).is_none());
}

// An empty primitive list is the one rejected input.
#[test]
fn bvh_empty_input_is_invalid() {
    let out = BvhNode::new(Vec::new());
    assert!(matches!(out, Err(SceneError::InvalidInput)));
}

// One primitive: a single leaf, no right child.
#[test]
fn bvh_single_leaf_shape() {
    let node = BvhNode::new(vec![sphere_at(0, 0, 0, ONE)]).unwrap();
    assert!(node.right.is_none());
    assert!(matches!(*node.left, Hitable::Sphere(_)));
}

// Two primitives: both direct leaves, no grandchildren.
#[test]
fn bvh_two_leaves_shape() {
    let node = BvhNode::new(vec![
        sphere_at(-3 * ONE, 0, 0, ONE),
        sphere_at(3 * ONE, 0, 0, ONE),
    ])
    .unwrap();
    assert!(matches!(*node.left, Hitable::Sphere(_)));
    let right = node.right.as_ref().expect("two primitives keep a right child");
    assert!(matches!(**right, Hitable::Sphere(_)));
}

// The root box equals the union of the input boxes.
#[test]
fn bvh_root_box_is_union_of_leaves() {
    let prims = vec![
        sphere_at(-4 * ONE, 0, 0, ONE),
        sphere_at(0, 2 * ONE, 0, ONE),
        sphere_at(5 * ONE, -ONE, 3 * ONE, 2 * ONE),
    ];
    let mut expect = bbox_of(&prims[0]);
    for p in prims.iter().skip(1) {
        expect = surrounding_bbox(expect, bbox_of(p));
    }
    let node = BvhNode::new(prims).unwrap();
    assert_eq!(node.bbox.min, expect.min);
    assert_eq!(node.bbox.max, expect.max);
}

fn scan_scene() -> Vec<Hitable> {
    vec![
        sphere_at(-4 * ONE, 0, -8 * ONE, ONE),
        sphere_at(0, 0, -5 * ONE, ONE),
        sphere_at(4 * ONE, 0, -9 * ONE, 2 * ONE),
        sphere_at(0, 3 * ONE, -12 * ONE, ONE),
        sphere_at(-2 * ONE, -2 * ONE, -20 * ONE, 3 * ONE),
    ]
}

// The tree reports exactly what the brute-force scan reports.
#[test]
fn bvh_matches_linear_scan() {
    let prims = scan_scene();
    let node = BvhNode::new(scan_scene()).unwrap();
    let tree = Hitable::Node(node);
    let rays = [
        Ray::new(Vec3::new(0, 0, 0), Vec3::new(0, 0, -ONE)),
        Ray::new(Vec3::new(0, 0, 0), Vec3::new(ONE / 2, 0, -ONE)),
        Ray::new(Vec3::new(0, 0, 0), Vec3::new(-ONE / 2, 0, -ONE)),
        Ray::new(Vec3::new(0, 0, 0), Vec3::new(0, ONE / 4, -ONE)),
        Ray::new(Vec3::new(0, 0, 0), Vec3::new(0, ONE, 0)),
        Ray::new(Vec3::new(8 * ONE, 0, 0), Vec3::new(-ONE, 0, -ONE)),
    ];
    for r in rays.iter() {
        let from_tree = tree.hit(T_MIN, T_MAX, r).map(|h| h.t);
        let from_scan = hit_list(&prims, T_MIN, T_MAX, r).map(|h| h.t);
        assert_eq!(from_tree, from_scan);
    }
}

// Schlick reflectance at normal incidence is exactly the base reflectance.
#[test]
fn schlick_normal_incidence_exact() {
    // ref_idx 1.5: r0a = (1 - 1.5)/(1 + 1.5) rounded toward zero, squared.
    let d = Dielectric::new(98304);
    // Normal incidence straight down onto an upward normal.
    let r = Ray::new(Vec3::new(0, 0, 2 * ONE), Vec3::new(0, 0, -ONE));
    let sc = d.scatter(&r, 0, Vec3::new(0, 0, ONE), Vec3::new(0, 0, ONE));
    assert!(sc.should_scatter);
    assert_eq!(sc.attenuation.x, ONE);
    assert_eq!(sc.attenuation.y, ONE);
    assert_eq!(sc.attenuation.z, ONE);
    // The formula value itself: ((1 - 1.5)/(2.5))^2 is about 0.04 of one.
    assert_eq!(pathtracer::material::schlick(ONE, 98304), 2621);
}

// Reflectance grows from normal incidence toward grazing.
#[test]
fn schlick_monotone_toward_grazing() {
    let normal = pathtracer::material::schlick(ONE, 98304);
    let oblique = pathtracer::material::schlick(ONE / 2, 98304);
    let grazing = pathtracer::material::schlick(0, 98304);
    assert!(normal <= oblique && oblique <= grazing);
    // At a fully grazing angle the fifth power reaches one exactly, so the
    // reflectance saturates.
    assert_eq!(grazing, ONE);
}

// Metal with no fuzz mirrors a normal-incidence ray exactly.
#[test]
fn metal_zero_fuzz_mirrors_exactly() {
    let m = Metal::new(Texture::Constant(Vec3::new(ONE, ONE, ONE)), 0);
    let r = Ray::new(Vec3::new(0, 0, 2 * ONE), Vec3::new(0, 0, -ONE));
    let sc = m.scatter(&r, 0, Vec3::new(0, 0, ONE), Vec3::new(0, 0, ONE));
    assert!(sc.should_scatter);
    assert_eq!(sc.scattered.direction.x, 0);
    assert_eq!(sc.scattered.direction.y, 0);
    assert_eq!(sc.scattered.direction.z, ONE);
    assert_eq!(sc.scattered.origin.z, ONE);
}

// Total internal reflection: a shallow ray inside glass always reflects.
#[test]
fn dielectric_total_internal_reflection() {
    let d = Dielectric::new(98304);
    let r = Ray::new(
        Vec3::new(0, 0, 0),
        Vec3::new(4 * ONE, 0, 3 * ONE),
    );
    let sc = d.scatter(&r, 0, Vec3::new(0, 0, ONE), Vec3::new(0, 0, ONE));
    assert!(sc.should_scatter);
    // reflect(v, n) = v - 2 (v.n) n with v.n = 3.
    assert_eq!(sc.scattered.direction.x, 4 * ONE);
    assert_eq!(sc.scattered.direction.y, 0);
    assert_eq!(sc.scattered.direction.z, -3 * ONE);
}

// Lambertian always scatters from the hit point with full albedo lookup.
#[test]
fn lambertian_always_scatters() {
    let l = Lambertian::new(Texture::Constant(Vec3::new(ONE / 4, ONE / 2, ONE)));
    let r = Ray::new(Vec3::new(0, 0, 2 * ONE), Vec3::new(0, 0, -ONE));
    let sc = l.scatter(&r, 0, Vec3::new(ONE, 2 * ONE, 3 * ONE), Vec3::new(0, 0, ONE));
    assert!(sc.should_scatter);
    assert_eq!(sc.attenuation.x, ONE / 4);
    assert_eq!(sc.attenuation.y, ONE / 2);
    assert_eq!(sc.attenuation.z, ONE);
    assert_eq!(sc.scattered.origin.x, ONE);
    assert_eq!(sc.scattered.origin.y, 2 * ONE);
    assert_eq!(sc.scattered.origin.z, 3 * ONE);
}

// The checker texture alternates between its two sources across cells.
#[test]
fn checker_texture_alternates() {
    let red = Vec3::new(ONE, 0, 0);
    let blue = Vec3::new(0, 0, ONE);
    let t = Texture::Checker(
        Box::new(Texture::Constant(red)),
        Box::new(Texture::Constant(blue)),
    );
    let half = ONE / 2;
    let even = t.value(&Vec3::new(half, half, half));
    let odd = t.value(&Vec3::new(ONE + half, half, half));
    assert_eq!(even.x, ONE);
    assert_eq!(odd.z, ONE);
}

// The isotropic law scatters from the point, always.
#[test]
fn isotropic_scatters_from_point() {
    let iso = Isotropic::new(Texture::Constant(Vec3::new(ONE / 2, ONE / 2, ONE / 2)));
    let r = Ray::new(Vec3::new(0, 0, 0), Vec3::new(0, 0, -ONE));
    let sc = iso.scatter(&r, 0, Vec3::new(ONE, 0, 0), Vec3::new(ONE, 0, 0));
    assert!(sc.should_scatter);
    assert_eq!(sc.scattered.origin.x, ONE);
    assert_eq!(sc.attenuation.x, ONE / 2);
}

// The sky gradient: straight up is the bluest row, straight down the
// whitest, and a miss returns exactly the gradient.
#[test]
fn sky_gradient_values() {
    let up = sky_color(&Vec3::new(0, ONE, 0));
    // t = 1: (0.5, 0.7, 1.0).
    assert_eq!(up.x, 32768);
    assert_eq!(up.y, 45875);
    assert_eq!(up.z, ONE);
    let down = sky_color(&Vec3::new(0, -ONE, 0));
    // t = 0: white.
    assert_eq!(down.x, ONE);
    assert_eq!(down.y, ONE);
    assert_eq!(down.z, ONE);
}

// A ray that misses every sphere returns exactly the sky gradient.
#[test]
fn radiance_miss_is_exact_sky() {
    let node = BvhNode::new(vec![sphere_at(0, 0, -5 * ONE, ONE)]).unwrap();
    let world = Hitable::Node(node);
    let r = Ray::new(Vec3::new(0, 0, 0), Vec3::new(0, ONE, 0));
    let c = radiance(&r, &world, 0);
    let sky = sky_color(&Vec3::new(0, ONE, 0));
    assert_eq!(c.x, sky.x);
    assert_eq!(c.y, sky.y);
    assert_eq!(c.z, sky.z);
}

// A single gray sphere under the camera: the estimate is strictly darker
// than the unoccluded sky and strictly brighter than black.
#[test]
fn radiance_single_sphere_partial_absorption() {
    let world = sphere_at(0, 0, 0, ONE);
    let r = Ray::new(Vec3::new(0, 0, 3 * ONE), Vec3::new(0, 0, -ONE));
    let c = radiance(&r, &world, 0);
    let sky = sky_color(&Vec3::new(0, 0, -ONE));
    assert!(c.x > 0 && c.y > 0 && c.z > 0, "some light must come back");
    assert!(
        c.x < sky.x && c.y < sky.y && c.z < sky.z,
        "a gray sphere cannot outshine the sky"
    );
}

// A medium of overwhelming density registers a hit essentially at entry.
#[test]
fn constant_medium_dense_hits_at_entry() {
    let boundary = Box::new(sphere_at(0, 0, 0, ONE));
    let m = ConstantMedium::new(boundary, 1 << 44, Texture::Constant(Vec3::new(ONE, ONE, ONE)));
    let r = Ray::new(Vec3::new(0, 0, 3 * ONE), Vec3::new(0, 0, -ONE));
    let h = m.hit(T_MIN, T_MAX, &r).expect("an opaque medium stops the ray");
    // Entry at t of two units.
    assert!((h.t - 2 * ONE).abs() <= 8, "hit at t = {}, want about {}", h.t, 2 * ONE);
}

// A medium of vanishing density is transparent in practice.
#[test]
fn constant_medium_thin_passes_through() {
    let boundary = Box::new(sphere_at(0, 0, 0, ONE));
    let m = ConstantMedium::new(boundary, 1, Texture::Constant(Vec3::new(ONE, ONE, ONE)));
    let r = Ray::new(Vec3::new(0, 0, 3 * ONE), Vec3::new(0, 0, -ONE));
    let mut interior_hits = 0;
    for _ in 0..20 {
        if m.hit(T_MIN, T_MAX, &r).is_some() {
            interior_hits += 1;
        }
    }
    assert!(interior_hits <= 1, "a near-empty fog stopped {interior_hits} of 20 rays");
}

// Equal sort keys: primitives stacked on the same axis coordinate still
// build into a tree holding each of them exactly once.
#[test]
fn bvh_equal_keys_build() {
    let prims = vec![
        sphere_at(0, 0, -6 * ONE, ONE),
        sphere_at(0, 0, -6 * ONE, ONE),
        sphere_at(0, 0, -6 * ONE, ONE),
    ];
    let node = BvhNode::new(respawn(&prims)).unwrap();
    let tree = Hitable::Node(node);
    let r = Ray::new(Vec3::new(0, 0, 0), Vec3::new(0, 0, -ONE));
    let from_tree = tree.hit(T_MIN, T_MAX, &r).map(|h| h.t);
    let from_scan = hit_list(&prims, T_MIN, T_MAX, &r).map(|h| h.t);
    assert_eq!(from_tree, from_scan);
    assert!(from_tree.is_some());
}

// A larger build: a grid of spheres, queried from many directions, agrees
// with the brute-force scan every time.
#[test]
fn bvh_grid_matches_scan() {
    let mut prims: Vec<Hitable> = Vec::new();
    for i in -3i64..4 {
        for j in -3i64..4 {
            prims.push(sphere_at(i * 3 * ONE, j * 3 * ONE, -10 * ONE, ONE));
        }
    }
    let node = BvhNode::new(respawn(&prims)).unwrap();
    let tree = Hitable::Node(node);
    for i in -6i64..7 {
        for j in -6i64..7 {
            let r = Ray::new(
                Vec3::new(0, 0, 5 * ONE),
                Vec3::new(i * ONE / 2, j * ONE / 2, -2 * ONE),
            );
            let from_tree = tree.hit(T_MIN, T_MAX, &r).map(|h| h.t);
            let from_scan = hit_list(&prims, T_MIN, T_MAX, &r).map(|h| h.t);
            assert_eq!(from_tree, from_scan);
        }
    }
}

// At the depth cap, a ray that strikes the scene contributes black: depth
// exhaustion degrades to zero radiance.
#[test]
fn radiance_depth_cap_is_black() {
    let node = BvhNode::new(vec![sphere_at(0, 0, 0, ONE)]).unwrap();
    let world = Hitable::Node(node);
    let r = Ray::new(Vec3::new(0, 0, 3 * ONE), Vec3::new(0, 0, -ONE));
    let c = radiance(&r, &world, 50);
    assert_eq!((c.x, c.y, c.z), (0, 0, 0));
}

// Three and more primitives build an internal split: both children are
// themselves nodes over contiguous runs of the sorted order.
#[test]
fn bvh_three_primitives_split_into_nodes() {
    let node = BvhNode::new(vec![
        sphere_at(-6 * ONE, 0, 0, ONE),
        sphere_at(0, 0, 0, ONE),
        sphere_at(6 * ONE, 0, 0, ONE),
    ])
    .unwrap();
    assert!(matches!(*node.left, Hitable::Node(_)));
    let right = node.right.as_ref().expect("a split has two sides");
    assert!(matches!(**right, Hitable::Node(_)));
}

fn respawn(prims: &[Hitable]) -> Vec<Hitable> {
    prims
        .iter()
        .map(|h| match h {
            Hitable::Sphere(s) => Hitable::Sphere(Sphere::new(s.center, s.radius, gray())),
            _ => panic!("only spheres expected in these scenes"),
        })
        .collect()
}

// The split is stable and takes the first index of least cost: with three
// identical boxes (so all split costs tie) and distinguishable materials,
// the first primitive alone forms the left side and the other two keep
// their order on the right.
#[test]
fn bvh_split_is_stable_first_minimum() {
    let tagged = |v: i64| {
        Hitable::Sphere(Sphere::new(
            Vec3::new(0, 0, -6 * ONE),
            ONE,
            Material::Lambertian(Lambertian::new(Texture::Constant(Vec3::new(v, v, v)))),
        ))
    };
    let tag_of = |h: &Hitable| -> i64 {
        match h {
            Hitable::Sphere(s) => match &s.material {
                Material::Lambertian(l) => match &l.albedo {
                    Texture::Constant(c) => c.x,
                    _ => panic!("constant albedo expected"),
                },
                _ => panic!("diffuse material expected"),
            },
            _ => panic!("sphere expected"),
        }
    };
    let node = BvhNode::new(vec![tagged(1), tagged(2), tagged(3)]).unwrap();
    let left = match &*node.left {
        Hitable::Node(n) => n,
        _ => panic!("the left side of a three-way split is a subtree"),
    };
    let right = match node.right.as_deref() {
        Some(Hitable::Node(n)) => n,
        _ => panic!("the right side of a three-way split is a subtree"),
    };
    // All costs tie, so the first index wins: left holds the first
    // primitive alone.
    assert!(left.right.is_none());
    assert_eq!(tag_of(&left.left), 1);
    // The remaining two keep their relative order.
    assert_eq!(tag_of(&right.left), 2);
    assert_eq!(tag_of(right.right.as_deref().expect("two primitives remain")), 3);
}
