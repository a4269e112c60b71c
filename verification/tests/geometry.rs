use raytracer::aabb::{longest_axis_of, AABB};
use raytracer::interval::{key_max, key_min, Interval};
use raytracer::hittable::HitRecord;
use raytracer::medium::{hit as medium_hit, span_inside};
use raytracer::plane::{hit as plane_hit, Shape};
use raytracer::sphere::{first_root, hit as sphere_hit};
use raytracer::vec3::{v3, Vec3};

/// The key of a real number: its bits, turned so that they order as the
/// numbers do.
fn key(x: f64) -> i64 {
    let x = if x == 0.0 { 0.0 } else { x };
    let bits = x.to_bits() as i64;
    bits ^ ((((bits >> 63) as u64) >> 1) as i64)
}

/// The least thickness of a box along an axis.
const LEAST: f64 = 0.0001;

/// The length of an interval of keys, as a key.
fn extent(side: &Interval) -> i64 {
    key(num(side.max) - num(side.min))
}

/// An interval of keys, wider by the least thickness at either end.
fn widen(side: &Interval) -> Interval {
    Interval::new(key(num(side.min) - LEAST), key(num(side.max) + LEAST))
}

/// The padded box on two points.
fn bx(p0: Vec3, p1: Vec3) -> AABB {
    AABB::by_two_points(p0, p1, &extent, key(LEAST), &widen)
}

/// The box of three sides, as it is.
fn sides(x: Interval, y: Interval, z: Interval) -> AABB {
    AABB { x, y, z }
}

#[test]
fn test_new() {
    assert_eq!(
        Vec3::new(key(1.0), key(2.0), key(3.0)),
        Vec3::new(key(1.0), key(2.0), key(3.0))
    );
}

#[test]
fn keys_order_as_their_numbers_do() {
    let xs = [-1.0e9, -2.5, -1.0e-8, 0.0, 1.0e-8, 0.001, 1.0, 2.5, 255.99, f64::INFINITY];
    for w in xs.windows(2) {
        assert!(key(w[0]) < key(w[1]));
    }
    assert!(key(f64::NEG_INFINITY) < key(-1.0e9));
    assert_eq!(key(-0.0), key(0.0));
}

#[test]
fn v3_is_new() {
    assert_eq!(v3(1, -2, 3), Vec3::new(1, -2, 3));
    let p = v3(7, 8, 9);
    assert_eq!((p.x, p.y, p.z), (7, 8, 9));
}

#[test]
fn key_min_and_max() {
    assert_eq!(key_min(3, -4), -4);
    assert_eq!(key_max(3, -4), 3);
    assert_eq!(key_min(5, 5), 5);
    assert_eq!(key_max(i64::MIN, i64::MAX), i64::MAX);
    assert_eq!(key_min(i64::MIN, i64::MAX), i64::MIN);
}

#[test]
fn interval_ends_are_included_by_contains_and_not_by_surrounds() {
    let iv = Interval::new(key(0.001), key(10.0));
    assert!(iv.contains(key(0.001)));
    assert!(iv.contains(key(10.0)));
    assert!(iv.contains(key(5.0)));
    assert!(!iv.contains(key(0.0)));
    assert!(!iv.contains(key(10.5)));
    assert!(!iv.surrounds(key(0.001)));
    assert!(!iv.surrounds(key(10.0)));
    assert!(iv.surrounds(key(5.0)));
}

#[test]
fn interval_combine_intersect_clamp() {
    let a = Interval::new(1, 5);
    let b = Interval::new(3, 9);
    assert_eq!(a.combine(&b), Interval::new(1, 9));
    assert_eq!(a.intersect(&b), Interval::new(3, 5));
    let c = Interval::new(7, 8);
    assert_eq!(a.intersect(&c), Interval::new(7, 5));
    assert!(a.intersect(&c).is_empty());
    assert!(!a.is_empty());
    assert!(!Interval::new(4, 4).is_empty());
    assert_eq!(a.clamp(0), 1);
    assert_eq!(a.clamp(3), 3);
    assert_eq!(a.clamp(77), 5);
}

#[test]
fn the_empty_interval_changes_nothing_in_a_combine() {
    let e = Interval::empty();
    assert!(e.is_empty());
    let a = Interval::new(-3, 12);
    assert_eq!(e.combine(&a), a);
    assert_eq!(a.combine(&e), a);
    assert!(!e.contains(0));
    let u = Interval::universe();
    assert_eq!(u, Interval::default());
    assert!(u.contains(i64::MIN) && u.contains(i64::MAX));
    assert_eq!(u.intersect(&a), a);
}

#[test]
fn combined_box_contains_both() {
    let a = bx(v3(key(-1.0), key(-1.0), key(-1.0)), v3(key(1.0), key(1.0), key(1.0)));
    let b = bx(v3(key(4.0), key(0.5), key(-7.0)), v3(key(2.0), key(0.25), key(-6.0)));
    let c = a.combine(&b, &extent, key(LEAST), &widen);
    assert_eq!(c, a.joined(&b));
    assert_eq!(c.x, Interval::new(key(-1.0), key(4.0)));
    assert_eq!(c.y, Interval::new(key(-1.0), key(1.0)));
    assert_eq!(c.z, Interval::new(key(-7.0), key(1.0)));
    for bx in [a, b] {
        for (whole, part) in [(c.x, bx.x), (c.y, bx.y), (c.z, bx.z)] {
            assert!(whole.min <= part.min && part.max <= whole.max);
        }
    }
    assert_eq!(AABB::default().combine(&a, &extent, key(LEAST), &widen), a);
    assert_eq!(a.combine(&AABB::default(), &extent, key(LEAST), &widen), a);
    assert_eq!(AABB::default().joined(&a), a);
}

#[test]
fn by_two_points_takes_the_corners_in_either_order() {
    // keys that are their own numbers: a side shorter than 1 is widened by 1
    let len = |side: &Interval| side.max - side.min;
    let wider = |side: &Interval| Interval::new(side.min - 1, side.max + 1);
    let p = v3(5, -2, 9);
    let q = v3(1, 4, 9);
    let b = AABB::by_two_points(p, q, &len, 1, &wider);
    assert_eq!(b, AABB::by_two_points(q, p, &len, 1, &wider));
    assert_eq!(b, sides(Interval::new(1, 5), Interval::new(-2, 4), Interval::new(8, 10)));
    assert_eq!(b.axis(0), b.x);
    assert_eq!(b.axis(1), b.y);
    assert_eq!(b.axis(2), b.z);
}

#[test]
fn longest_axis_prefers_x_then_y_then_z_among_equals() {
    assert_eq!(longest_axis_of(3, 2, 1), 0);
    assert_eq!(longest_axis_of(1, 3, 2), 1);
    assert_eq!(longest_axis_of(1, 2, 3), 2);
    assert_eq!(longest_axis_of(2, 2, 2), 0);
    assert_eq!(longest_axis_of(2, 2, 1), 0);
    assert_eq!(longest_axis_of(2, 1, 2), 0);
    assert_eq!(longest_axis_of(1, 2, 2), 1);
    assert_eq!(longest_axis_of(-5, -5, -4), 2);
}

#[test]
fn longest_axis_measures_with_the_extent_given() {
    let b = sides(Interval::new(0, 10), Interval::new(0, 30), Interval::new(0, 20));
    assert_eq!(b.longest_axis(&|s: &Interval| s.max - s.min), 1);
    assert_eq!(b.longest_axis(&|s: &Interval| s.min - s.max), 0);
    assert_eq!(b.longest_axis(&|_s: &Interval| 7), 0);
    let by_len = |s: &Interval| key(s.max as f64 - s.min as f64);
    assert_eq!(b.longest_axis(&by_len), 1);
}

#[test]
fn a_sphere_is_met_at_its_nearer_root_first() {
    let r_t = Interval::new(key(0.001), key(f64::INFINITY));
    // fired from 5 away at the centre of a sphere of radius 1: roots 4 and 6
    assert_eq!(first_root(key(4.0), key(6.0), &r_t), Some(key(4.0)));
    // from inside: the nearer root lies behind the start
    assert_eq!(first_root(key(-1.0), key(1.0), &r_t), Some(key(1.0)));
    // both behind
    assert_eq!(first_root(key(-6.0), key(-4.0), &r_t), None);
    // the ends of the interval are not in it
    let short = Interval::new(key(4.0), key(6.0));
    assert_eq!(first_root(key(4.0), key(6.0), &short), None);
    assert_eq!(first_root(key(4.0), key(5.0), &short), Some(key(5.0)));
}

#[test]
fn the_stretch_inside_a_medium_is_clipped() {
    let r_t = Interval::new(key(0.001), key(100.0));
    let zero = key(0.0);
    assert_eq!(
        span_inside(key(2.0), key(5.0), &r_t, zero),
        Some(Interval::new(key(2.0), key(5.0)))
    );
    // the ray starts inside: the entry lies behind it
    assert_eq!(
        span_inside(key(-3.0), key(5.0), &r_t, zero),
        Some(Interval::new(key(0.001), key(5.0)))
    );
    assert_eq!(
        span_inside(key(2.0), key(500.0), &r_t, zero),
        Some(Interval::new(key(2.0), key(100.0)))
    );
    assert_eq!(span_inside(key(200.0), key(500.0), &r_t, zero), None);
    assert_eq!(span_inside(key(5.0), key(5.0), &r_t, zero), None);
    let all = Interval::universe();
    assert_eq!(
        span_inside(key(-3.0), key(-1.0), &all, zero),
        None
    );
    assert_eq!(
        span_inside(key(-3.0), key(1.0), &all, zero),
        Some(Interval::new(zero, key(1.0)))
    );
}

#[test]
fn a_quad_holds_its_corners_and_a_triangle_half_of_it() {
    let unit = Interval::new(key(0.0), key(1.0));
    let inside = |shape: Shape, a: f64, b: f64| shape.is_interior(key(a), key(b), key(a + b), &unit);
    for (a, b) in [(0.0, 0.0), (1.0, 1.0), (0.25, 0.5), (1.0, 0.0), (0.0, 1.0), (0.9, 0.9)] {
        assert!(inside(Shape::Quad, a, b));
    }
    for (a, b) in [(-0.1, 0.5), (0.5, -0.1), (1.1, 0.5), (0.5, 1.1)] {
        assert!(!inside(Shape::Quad, a, b));
        assert!(!inside(Shape::Triangle, a, b));
    }
    assert!(inside(Shape::Triangle, 0.0, 0.0));
    assert!(inside(Shape::Triangle, 0.25, 0.5));
    assert!(inside(Shape::Triangle, 0.5, 0.5));
    assert!(inside(Shape::Triangle, 1.0, 0.0));
    assert!(!inside(Shape::Triangle, 0.9, 0.9));
    assert!(!inside(Shape::Triangle, 1.0, 1.0));
}

#[test]
fn the_box_of_a_flat_shape_holds_its_corners() {
    let q = v3(0, 0, 0);
    let qu = v3(4, 1, 0);
    let qv = v3(-2, 3, 0);
    let quv = v3(2, 4, 0);
    // keys that are their own numbers: a side shorter than 1 is widened by 1
    let len = |side: &Interval| side.max - side.min;
    let wider = |side: &Interval| Interval::new(side.min - 1, side.max + 1);
    let quad = Shape::Quad.get_bounding_box(q, qu, qv, quv, &len, 1, &wider);
    assert_eq!(quad, sides(Interval::new(-2, 4), Interval::new(0, 4), Interval::new(-1, 1)));
    let tri = Shape::Triangle.get_bounding_box(q, qu, qv, quv, &len, 1, &wider);
    assert_eq!(tri, sides(Interval::new(-2, 4), Interval::new(0, 3), Interval::new(-1, 1)));
}

fn num(k: i64) -> f64 {
    let bits = k ^ ((((k >> 63) as u64) >> 1) as i64);
    f64::from_bits(bits as u64)
}

/// The slab test: the crossings of each pair of faces are arithmetic, and
/// what they mean is the library's to say.
fn box_hit(b: &AABB, ori: [f64; 3], dir: [f64; 3], r_t: &Interval) -> bool {
    let slab = |side: &Interval, o: f64, d: f64| {
        let adinv = 1.0 / d;
        let t0 = (num(side.min) - o) * adinv;
        let t1 = (num(side.max) - o) * adinv;
        AABB::hit_interval(key(t0), key(t1), r_t)
    };
    AABB::hit(
        &slab(&b.x, ori[0], dir[0]),
        &slab(&b.y, ori[1], dir[1]),
        &slab(&b.z, ori[2], dir[2]),
    )
}

fn unit_sphere_hit(ori: [f64; 3], dir: [f64; 3], r_t: &Interval) -> Option<i64> {
    let oc = [-ori[0], -ori[1], -ori[2]];
    let a = dir[0] * dir[0] + dir[1] * dir[1] + dir[2] * dir[2];
    let h = dir[0] * oc[0] + dir[1] * oc[1] + dir[2] * oc[2];
    let c = oc[0] * oc[0] + oc[1] * oc[1] + oc[2] * oc[2] - 1.0;
    let discriminant = h * h - a * c;
    if discriminant < 0.0 {
        None
    } else {
        let sqrtd = discriminant.sqrt();
        first_root(key((h - sqrtd) / a), key((h + sqrtd) / a), r_t)
    }
}

#[test]
fn test_aabb_hit() {
    let aabb = bx(
        Vec3::new(key(-1.0), key(-1.0), key(-1.0)),
        Vec3::new(key(1.0), key(1.0), key(1.0)),
    );
    let inft = Interval::new(key(0.0), key(f64::INFINITY));
    let o = [0.0, 0.0, -5.0];

    assert!(box_hit(&aabb, o, [0.0, 0.0, 1.0], &inft));
}

#[test]
fn test_aabb_sphere_hit() {
    let aabb = bx(
        Vec3::new(key(-1.0), key(-1.0), key(-1.0)),
        Vec3::new(key(1.0), key(1.0), key(1.0)),
    );
    let o = [0.0, 0.0, -5.0];
    let inft = Interval::new(key(0.0), key(f64::INFINITY));
    let mut seed = 99u64;
    let mut draw = || {
        seed = seed.wrapping_mul(6364136223846793005).wrapping_add(1442695040888963407);
        ((seed >> 11) as f64) / ((1u64 << 53) as f64) * 2.0 - 1.0
    };
    for _ in 0..100 {
        let dir = loop {
            let p = [draw(), draw(), draw()];
            if p[0] * p[0] + p[1] * p[1] + p[2] * p[2] < 1.0 {
                break p;
            }
        };
        if unit_sphere_hit(o, dir, &inft).is_some() {
            assert!(box_hit(&aabb, o, dir, &inft));
        }
    }
}

#[test]
fn a_ray_that_meets_a_sphere_meets_its_box() {
    let aabb = bx(
        Vec3::new(key(-1.0), key(-1.0), key(-1.0)),
        Vec3::new(key(1.0), key(1.0), key(1.0)),
    );
    let o = [0.0, 0.0, -5.0];
    let inft = Interval::new(key(0.0), key(f64::INFINITY));
    let mut met = 0;
    for a in -30..=30 {
        for b in -30..=30 {
            let dir = [a as f64 * 0.01, b as f64 * 0.01, 1.0];
            if unit_sphere_hit(o, dir, &inft).is_some() {
                met += 1;
                assert!(box_hit(&aabb, o, dir, &inft));
            }
        }
    }
    assert!(met > 1000);
}

#[test]
fn test_aabb_sphere_hit_para() {
    let aabb = bx(
        Vec3::new(key(-1.0), key(-1.0), key(-1.0)),
        Vec3::new(key(1.0), key(1.0), key(1.0)),
    );
    let o = [0.0, 0.0, -5.0];
    let inft = Interval::new(key(0.0), key(f64::INFINITY));

    assert!(!box_hit(&aabb, o, [1.0, 0.0, 0.0], &inft));

    assert!(!box_hit(&aabb, o, [0.0, 1.0, 0.0], &inft));

    assert!(box_hit(&aabb, o, [0.0, 0.0, 1.0], &inft));
}

#[test]
fn a_ray_fired_at_the_centre_of_a_sphere_meets_it_a_radius_before() {
    let inft = Interval::new(key(0.001), key(f64::INFINITY));
    let t = unit_sphere_hit([0.0, 0.0, -5.0], [0.0, 0.0, 1.0], &inft).unwrap();
    assert_eq!(num(t), 4.0);
    let t = unit_sphere_hit([3.0, 0.0, 0.0], [-2.0, 0.0, 0.0], &inft).unwrap();
    assert_eq!(num(t), 1.0);
    // passing 1.5 from the centre
    assert_eq!(unit_sphere_hit([1.5, 0.0, -5.0], [0.0, 0.0, 1.0], &inft), None);
}

#[test]
fn a_ray_that_passes_a_box_by_misses_it() {
    let b = bx(v3(key(-1.0), key(-1.0), key(-1.0)), v3(key(1.0), key(1.0), key(1.0)));
    let r_t = Interval::new(key(0.001), key(f64::INFINITY));
    assert!(box_hit(&b, [0.3, -0.2, -5.0], [0.01, 0.02, 1.0], &r_t));
    assert!(!box_hit(&b, [1.5, 0.0, -5.0], [0.0, 0.0, 1.0], &r_t));
    assert!(!box_hit(&b, [0.0, 0.0, -5.0], [1.0, 1.0, 1.0], &r_t));
    // behind the start of the ray
    assert!(!box_hit(&b, [0.0, 0.0, 5.0], [0.0, 0.0, 1.0], &r_t));
    // beyond the end of the interval
    assert!(!box_hit(&b, [0.0, 0.0, -5.0], [0.0, 0.0, 1.0], &Interval::new(key(0.001), key(3.0))));
}

#[test]
fn hit_interval_orders_the_crossings_and_clips_them() {
    let r_t = Interval::new(0, 100);
    assert_eq!(AABB::hit_interval(10, 20, &r_t), Interval::new(10, 20));
    assert_eq!(AABB::hit_interval(20, 10, &r_t), Interval::new(10, 20));
    assert_eq!(AABB::hit_interval(-5, 200, &r_t), Interval::new(0, 100));
    assert_eq!(AABB::hit_interval(150, 120, &r_t), Interval::new(120, 100));
    assert!(AABB::hit(&Interval::new(1, 5), &Interval::new(5, 9), &Interval::new(0, 5)));
    assert!(!AABB::hit(&Interval::new(1, 5), &Interval::new(6, 9), &Interval::new(0, 9)));
    assert!(!AABB::hit(&Interval::new(1, 5), &Interval::new(2, 3), &Interval::empty()));
}

#[test]
fn the_corners_of_a_box_and_the_box_round_them() {
    let b = sides(Interval::new(1, 2), Interval::new(3, 4), Interval::new(5, 6));
    let c = b.corners();
    assert_eq!(
        c,
        [
            v3(1, 3, 5),
            v3(1, 3, 6),
            v3(1, 4, 5),
            v3(1, 4, 6),
            v3(2, 3, 5),
            v3(2, 3, 6),
            v3(2, 4, 5),
            v3(2, 4, 6),
        ]
    );
    assert_eq!(AABB::around(&c), b);
    let turned = [
        v3(0, 7, -3),
        v3(4, 7, 1),
        v3(-4, 7, 1),
        v3(0, 7, 5),
        v3(0, 9, -3),
        v3(4, 9, 1),
        v3(-4, 9, 1),
        v3(0, 9, 5),
    ];
    assert_eq!(
        AABB::around(&turned),
        sides(Interval::new(-4, 4), Interval::new(7, 9), Interval::new(-3, 5))
    );
}

#[test]
fn a_medium_asks_its_boundary_twice_and_scatters_within_the_stretch_inside() {
    let asked = std::cell::RefCell::new(Vec::new());
    // the boundary is crossed at 2 and at 7
    let boundary = |r_t: &Interval| {
        asked.borrow_mut().push((r_t.min, r_t.max));
        for t in [2i64, 7] {
            if r_t.min <= t && t <= r_t.max {
                return Some(HitRecord::new(t, ()));
            }
        }
        None
    };
    let past = |t: i64| t + 1;
    let middle = |span: &Interval| Some(HitRecord::new((span.min + span.max) / 2, ()));
    let res = medium_hit(&Interval::new(0, 100), 0, &boundary, &past, &middle).unwrap();
    assert_eq!(res.t, 4);
    assert_eq!(*asked.borrow(), vec![(i64::MIN, i64::MAX), (3, i64::MAX)]);
    // the interval asked cuts the stretch
    let res = medium_hit(&Interval::new(4, 5), 0, &boundary, &past, &middle).unwrap();
    assert_eq!(res.t, 4);
    let res = medium_hit(&Interval::new(4, 6), 0, &boundary, &past, &middle).unwrap();
    assert_eq!(res.t, 5);
    // nothing of the stretch lies in the interval asked
    assert!(medium_hit(&Interval::new(8, 100), 0, &boundary, &past, &middle).is_none());
    // the ray begins beyond the medium
    assert!(medium_hit(&Interval::new(0, 100), 7, &boundary, &past, &middle).is_none());
    // the ray leaves before it is scattered
    let never = |_span: &Interval| None::<HitRecord<()>>;
    assert!(medium_hit(&Interval::new(0, 100), 0, &boundary, &past, &never).is_none());
}

#[test]
fn a_ray_that_misses_the_boundary_or_stays_inside_meets_no_medium() {
    let past = |t: i64| t + 1;
    let middle = |span: &Interval| Some(HitRecord::new(span.min, ()));
    let nothing = |_r_t: &Interval| None::<HitRecord<()>>;
    assert!(medium_hit(&Interval::universe(), 0, &nothing, &past, &middle).is_none());
    let once = |r_t: &Interval| if r_t.contains(5) { Some(HitRecord::new(5, ())) } else { None };
    assert!(medium_hit(&Interval::universe(), 0, &once, &past, &middle).is_none());
}

#[test]
fn a_flat_box_is_padded_and_a_thick_one_is_not() {
    let b = bx(v3(key(0.0), key(0.0), key(0.0)), v3(key(1.0), key(1.0), key(0.0)));
    assert_eq!(b.x, Interval::new(key(0.0), key(1.0)));
    assert_eq!(b.y, Interval::new(key(0.0), key(1.0)));
    assert_eq!(b.z, Interval::new(key(-0.0001), key(0.0001)));
    // in either order of the points
    assert_eq!(b, bx(v3(key(1.0), key(1.0), key(0.0)), v3(key(0.0), key(0.0), key(0.0))));
    // a side just thick enough stays as it is
    let edge = bx(v3(key(0.0), key(2.0), key(0.0)), v3(key(0.0001), key(2.00005), key(5.0)));
    assert_eq!(edge.x, Interval::new(key(0.0), key(0.0001)));
    assert_eq!(edge.y, Interval::new(key(2.0 - 0.0001), key(2.00005 + 0.0001)));
    assert_eq!(edge.z, Interval::new(key(0.0), key(5.0)));
    for side in [b.x, b.y, b.z, edge.x, edge.y, edge.z] {
        assert!(num(side.max) - num(side.min) >= LEAST);
    }
}

#[test]
fn new_and_combine_pad_as_by_two_points_does() {
    let flat = Interval::new(key(3.0), key(3.0));
    let thick = Interval::new(key(-1.0), key(1.0));
    let b = AABB::new(thick, flat, thick, &extent, key(LEAST), &widen);
    assert_eq!(b, sides(thick, Interval::new(key(3.0 - 0.0001), key(3.0 + 0.0001)), thick));
    let same = b.pad_to_mininums(&extent, key(LEAST), &widen);
    assert_eq!(same, b);
    // two flat boxes as they are, joined and padded
    let p = sides(flat, flat, thick);
    let q = sides(Interval::new(key(4.0), key(4.0)), flat, thick);
    let c = p.combine(&q, &extent, key(LEAST), &widen);
    assert_eq!(c.x, Interval::new(key(3.0), key(4.0)));
    assert_eq!(c.y, Interval::new(key(3.0 - 0.0001), key(3.0 + 0.0001)));
    assert_eq!(c.z, thick);
    assert_eq!(p.joined(&q), sides(Interval::new(key(3.0), key(4.0)), flat, thick));
}

#[test]
fn a_padded_side_includes_the_side_whatever_the_widening_answers() {
    let len = |side: &Interval| side.max - side.min;
    let elsewhere = |_side: &Interval| Interval::new(100, 101);
    let b = AABB::by_two_points(v3(5, 5, 5), v3(9, 5, 5), &len, 2, &elsewhere);
    assert_eq!(b, sides(Interval::new(5, 9), Interval::new(5, 101), Interval::new(5, 101)));
    let asked = std::cell::Cell::new(0);
    let counting = |side: &Interval| {
        asked.set(asked.get() + 1);
        Interval::new(side.min - 1, side.max + 1)
    };
    let thick = AABB::by_two_points(v3(0, 0, 0), v3(9, 9, 9), &len, 2, &counting);
    assert_eq!(thick, sides(Interval::new(0, 9), Interval::new(0, 9), Interval::new(0, 9)));
    assert_eq!(asked.get(), 0);
}

#[test]
fn a_sphere_is_asked_for_its_surface_at_the_root_picked_only() {
    let r_t = Interval::new(key(0.001), key(f64::INFINITY));
    let asked = std::cell::RefCell::new(Vec::new());
    let at = |t: i64| {
        asked.borrow_mut().push(t);
        num(t) * 2.0
    };
    // fired from 5 away at the centre of a sphere of radius 1
    let h = sphere_hit(&r_t, &|| Some((key(4.0), key(6.0))), &at).unwrap();
    assert_eq!((h.t, h.surface), (key(4.0), 8.0));
    // from inside
    let h = sphere_hit(&r_t, &|| Some((key(-1.0), key(1.0))), &at).unwrap();
    assert_eq!((h.t, h.surface), (key(1.0), 2.0));
    // behind the ray, and past the sphere
    assert!(sphere_hit(&r_t, &|| Some((key(-6.0), key(-4.0))), &at).is_none());
    assert!(sphere_hit(&r_t, &|| None, &at).is_none());
    assert_eq!(*asked.borrow(), vec![key(4.0), key(1.0)]);
}

#[test]
fn a_flat_primitive_is_met_where_the_ray_crosses_it_inside() {
    let unit = Interval::new(key(0.0), key(1.0));
    let r_t = Interval::new(key(0.001), key(100.0));
    let asked = std::cell::RefCell::new(Vec::new());
    // the point at the parameter t has the coordinates t/10 and t/20
    let coords = |t: i64| {
        asked.borrow_mut().push("coords");
        let (a, b) = (num(t) / 10.0, num(t) / 20.0);
        (key(a), key(b), key(a + b))
    };
    let at = |t: i64, a: i64, b: i64| {
        asked.borrow_mut().push("surface");
        (num(t), num(a), num(b))
    };
    let h = plane_hit(&Shape::Quad, &r_t, &unit, &|| Some(key(5.0)), &coords, &at).unwrap();
    assert_eq!(h.t, key(5.0));
    assert_eq!(h.surface, (5.0, 0.5, 0.25));
    assert_eq!(*asked.borrow(), vec!["coords", "surface"]);
    // the ends of the interval count
    assert!(plane_hit(&Shape::Quad, &r_t, &unit, &|| Some(key(0.001)), &coords, &at).is_some());
    // within the parallelogram and beyond the triangle
    let h = plane_hit(&Shape::Quad, &r_t, &unit, &|| Some(key(8.0)), &coords, &at);
    assert!(h.is_some());
    let h = plane_hit(&Shape::Triangle, &r_t, &unit, &|| Some(key(8.0)), &coords, &at);
    assert!(h.is_none());
    let h = plane_hit(&Shape::Triangle, &r_t, &unit, &|| Some(key(6.0)), &coords, &at);
    assert_eq!(h.unwrap().t, key(6.0));
}

#[test]
fn a_flat_primitive_is_missed_along_the_plane_beyond_the_interval_and_off_the_outline() {
    let unit = Interval::new(key(0.0), key(1.0));
    let r_t = Interval::new(key(0.001), key(100.0));
    let asked = std::cell::Cell::new(0);
    let coords = |t: i64| {
        asked.set(asked.get() + 1);
        let (a, b) = (num(t) / 10.0, num(t) / 20.0);
        (key(a), key(b), key(a + b))
    };
    let at = |_t: i64, _a: i64, _b: i64| panic!("no surface is asked for where there is no hit");
    // along the plane
    assert!(plane_hit::<()>(&Shape::Quad, &r_t, &unit, &|| None, &coords, &at).is_none());
    // behind the ray and beyond the interval: the coordinates are not asked for
    assert!(plane_hit::<()>(&Shape::Quad, &r_t, &unit, &|| Some(key(-5.0)), &coords, &at).is_none());
    assert!(plane_hit::<()>(&Shape::Quad, &r_t, &unit, &|| Some(key(200.0)), &coords, &at).is_none());
    assert_eq!(asked.get(), 0);
    // off the outline
    assert!(plane_hit::<()>(&Shape::Quad, &r_t, &unit, &|| Some(key(15.0)), &coords, &at).is_none());
    assert_eq!(asked.get(), 1);
}
