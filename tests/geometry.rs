use myraytracing::aabb::{hit_slabs, surrounding_box, Aabb, Point3, Slab};
use myraytracing::bvh::{box_compare, Bvh, Child};
use myraytracing::hittable::{first_root, meets_sphere, Crossing, Hit};
use myraytracing::hittable_list::HittableList;
use myraytracing::scalar::Scalar;

fn s(x: f64) -> Scalar {
    Scalar::from_bits(x.to_bits()).unwrap()
}

fn f(v: Scalar) -> f64 {
    f64::from_bits(v.to_bits())
}

fn p(x: f64, y: f64, z: f64) -> Point3 {
    Point3::new(s(x), s(y), s(z))
}

fn cube(c: [f64; 3], h: f64) -> Aabb {
    Aabb::from_points(p(c[0] - h, c[1] - h, c[2] - h), p(c[0] + h, c[1] + h, c[2] + h))
}

fn slabs(b: &Aabb, origin: [f64; 3], dir: [f64; 3]) -> [Slab; 3] {
    let lo = [f(b.min.x), f(b.min.y), f(b.min.z)];
    let hi = [f(b.max.x), f(b.max.y), f(b.max.z)];
    let mut out = [Slab { t0: None, t1: None }; 3];
    for a in 0..3 {
        let t0 = (lo[a] - origin[a]) / dir[a];
        let t1 = (hi[a] - origin[a]) / dir[a];
        out[a] = Slab { t0: Scalar::from_bits(t0.to_bits()), t1: Scalar::from_bits(t1.to_bits()) };
    }
    out
}

fn sphere_crossing(center: [f64; 3], radius: f64, origin: [f64; 3], dir: [f64; 3]) -> Option<Crossing> {
    let oc = [origin[0] - center[0], origin[1] - center[1], origin[2] - center[2]];
    let a = dir[0] * dir[0] + dir[1] * dir[1] + dir[2] * dir[2];
    let half_b = oc[0] * dir[0] + oc[1] * dir[1] + oc[2] * dir[2];
    let c = oc[0] * oc[0] + oc[1] * oc[1] + oc[2] * oc[2] - radius * radius;
    let disc = half_b * half_b - a * c;
    if disc > 0.0 {
        let root = disc.sqrt();
        Some(Crossing { near: s((-half_b - root) / a), far: s((-half_b + root) / a) })
    } else {
        None
    }
}

#[test]
fn surrounding_box_takes_min_and_max() {
    let a = Aabb::from_points(p(0.0, -1.0, 2.0), p(1.0, 3.0, 4.0));
    let b = Aabb::from_points(p(-2.0, 0.0, 3.0), p(0.5, 5.0, 3.5));
    let u = surrounding_box(&a, &b);
    assert_eq!(u.min, p(-2.0, -1.0, 2.0));
    assert_eq!(u.max, p(1.0, 5.0, 4.0));
    assert_eq!(surrounding_box(&b, &a), u);
}

#[test]
fn new_box_is_the_origin() {
    let b = Aabb::new();
    assert_eq!(b.min, p(0.0, 0.0, 0.0));
    assert_eq!(b.max, p(0.0, 0.0, 0.0));
}

#[test]
fn ray_from_inside_box_hits() {
    let b = Aabb::from_points(p(-1.0, -2.0, -3.0), p(1.0, 2.0, 3.0));
    for dir in [[1.0, 0.0, 0.0], [0.0, -1.0, 0.0], [0.3, 0.4, -0.5], [0.0, 0.0, 2.0]] {
        let sl = slabs(&b, [0.5, 0.5, 0.5], dir);
        assert!(hit_slabs(&sl, Scalar::neg_infinity(), Scalar::infinity()));
    }
}

#[test]
fn ray_pointing_away_misses_box() {
    let b = cube([0.0, 0.0, -5.0], 1.0);
    let sl = slabs(&b, [0.0, 0.0, 0.0], [0.0, 0.0, 1.0]);
    assert!(!hit_slabs(&sl, s(0.001), Scalar::infinity()));
    let sl = slabs(&b, [0.0, 0.0, 0.0], [0.0, 0.0, -1.0]);
    assert!(hit_slabs(&sl, s(0.001), Scalar::infinity()));
    // The box lies beyond the window.
    assert!(!hit_slabs(&sl, s(0.001), s(3.0)));
}

#[test]
fn ray_passing_beside_box_misses() {
    let b = cube([0.0, 0.0, -5.0], 1.0);
    let sl = slabs(&b, [3.0, 0.0, 0.0], [0.0, 0.0, -1.0]);
    assert!(!hit_slabs(&sl, s(0.001), Scalar::infinity()));
}

#[test]
fn undefined_crossing_does_not_narrow() {
    let open = Slab { t0: None, t1: None };
    let half = Slab { t0: None, t1: Some(s(-1.0)) };
    let sl = [open, half, Slab { t0: Some(s(2.0)), t1: Some(s(1.0)) }];
    assert!(hit_slabs(&sl, s(0.0), s(10.0)));
    assert!(!hit_slabs(&sl, s(0.0), s(1.0)));
}

#[test]
fn sphere_hit_from_outside_is_distance_minus_radius() {
    let c = sphere_crossing([0.0, 0.0, -5.0], 1.0, [0.0, 0.0, 0.0], [0.0, 0.0, -1.0]);
    assert_eq!(first_root(&c, s(0.001), Scalar::infinity()), Some(s(4.0)));
}

#[test]
fn first_root_prefers_near_then_far() {
    let c = Some(Crossing { near: s(1.0), far: s(3.0) });
    assert_eq!(first_root(&c, s(0.0), s(10.0)), Some(s(1.0)));
    assert_eq!(first_root(&c, s(1.0), s(10.0)), Some(s(3.0)));
    assert_eq!(first_root(&c, s(0.0), s(3.0)), Some(s(1.0)));
    assert_eq!(first_root(&c, s(1.5), s(3.0)), None);
    assert_eq!(first_root(&c, s(3.5), s(10.0)), None);
    assert_eq!(first_root(&None, s(0.0), s(10.0)), None);
}

#[test]
fn list_returns_nearest_not_first() {
    let mut list = HittableList::new();
    list.add(0);
    list.add(1);
    list.add(2);
    let cr = vec![
        Some(Crossing { near: s(5.0), far: s(6.0) }),
        Some(Crossing { near: s(2.0), far: s(2.5) }),
        None,
    ];
    let h = list.hit(&cr, s(0.001), Scalar::infinity());
    assert_eq!(h, Some(Hit { object: 1, t: s(2.0) }));
    let h = list.hit(&cr, s(3.0), Scalar::infinity());
    assert_eq!(h, Some(Hit { object: 0, t: s(5.0) }));
    assert_eq!(list.hit(&cr, s(7.0), Scalar::infinity()), None);
}

#[test]
fn empty_list_has_no_hit_and_no_box() {
    let list = HittableList::new();
    let cr: Vec<Option<Crossing>> = vec![];
    assert_eq!(list.hit(&cr, s(0.0), Scalar::infinity()), None);
    assert_eq!(list.bounding_box(&vec![]), None);
    assert!(HittableList::default().objects.is_empty());
}

#[test]
fn list_box_is_union_of_members() {
    let boxes = vec![
        Some(cube([0.0, 0.0, 0.0], 1.0)),
        Some(cube([5.0, 0.0, 0.0], 0.5)),
        Some(cube([0.0, -4.0, 2.0], 1.0)),
        None,
    ];
    let mut list = HittableList::with_object(0);
    list.add(1);
    assert_eq!(list.objects, vec![0, 1]);
    let b = list.bounding_box(&boxes).unwrap();
    assert_eq!(b.min, p(-1.0, -1.0, -1.0));
    assert_eq!(b.max, p(5.5, 1.0, 1.0));
    list.add(2);
    let b = list.bounding_box(&boxes).unwrap();
    assert_eq!(b.min, p(-1.0, -5.0, -1.0));
    assert_eq!(b.max, p(5.5, 1.0, 3.0));
    list.add(3);
    assert_eq!(list.bounding_box(&boxes), None);
    list.clear();
    assert!(list.objects.is_empty());
    let only_unboxed = HittableList::with_object(3);
    assert_eq!(only_unboxed.bounding_box(&boxes), None);
}

#[test]
fn box_compare_uses_lower_corner() {
    let a = cube([0.0, 0.0, 0.0], 1.0);
    let b = cube([2.0, 0.0, -3.0], 1.0);
    assert_eq!(box_compare(&a, &b, 0), std::cmp::Ordering::Less);
    assert_eq!(box_compare(&a, &b, 1), std::cmp::Ordering::Equal);
    assert_eq!(box_compare(&a, &b, 2), std::cmp::Ordering::Greater);
}

fn leaves(bvh: &Bvh, c: Child, out: &mut Vec<usize>) {
    match c {
        Child::Object(i) => out.push(i),
        Child::Node(j) => {
            let n = bvh.nodes[j];
            leaves(bvh, n.left, out);
            leaves(bvh, n.right, out);
        }
    }
}

fn scene() -> (Vec<([f64; 3], f64)>, Vec<Aabb>) {
    let mut spheres = Vec::new();
    for i in 0..7 {
        for j in 0..5 {
            let c = [i as f64 * 1.5 - 4.0, (j as f64) * 0.7 - 1.0, -3.0 - (i * j) as f64 * 0.3];
            spheres.push((c, 0.2 + 0.05 * ((i + j) % 4) as f64));
        }
    }
    spheres.push(([0.0, -100.5, -1.0], 100.0));
    let boxes = spheres.iter().map(|(c, r)| cube(*c, *r)).collect();
    (spheres, boxes)
}

#[test]
fn bvh_covers_every_object() {
    let (_, boxes) = scene();
    let n = boxes.len();
    let bvh = Bvh::new((0..n).collect(), &boxes);
    assert_eq!(bvh.root, bvh.nodes.len() - 1);
    let mut found = Vec::new();
    leaves(&bvh, Child::Node(bvh.root), &mut found);
    found.sort();
    // A node over a single object holds it on both sides.
    found.dedup();
    assert_eq!(found, (0..n).collect::<Vec<_>>());
    for (k, node) in bvh.nodes.iter().enumerate() {
        let mut under = Vec::new();
        leaves(&bvh, Child::Node(k), &mut under);
        for o in under {
            let (b, ob) = (node.bbox, boxes[o]);
            assert!(b.min.x.rank <= ob.min.x.rank && ob.max.x.rank <= b.max.x.rank);
            assert!(b.min.y.rank <= ob.min.y.rank && ob.max.y.rank <= b.max.y.rank);
            assert!(b.min.z.rank <= ob.min.z.rank && ob.max.z.rank <= b.max.z.rank);
        }
    }
}

#[test]
fn bvh_over_one_object_has_it_on_both_sides() {
    let boxes = vec![cube([0.0, 0.0, -1.0], 0.5)];
    let bvh = Bvh::new(vec![0], &boxes);
    assert_eq!(bvh.nodes.len(), 1);
    assert_eq!(bvh.nodes[0].left, Child::Object(0));
    assert_eq!(bvh.nodes[0].right, Child::Object(0));
    assert_eq!(bvh.bounding_box(), boxes[0]);
}

#[test]
fn bvh_over_two_objects_orders_them() {
    let boxes = vec![cube([1.0, 1.0, 1.0], 0.5), cube([0.0, 0.0, 0.0], 0.5)];
    let bvh = Bvh::new(vec![0, 1], &boxes);
    assert_eq!(bvh.nodes[0].left, Child::Object(1));
    assert_eq!(bvh.nodes[0].right, Child::Object(0));
}

#[test]
fn bvh_and_list_agree_on_nearest_t() {
    let (spheres, boxes) = scene();
    let n = boxes.len();
    let bvh = Bvh::new((0..n).collect(), &boxes);
    let mut list = HittableList::new();
    for i in 0..n {
        list.add(i);
    }
    let origin = [0.1, 0.3, 2.0];
    for k in 0..200 {
        let a = k as f64 * 0.031;
        let dir = [a.sin() * 0.8, (a * 1.7).cos() * 0.4 - 0.1, -1.0];
        let cr: Vec<Option<Crossing>> =
            spheres.iter().map(|(c, r)| sphere_crossing(*c, *r, origin, dir)).collect();
        let sl: Vec<[Slab; 3]> = bvh.nodes.iter().map(|nd| slabs(&nd.bbox, origin, dir)).collect();
        for (lo, hi) in [(0.001, f64::INFINITY), (2.5, 6.0), (0.001, 3.0)] {
            let from_tree = bvh.hit(&cr, &sl, s(lo), s(hi)).map(|h| h.t);
            let from_list = list.hit(&cr, s(lo), s(hi)).map(|h| h.t);
            assert_eq!(from_tree, from_list);
        }
    }
}

#[test]
fn grazing_ray_does_not_meet_sphere() {
    assert!(meets_sphere(s(1e-9)));
    assert!(!meets_sphere(s(0.0)));
    assert!(!meets_sphere(s(-2.0)));
}

fn node_objects(bvh: &Bvh, c: Child) -> Vec<usize> {
    let mut out = Vec::new();
    leaves(bvh, c, &mut out);
    out.sort();
    out.dedup();
    out
}

#[test]
fn bvh_splits_at_the_median() {
    // Keys on x are 0, 1, ..., 6 in scrambled order.
    let xs = [3.0, 6.0, 0.0, 5.0, 1.0, 4.0, 2.0];
    let boxes: Vec<Aabb> = xs.iter().map(|x| cube([*x, 0.0, 0.0], 0.25)).collect();
    let bvh = Bvh::new_with_axes((0..7).collect(), &boxes, &vec![0]);
    let top = bvh.nodes[bvh.root];
    // The three smallest keys (0, 1, 2 at objects 2, 4, 6) go left, the other four right.
    assert_eq!(node_objects(&bvh, top.left), vec![2, 4, 6]);
    assert_eq!(node_objects(&bvh, top.right), vec![0, 1, 3, 5]);
}

#[test]
fn fixed_axes_give_the_same_hierarchy() {
    let (_, boxes) = scene();
    let n = boxes.len();
    let axes = vec![2, 0, 1, 1, 0];
    let a = Bvh::new_with_axes((0..n).collect(), &boxes, &axes);
    let b = Bvh::new_with_axes((0..n).collect(), &boxes, &axes);
    assert_eq!(a.root, b.root);
    assert_eq!(a.nodes, b.nodes);
}

fn depth(bvh: &Bvh, c: Child) -> usize {
    match c {
        Child::Object(_) => 0,
        Child::Node(j) => 1 + depth(bvh, bvh.nodes[j].left).max(depth(bvh, bvh.nodes[j].right)),
    }
}

#[test]
fn bvh_depth_is_logarithmic() {
    let (_, boxes) = scene();
    assert_eq!(boxes.len(), 36);
    let bvh = Bvh::new((0..36).collect(), &boxes);
    assert_eq!(depth(&bvh, Child::Node(bvh.root)), 6);
    let one = Bvh::new(vec![5], &boxes);
    assert_eq!(depth(&one, Child::Node(one.root)), 1);
}
