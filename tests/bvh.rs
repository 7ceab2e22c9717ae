use std::cmp::Ordering;

use ray_tracing::aabb::AABB;
use ray_tracing::bvh::{
    box_compare, box_x_compare, box_y_compare, box_z_compare, BVHNode, Geometry, Primitive, BVH,
};
use ray_tracing::hittable::HittableList;
use ray_tracing::vec::Point3;

fn p(x: f32, y: f32, z: f32) -> Point3 {
    Point3::new(x.to_bits(), y.to_bits(), z.to_bits())
}

/// A ball of radius `r` around `(c, 0, 0)`, as a bounded primitive.
fn ball(index: usize, c: f32, r: f32) -> Primitive {
    Primitive { index, bx: AABB::new(p(c - r, -r, -r), p(c + r, r, r)) }
}

fn cube(index: usize, x: f32, y: f32, z: f32) -> Primitive {
    Primitive { index, bx: AABB::new(p(x, y, z), p(x + 1.0, y + 1.0, z + 1.0)) }
}

fn leaves(g: &Geometry, out: &mut Vec<Primitive>) {
    match g {
        Geometry::Primitive(q) => out.push(*q),
        Geometry::Branch(n) => {
            leaves(&n.left, out);
            leaves(&n.right, out);
        }
    }
}

fn min_x(q: &Primitive) -> f32 {
    f32::from_bits(q.bx.min().x)
}

/// Checks that each branch box is the union of its children and that the split is
/// balanced.
fn check_tree(g: &Geometry) -> usize {
    match g {
        Geometry::Primitive(_) => 1,
        Geometry::Branch(n) => {
            let l = check_tree(&n.left);
            let r = check_tree(&n.right);
            assert_eq!(
                n.bx,
                AABB::surrounding_box(&n.left.bounding_box(), &n.right.bounding_box())
            );
            assert_eq!(l, (l + r + 1) / 2);
            assert_eq!(r, (l + r) / 2);
            l + r
        }
    }
}

/// A ray along +x from `(ox, 0, 0)`, tested against balls `(c, r)`: the candidate
/// hit of a ball is its first crossing beyond `t_min`.
fn ray_hit_ball(balls: &[(f32, f32)], ox: f32, t_min: f32, i: usize, t_max: f32) -> Option<(f32, usize)> {
    let (c, r) = balls[i];
    for t in [c - r - ox, c + r - ox] {
        if t > t_min && t < t_max {
            return Some((t, i));
        }
    }
    None
}

fn ray_hit_box(bx: AABB, ox: f32, t_min: f32, t_max: f32) -> bool {
    let lo = f32::from_bits(bx.min().x) - ox;
    let hi = f32::from_bits(bx.max().x) - ox;
    let y0 = f32::from_bits(bx.min().y);
    let y1 = f32::from_bits(bx.max().y);
    let z0 = f32::from_bits(bx.min().z);
    let z1 = f32::from_bits(bx.max().z);
    y0 <= 0.0 && 0.0 <= y1 && z0 <= 0.0 && 0.0 <= z1 && lo.max(t_min) < hi.min(t_max)
}

fn pseudo_random(seed: &mut u64) -> f32 {
    *seed = seed.wrapping_mul(6364136223846793005).wrapping_add(1442695040888963407);
    ((*seed >> 40) as f32) / ((1u64 << 24) as f32)
}

#[test]
fn compare_orders_by_least_coordinate() {
    let a = cube(0, 1.0, 5.0, -2.0);
    let b = cube(1, 2.0, 3.0, -2.0);
    assert_eq!(box_x_compare(&a, &b), Ordering::Less);
    assert_eq!(box_y_compare(&a, &b), Ordering::Greater);
    assert_eq!(box_z_compare(&a, &b), Ordering::Equal);
    assert_eq!(box_compare(&a, &b, 0), Ordering::Less);
    assert_eq!(box_compare(&b, &a, 1), Ordering::Less);
    assert_eq!(box_compare(&a, &b, 2), Ordering::Equal);
}

#[test]
fn compare_puts_negative_zero_before_zero() {
    let a = cube(0, -0.0, 0.0, 0.0);
    let b = cube(1, 0.0, 0.0, 0.0);
    assert_eq!(box_x_compare(&a, &b), Ordering::Less);
    assert_eq!(box_x_compare(&b, &a), Ordering::Greater);
}

#[test]
fn build_single_primitive_stands_alone() {
    let q = cube(7, 1.0, 2.0, 3.0);
    match BVH::build(vec![q]) {
        Geometry::Primitive(r) => assert_eq!(r, q),
        Geometry::Branch(_) => panic!("a single primitive got a branch"),
    }
}

#[test]
fn build_two_primitives_orders_them() {
    let a = cube(0, 5.0, 5.0, 5.0);
    let b = cube(1, 0.0, 0.0, 0.0);
    for _ in 0..20 {
        let node = BVHNode::new(vec![a, b]);
        assert!(matches!(node.left, Geometry::Primitive(q) if q == b));
        assert!(matches!(node.right, Geometry::Primitive(q) if q == a));
        assert_eq!(node.bx, AABB::surrounding_box(&a.bx, &b.bx));
    }
}

#[test]
fn build_splits_sorted_halves() {
    // Decreasing on every axis, so the halves come out right only after sorting.
    let objects: Vec<Primitive> = (0..4).map(|i| cube(i, 10.0 - i as f32, 20.0 - i as f32, -(i as f32))).collect();
    for _ in 0..20 {
        let node = BVHNode::new(objects.clone());
        let mut left = Vec::new();
        let mut right = Vec::new();
        leaves(&node.left, &mut left);
        leaves(&node.right, &mut right);
        assert_eq!(left.len(), 2);
        assert_eq!(right.len(), 2);
        let mut left_ids: Vec<usize> = left.iter().map(|q| q.index).collect();
        let mut right_ids: Vec<usize> = right.iter().map(|q| q.index).collect();
        left_ids.sort();
        right_ids.sort();
        assert_eq!(left_ids, vec![0, 1]);
        assert_eq!(right_ids, vec![2, 3]);
    }
}

#[test]
fn build_keeps_every_primitive_once() {
    let mut seed = 17u64;
    for n in 1..40 {
        let objects: Vec<Primitive> = (0..n)
            .map(|i| cube(i, 100.0 * pseudo_random(&mut seed), 100.0 * pseudo_random(&mut seed), 100.0 * pseudo_random(&mut seed)))
            .collect();
        let bvh = BVH::new(objects.clone());
        let mut found = Vec::new();
        leaves(bvh.root(), &mut found);
        let mut ids: Vec<usize> = found.iter().map(|q| q.index).collect();
        ids.sort();
        assert_eq!(ids, (0..n).collect::<Vec<usize>>());
        assert_eq!(check_tree(bvh.root()), n);
        let mut list = HittableList::new();
        for q in &objects {
            list.add(Geometry::Primitive(*q));
        }
        assert_eq!(list.bounding_box(), Some(bvh.bounding_box()));
    }
}

#[test]
fn build_three_balanced() {
    let objects = vec![ball(0, 0.0, 1.0), ball(1, 5.0, 1.0), ball(2, -5.0, 1.0)];
    let node = BVHNode::new(objects);
    let g = Geometry::Branch(Box::new(node));
    assert_eq!(check_tree(&g), 3);
}

#[test]
fn empty_list_has_no_box() {
    let list = HittableList::new();
    assert_eq!(list.bounding_box(), None);
}

#[test]
fn list_box_is_union_of_members() {
    let a = ball(0, 0.0, 1.0);
    let b = ball(1, 10.0, 2.0);
    let mut list = HittableList::new();
    list.add(Geometry::Primitive(a));
    list.add(Geometry::Primitive(b));
    let u = list.bounding_box().unwrap();
    assert_eq!(f32::from_bits(u.min().x), -1.0);
    assert_eq!(f32::from_bits(u.max().x), 12.0);
    assert_eq!(f32::from_bits(u.min().y), -2.0);
    assert_eq!(f32::from_bits(u.max().z), 2.0);
}

#[test]
fn list_hit_returns_nearest() {
    let balls = [(10.0f32, 1.0f32), (4.0, 1.0), (7.0, 0.5)];
    let mut list = HittableList::new();
    for (i, (c, r)) in balls.iter().enumerate() {
        list.add(Geometry::Primitive(ball(i, *c, *r)));
    }
    let box_hit = |bx: AABB, t: f32| ray_hit_box(bx, 0.0, 0.001, t);
    let prim_hit = |i: usize, t: f32| ray_hit_ball(&balls, 0.0, 0.001, i, t);
    assert_eq!(list.hit(&box_hit, &prim_hit, f32::INFINITY), Some((3.0, 1)));
    assert_eq!(list.hit(&box_hit, &prim_hit, 2.5), None);
}

#[test]
fn bvh_hit_prunes_missed_boxes() {
    let balls = [(10.0f32, 1.0f32), (4.0, 1.0), (7.0, 0.5)];
    let objects: Vec<Primitive> = balls.iter().enumerate().map(|(i, (c, r))| ball(i, *c, *r)).collect();
    let bvh = BVH::new(objects);
    let box_hit = |_: AABB, _: f32| false;
    let prim_hit = |i: usize, t: f32| ray_hit_ball(&balls, 0.0, 0.001, i, t);
    assert_eq!(bvh.hit(&box_hit, &prim_hit, f32::INFINITY), None);
}

#[test]
fn bvh_matches_linear_scan() {
    let mut seed = 99u64;
    for round in 0..30 {
        let n = 1 + round * 3;
        let balls: Vec<(f32, f32)> = (0..n)
            .map(|_| (200.0 * pseudo_random(&mut seed) - 100.0, 0.1 + 3.0 * pseudo_random(&mut seed)))
            .collect();
        let objects: Vec<Primitive> = balls.iter().enumerate().map(|(i, (c, r))| ball(i, *c, *r)).collect();
        let bvh = BVH::new(objects.clone());
        let mut list = HittableList::new();
        for q in &objects {
            list.add(Geometry::Primitive(*q));
        }
        for k in 0..40 {
            let ox = -120.0 + 6.0 * k as f32;
            let box_hit = |bx: AABB, t: f32| ray_hit_box(bx, ox, 0.001, t);
            let prim_hit = |i: usize, t: f32| ray_hit_ball(&balls, ox, 0.001, i, t);
            let a = bvh.hit(&box_hit, &prim_hit, f32::INFINITY);
            let b = list.hit(&box_hit, &prim_hit, f32::INFINITY);
            assert_eq!(a.map(|h| h.0), b.map(|h| h.0));
            if let Some((t, i)) = a {
                assert_eq!(ray_hit_ball(&balls, ox, 0.001, i, f32::INFINITY).map(|h| h.0), Some(t));
            }
        }
    }
}

#[test]
fn list_with_nested_bvh_matches_flat_list() {
    let mut seed = 5u64;
    let balls: Vec<(f32, f32)> = (0..25)
        .map(|_| (200.0 * pseudo_random(&mut seed) - 100.0, 0.1 + 2.0 * pseudo_random(&mut seed)))
        .collect();
    let objects: Vec<Primitive> = balls.iter().enumerate().map(|(i, (c, r))| ball(i, *c, *r)).collect();
    let mut nested = HittableList::new();
    nested.add(Geometry::Primitive(objects[0]));
    nested.add(BVH::build(objects[1..20].to_vec()));
    for q in &objects[20..] {
        nested.add(Geometry::Primitive(*q));
    }
    let mut flat = HittableList::new();
    for q in &objects {
        flat.add(Geometry::Primitive(*q));
    }
    assert_eq!(nested.bounding_box(), flat.bounding_box());
    for k in 0..50 {
        let ox = -110.0 + 4.5 * k as f32;
        let box_hit = |bx: AABB, t: f32| ray_hit_box(bx, ox, 0.001, t);
        let prim_hit = |i: usize, t: f32| ray_hit_ball(&balls, ox, 0.001, i, t);
        let a = nested.hit(&box_hit, &prim_hit, f32::INFINITY);
        let b = flat.hit(&box_hit, &prim_hit, f32::INFINITY);
        assert_eq!(a.map(|h| h.0), b.map(|h| h.0));
    }
}

#[test]
fn equal_distances_keep_the_first_found() {
    // Two balls whose near sides coincide at x = 4.
    let balls = [(5.0f32, 1.0f32), (6.0, 2.0)];
    let objects: Vec<Primitive> = balls.iter().enumerate().map(|(i, (c, r))| ball(i, *c, *r)).collect();
    let mut list = HittableList::new();
    for q in &objects {
        list.add(Geometry::Primitive(*q));
    }
    let box_hit = |bx: AABB, t: f32| ray_hit_box(bx, 0.0, 0.001, t);
    let prim_hit = |i: usize, t: f32| ray_hit_ball(&balls, 0.0, 0.001, i, t);
    assert_eq!(list.hit(&box_hit, &prim_hit, f32::INFINITY), Some((4.0, 0)));
    let bvh = BVH::new(objects);
    assert_eq!(bvh.hit(&box_hit, &prim_hit, f32::INFINITY).map(|h| h.0), Some(4.0));
}
