use std::cmp::Ordering;
use std::collections::BTreeSet;

use raytracer::bvh::{
    box_compare, box_x_compare, box_y_compare, box_z_compare, order_key, BvhChild, BvhLayout,
};

fn key(x: f64) -> u64 {
    order_key(x.to_bits())
}

fn leaves(layout: &BvhLayout, c: BvhChild, out: &mut BTreeSet<usize>) {
    match c {
        BvhChild::Primitive(p) => {
            out.insert(p);
        }
        BvhChild::Node(m) => {
            let node = layout.node(m);
            leaves(layout, node.left, out);
            leaves(layout, node.right, out);
        }
    }
}

fn size(layout: &BvhLayout, c: BvhChild) -> usize {
    match c {
        BvhChild::Primitive(_) => 1,
        BvhChild::Node(m) => {
            let node = layout.node(m);
            if node.left == node.right && matches!(node.left, BvhChild::Primitive(_)) {
                1
            } else {
                size(layout, node.left) + size(layout, node.right)
            }
        }
    }
}

fn keys_from(points: &[[f64; 3]]) -> Vec<[u64; 3]> {
    points.iter().map(|p| [key(p[0]), key(p[1]), key(p[2])]).collect()
}

fn scattered_points(n: usize) -> Vec<[f64; 3]> {
    (0..n)
        .map(|i| {
            let f = i as f64;
            [(f * 7.3) % 11.0 - 5.0, (f * 3.1) % 5.0, -(f * 1.7) % 13.0]
        })
        .collect()
}

fn check_layout(points: &[[f64; 3]]) {
    let keys = keys_from(points);
    let layout = BvhLayout::construct(&keys);
    let n = keys.len();
    assert!(layout.node_count() > 0);
    assert!(layout.node_count() <= 2 * n - 1);
    assert_eq!(layout.root(), layout.node_count() - 1);
    for m in 0..layout.node_count() {
        let node = layout.node(m);
        assert!(node.axis < 3);
        for c in [node.left, node.right] {
            match c {
                BvhChild::Primitive(p) => assert!(p < n),
                BvhChild::Node(d) => assert!(d < m),
            }
        }
        let mut left = BTreeSet::new();
        let mut right = BTreeSet::new();
        leaves(&layout, node.left, &mut left);
        leaves(&layout, node.right, &mut right);
        let total = size(&layout, BvhChild::Node(m));
        if total >= 2 {
            assert_eq!(size(&layout, node.left), total / 2);
        }
        if total == 2 {
            match (node.left, node.right) {
                (BvhChild::Primitive(p), BvhChild::Primitive(q)) => {
                    assert!(keys[p][node.axis as usize] <= keys[q][node.axis as usize]);
                }
                _ => panic!("a node over two primitives must hold them directly"),
            }
        }
        let axis = node.axis as usize;
        for &p in &left {
            for &q in &right {
                assert!(points[p][axis] <= points[q][axis]);
            }
        }
    }
    assert_eq!(size(&layout, BvhChild::Node(layout.root())), n);
    let mut all = BTreeSet::new();
    leaves(&layout, BvhChild::Node(layout.root()), &mut all);
    assert_eq!(all, (0..n).collect::<BTreeSet<usize>>());
}

#[test]
fn order_key_follows_float_order() {
    let values = [
        f64::NEG_INFINITY,
        -1.0e300,
        -2.5,
        -1.0,
        -1.0e-310,
        0.0,
        1.0e-310,
        0.5,
        1.0,
        3.75,
        1.0e300,
        f64::INFINITY,
    ];
    for w in values.windows(2) {
        assert!(key(w[0]) < key(w[1]), "{} {}", w[0], w[1]);
    }
    assert_eq!(key(-0.0), key(0.0));
    assert!(key(-0.0) > key(-1.0e-310));
    assert!(key(0.0) < key(1.0e-310));
}

#[test]
fn order_key_exact_values() {
    assert_eq!(order_key(0), 0x8000_0000_0000_0000);
    assert_eq!(order_key(0x8000_0000_0000_0000), 0x8000_0000_0000_0000);
    assert_eq!(order_key(1.0f64.to_bits()), 0xbff0_0000_0000_0000);
    assert_eq!(order_key((-1.0f64).to_bits()), 0x4010_0000_0000_0000);
    assert_eq!(order_key(u64::MAX), 1);
    assert_eq!(order_key(0x7fff_ffff_ffff_ffff), u64::MAX);
}

#[test]
fn box_compare_is_three_way_per_axis() {
    let a = [1u64, 5, 9];
    let b = [2u64, 5, 3];
    assert_eq!(box_compare(&a, &b, 0), Ordering::Less);
    assert_eq!(box_compare(&a, &b, 1), Ordering::Equal);
    assert_eq!(box_compare(&a, &b, 2), Ordering::Greater);
    assert_eq!(box_x_compare(&a, &b), Ordering::Less);
    assert_eq!(box_y_compare(&a, &b), Ordering::Equal);
    assert_eq!(box_z_compare(&a, &b), Ordering::Greater);
    assert_eq!(box_x_compare(&b, &a), Ordering::Greater);
}

#[test]
fn zeros_of_either_sign_compare_equal() {
    let a = [key(-0.0), key(1.0), key(2.0)];
    let b = [key(0.0), key(1.0), key(2.0)];
    assert_eq!(box_x_compare(&a, &b), Ordering::Equal);
    assert_eq!(box_x_compare(&b, &a), Ordering::Equal);
}

#[test]
fn single_primitive_sits_on_both_sides() {
    let keys = keys_from(&[[1.0, 2.0, 3.0]]);
    let layout = BvhLayout::construct(&keys);
    assert_eq!(layout.node_count(), 1);
    let root = layout.node(layout.root());
    assert_eq!(root.left, BvhChild::Primitive(0));
    assert_eq!(root.right, BvhChild::Primitive(0));
}

#[test]
fn pair_is_ordered_by_key_on_the_chosen_axis() {
    let points = [[5.0, 5.0, 5.0], [-5.0, -5.0, -5.0]];
    let keys = keys_from(&points);
    for _ in 0..10 {
        let layout = BvhLayout::construct(&keys);
        assert_eq!(layout.node_count(), 1);
        let root = layout.node(layout.root());
        assert_eq!(root.left, BvhChild::Primitive(1));
        assert_eq!(root.right, BvhChild::Primitive(0));
    }
}

#[test]
fn equal_keys_keep_a_deterministic_order() {
    let keys = keys_from(&[[1.0, 1.0, 1.0], [1.0, 1.0, 1.0]]);
    let layout = BvhLayout::construct(&keys);
    let root = layout.node(layout.root());
    assert_eq!(root.left, BvhChild::Primitive(0));
    assert_eq!(root.right, BvhChild::Primitive(1));
}

#[test]
fn small_layouts_reach_every_primitive() {
    for n in 1..12 {
        check_layout(&scattered_points(n));
    }
}

#[test]
fn large_layout_reaches_every_primitive_and_splits() {
    check_layout(&scattered_points(500));
}

#[test]
fn layout_with_equal_keys_reaches_every_primitive() {
    let points = vec![[0.0, 0.0, 0.0]; 64];
    check_layout(&points);
}
