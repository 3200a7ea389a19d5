use std::collections::BTreeSet;

use pathtracer::aabb::{ordered_key, KeyPoint, AABB};
use pathtracer::bvh::{Bvh, BvhChild, BvhError};

fn key(v: f64) -> u64 {
    ordered_key(v.to_bits())
}

fn cube(x: f64, y: f64, z: f64, r: f64) -> AABB {
    AABB::new(
        &KeyPoint::new(key(x - r), key(y - r), key(z - r)),
        &KeyPoint::new(key(x + r), key(y + r), key(z + r)),
    )
}

fn child_leaves(t: &Bvh, c: BvhChild, out: &mut BTreeSet<usize>) {
    match c {
        BvhChild::Leaf(p) => {
            out.insert(p);
        }
        BvhChild::Node(j) => node_leaves(t, j, out),
    }
}

fn node_leaves(t: &Bvh, i: usize, out: &mut BTreeSet<usize>) {
    child_leaves(t, t.nodes[i].left, out);
    child_leaves(t, t.nodes[i].right, out);
}

fn contains(outer: &AABB, inner: &AABB) -> bool {
    (0..3).all(|a| outer.min().coord(a) <= inner.min().coord(a) && inner.max().coord(a) <= outer.max().coord(a))
}

fn scene_boxes(n: usize) -> Vec<Option<AABB>> {
    (0..n)
        .map(|i| {
            let f = i as f64;
            Some(cube((f * 7.0) % 11.0 - 5.0, (f * 3.0) % 5.0, -(f * 13.0) % 17.0, 0.5 + (i % 3) as f64))
        })
        .collect()
}

#[test]
fn empty_list_is_refused() {
    assert!(matches!(Bvh::new(&vec![]), Err(BvhError::Empty)));
}

#[test]
fn missing_box_is_refused() {
    let mut boxes = scene_boxes(5);
    boxes[3] = None;
    assert!(matches!(Bvh::new(&boxes), Err(BvhError::MissingBoundingBox)));
}

#[test]
fn single_primitive_is_both_children() {
    let t = Bvh::new(&scene_boxes(1)).unwrap();
    assert_eq!(t.nodes.len(), 1);
    assert_eq!(t.nodes[t.root].left, BvhChild::Leaf(0));
    assert_eq!(t.nodes[t.root].right, BvhChild::Leaf(0));
    assert_eq!(t.nodes[t.root].bounding_box, scene_boxes(1)[0].unwrap());
}

#[test]
fn two_primitives_are_ordered_along_the_axis() {
    let boxes = vec![Some(cube(4.0, 4.0, 4.0, 1.0)), Some(cube(0.0, 0.0, 0.0, 1.0))];
    let t = Bvh::new(&boxes).unwrap();
    let n = t.nodes[t.root];
    // the first box lies after the second on every axis
    assert_eq!(n.left, BvhChild::Leaf(1));
    assert_eq!(n.right, BvhChild::Leaf(0));
    assert_eq!(n.bounding_box, AABB::surrounding_box(&boxes[0].unwrap(), &boxes[1].unwrap()));
}

#[test]
fn every_primitive_is_a_leaf_of_the_root() {
    for n in [2usize, 3, 4, 7, 16, 33] {
        let boxes = scene_boxes(n);
        let t = Bvh::new(&boxes).unwrap();
        let mut found = BTreeSet::new();
        node_leaves(&t, t.root, &mut found);
        assert_eq!(found, (0..n).collect::<BTreeSet<_>>());
        assert_eq!(t.leaf_boxes.len(), n);
    }
}

#[test]
fn node_boxes_contain_their_leaves_and_split_in_order() {
    let boxes = scene_boxes(40);
    let t = Bvh::new(&boxes).unwrap();
    for (i, node) in t.nodes.iter().enumerate() {
        let mut below = BTreeSet::new();
        node_leaves(&t, i, &mut below);
        for p in &below {
            assert!(contains(&node.bounding_box, &boxes[*p].unwrap()));
        }
        let mut l = BTreeSet::new();
        child_leaves(&t, node.left, &mut l);
        let mut r = BTreeSet::new();
        child_leaves(&t, node.right, &mut r);
        for a in &l {
            for b in &r {
                let ka = boxes[*a].unwrap().min().coord(node.axis);
                let kb = boxes[*b].unwrap().min().coord(node.axis);
                assert!(ka <= kb);
            }
        }
        assert!(node.axis < 3);
        // children are earlier nodes
        if let BvhChild::Node(j) = node.left {
            assert!(j < i);
        }
        if let BvhChild::Node(j) = node.right {
            assert!(j < i);
        }
    }
}
