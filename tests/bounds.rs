use pathtracer::aabb::{key_to_bits, list_bounding_box, ordered_key, triangle_box, KeyPoint, AABB};

fn key(v: f64) -> u64 {
    ordered_key(v.to_bits())
}

fn kp(x: f64, y: f64, z: f64) -> KeyPoint {
    KeyPoint::new(key(x), key(y), key(z))
}

fn aabb(a: (f64, f64, f64), b: (f64, f64, f64)) -> AABB {
    AABB::new(&kp(a.0, a.1, a.2), &kp(b.0, b.1, b.2))
}

#[test]
fn keys_follow_numeric_order() {
    let values = [-1000.0, -2.5, -1.0, -0.001, 0.0, 1e-9, 0.5, 1.0, 3.0, 1e12];
    for w in values.windows(2) {
        assert!(key(w[0]) < key(w[1]), "{} vs {}", w[0], w[1]);
    }
}

#[test]
fn keys_round_trip() {
    for v in [-3.75f64, -0.0, 0.0, 2.0, 1e-300, -1e300] {
        assert_eq!(f64::from_bits(key_to_bits(key(v))).to_bits(), v.to_bits());
    }
    assert_eq!(key(0.0), 0x8000_0000_0000_0000);
    assert_eq!(key(-0.0), 0x7fff_ffff_ffff_ffff);
}

#[test]
fn merge_takes_componentwise_extremes() {
    let a = aabb((0.0, -1.0, 2.0), (1.0, 1.0, 3.0));
    let b = aabb((-2.0, 0.0, 2.5), (0.5, 4.0, 2.75));
    let m = AABB::surrounding_box(&a, &b);
    assert_eq!(m.min(), kp(-2.0, -1.0, 2.0));
    assert_eq!(m.max(), kp(1.0, 4.0, 3.0));
    // it contains both inputs
    for inner in [a, b] {
        for axis in 0..3 {
            assert!(m.min().coord(axis) <= inner.min().coord(axis));
            assert!(inner.max().coord(axis) <= m.max().coord(axis));
        }
    }
}

#[test]
fn merge_with_itself_is_unchanged() {
    let a = aabb((0.0, 0.0, 0.0), (1.0, 2.0, 3.0));
    assert_eq!(AABB::surrounding_box(&a, &a), a);
}

#[test]
fn empty_box_is_the_origin() {
    let e = AABB::new_empty();
    assert_eq!(e.min(), kp(0.0, 0.0, 0.0));
    assert_eq!(e.max(), kp(0.0, 0.0, 0.0));
}

#[test]
fn triangle_box_spans_vertices() {
    let b = triangle_box(&kp(0.0, 0.0, 0.0), &kp(1.0, 0.0, -1.0), &kp(0.0, 1.0, 0.5));
    assert_eq!(b.min(), kp(0.0, 0.0, -1.0));
    assert_eq!(b.max(), kp(1.0, 1.0, 0.5));
}

#[test]
fn list_box_merges_all_children() {
    let a = aabb((0.0, 0.0, 0.0), (1.0, 1.0, 1.0));
    let b = aabb((5.0, -1.0, 0.0), (6.0, 0.0, 1.0));
    let c = aabb((2.0, 2.0, -3.0), (3.0, 3.0, -2.0));
    let r = list_bounding_box(&vec![Some(a), Some(b), Some(c)]).unwrap();
    assert_eq!(r.min(), kp(0.0, -1.0, -3.0));
    assert_eq!(r.max(), kp(6.0, 3.0, 1.0));
    assert_eq!(list_bounding_box(&vec![Some(b)]), Some(b));
}

#[test]
fn list_box_absent_when_empty_or_unbounded_child() {
    let a = aabb((0.0, 0.0, 0.0), (1.0, 1.0, 1.0));
    assert_eq!(list_bounding_box(&vec![]), None);
    assert_eq!(list_bounding_box(&vec![Some(a), None, Some(a)]), None);
    assert_eq!(list_bounding_box(&vec![None]), None);
}
