//! Axis-aligned bounding volumes over ordered coordinate keys.
use vstd::prelude::*;

verus! {

/// The sign bit of an IEEE-754 double.
pub const SIGN_BIT: u64 = 0x8000_0000_0000_0000;

/// Order-preserving key of the bit pattern of a non-NaN double: negative
/// values have all bits flipped, non-negative ones get the sign bit set, so
/// that unsigned comparison of keys agrees with numeric comparison.
pub open spec fn key_of_bits(bits: u64) -> u64 {
    if bits & SIGN_BIT != 0 {
        !bits
    } else {
        bits | SIGN_BIT
    }
}

/// The bit pattern that a key was made from.
pub open spec fn bits_of_key(key: u64) -> u64 {
    if key & SIGN_BIT != 0 {
        key & !SIGN_BIT
    } else {
        !key
    }
}

/// Turns the bit pattern of a double (`f64::to_bits`) into its ordered key.
pub fn ordered_key(bits: u64) -> (key: u64)
    ensures
        key == key_of_bits(bits),
        bits_of_key(key) == bits,
{
    proof {
        lemma_key_round_trip(bits);
    }
    if bits & SIGN_BIT != 0 {
        !bits
    } else {
        bits | SIGN_BIT
    }
}

/// Recovers the bit pattern of a double (for `f64::from_bits`) from its key.
pub fn key_to_bits(key: u64) -> (bits: u64)
    ensures
        bits == bits_of_key(key),
        key_of_bits(bits) == key,
{
    proof {
        lemma_bits_round_trip(key);
    }
    if key & SIGN_BIT != 0 {
        key & !SIGN_BIT
    } else {
        !key
    }
}

/// Decoding a key gives back the bit pattern it was made from.
pub proof fn lemma_key_round_trip(bits: u64)
    ensures
        bits_of_key(key_of_bits(bits)) == bits,
{
    assert(bits & 0x8000_0000_0000_0000u64 != 0 ==> (!bits) & 0x8000_0000_0000_0000u64 == 0
        && !(!bits) == bits) by (bit_vector);
    assert(bits & 0x8000_0000_0000_0000u64 == 0 ==> (bits | 0x8000_0000_0000_0000u64)
        & 0x8000_0000_0000_0000u64 != 0 && (bits | 0x8000_0000_0000_0000u64)
        & !0x8000_0000_0000_0000u64 == bits) by (bit_vector);
}

/// Encoding the bits of a key gives back the key.
pub proof fn lemma_bits_round_trip(key: u64)
    ensures
        key_of_bits(bits_of_key(key)) == key,
{
    assert(key & 0x8000_0000_0000_0000u64 != 0 ==> (key & !0x8000_0000_0000_0000u64)
        & 0x8000_0000_0000_0000u64 == 0 && ((key & !0x8000_0000_0000_0000u64)
        | 0x8000_0000_0000_0000u64) == key) by (bit_vector);
    assert(key & 0x8000_0000_0000_0000u64 == 0 ==> (!key) & 0x8000_0000_0000_0000u64 != 0
        && !(!key) == key) by (bit_vector);
}

/// A point whose three coordinates are ordered keys.
#[derive(Clone, Copy, Debug, PartialEq, Eq, Structural)]
pub struct KeyPoint {
    pub x: u64,
    pub y: u64,
    pub z: u64,
}

impl KeyPoint {
    pub open spec fn at(self, axis: int) -> u64 {
        if axis == 0 {
            self.x
        } else if axis == 1 {
            self.y
        } else {
            self.z
        }
    }

    pub fn new(x: u64, y: u64, z: u64) -> (r: KeyPoint)
        ensures
            r == (KeyPoint { x, y, z }),
    {
        KeyPoint { x, y, z }
    }

    /// The coordinate along `axis` (0, 1 or 2).
    pub fn coord(&self, axis: usize) -> (r: u64)
        requires
            axis < 3,
        ensures
            r == self.at(axis as int),
    {
        if axis == 0 {
            self.x
        } else if axis == 1 {
            self.y
        } else {
            self.z
        }
    }
}

/// Componentwise minimum of two points.
pub open spec fn min_point(a: KeyPoint, b: KeyPoint) -> KeyPoint {
    KeyPoint {
        x: if a.x <= b.x { a.x } else { b.x },
        y: if a.y <= b.y { a.y } else { b.y },
        z: if a.z <= b.z { a.z } else { b.z },
    }
}

/// Componentwise maximum of two points.
pub open spec fn max_point(a: KeyPoint, b: KeyPoint) -> KeyPoint {
    KeyPoint {
        x: if a.x >= b.x { a.x } else { b.x },
        y: if a.y >= b.y { a.y } else { b.y },
        z: if a.z >= b.z { a.z } else { b.z },
    }
}

/// `a <= b` on every axis.
pub open spec fn point_le(a: KeyPoint, b: KeyPoint) -> bool {
    a.x <= b.x && a.y <= b.y && a.z <= b.z
}

/// An axis-aligned box given by its minimum and maximum corners.
#[derive(Clone, Copy, Debug, PartialEq, Eq, Structural)]
pub struct AABB {
    pub minimum: KeyPoint,
    pub maximum: KeyPoint,
}

/// `outer` contains `inner`: its corners are at least as far out on every axis.
pub open spec fn contains(outer: AABB, inner: AABB) -> bool {
    point_le(outer.minimum, inner.minimum) && point_le(inner.maximum, outer.maximum)
}

/// The smallest box around two boxes.
pub open spec fn merge(a: AABB, b: AABB) -> AABB {
    AABB { minimum: min_point(a.minimum, b.minimum), maximum: max_point(a.maximum, b.maximum) }
}

/// The key of `0.0`.
pub const ZERO_KEY: u64 = 0x8000_0000_0000_0000;

fn min_key(a: u64, b: u64) -> (r: u64)
    ensures
        r == if a <= b { a } else { b },
{
    if a <= b {
        a
    } else {
        b
    }
}

fn max_key(a: u64, b: u64) -> (r: u64)
    ensures
        r == if a >= b { a } else { b },
{
    if a >= b {
        a
    } else {
        b
    }
}

impl AABB {
    /// The corners are ordered: min <= max on every axis.
    pub open spec fn wf(self) -> bool {
        point_le(self.minimum, self.maximum)
    }

    pub fn new(a: &KeyPoint, b: &KeyPoint) -> (r: AABB)
        ensures
            r.minimum == *a,
            r.maximum == *b,
    {
        AABB { minimum: *a, maximum: *b }
    }

    /// The degenerate box at the origin.
    pub fn new_empty() -> (r: AABB)
        ensures
            r.minimum == (KeyPoint { x: ZERO_KEY, y: ZERO_KEY, z: ZERO_KEY }),
            r.maximum == (KeyPoint { x: ZERO_KEY, y: ZERO_KEY, z: ZERO_KEY }),
            r.wf(),
    {
        let o = KeyPoint { x: ZERO_KEY, y: ZERO_KEY, z: ZERO_KEY };
        AABB { minimum: o, maximum: o }
    }

    pub fn max(&self) -> (r: KeyPoint)
        ensures
            r == self.maximum,
    {
        self.maximum
    }

    pub fn min(&self) -> (r: KeyPoint)
        ensures
            r == self.minimum,
    {
        self.minimum
    }

    /// The tightest box containing both `left` and `right`.
    pub fn surrounding_box(left: &AABB, right: &AABB) -> (r: AABB)
        ensures
            r == merge(*left, *right),
    {
        let small = KeyPoint {
            x: min_key(left.minimum.x, right.minimum.x),
            y: min_key(left.minimum.y, right.minimum.y),
            z: min_key(left.minimum.z, right.minimum.z),
        };
        let big = KeyPoint {
            x: max_key(left.maximum.x, right.maximum.x),
            y: max_key(left.maximum.y, right.maximum.y),
            z: max_key(left.maximum.z, right.maximum.z),
        };
        AABB { minimum: small, maximum: big }
    }
}

/// Merging two boxes gives a box that contains both, and any box that
/// contains both contains the merge: it is the least such box.
pub proof fn lemma_merge_is_least(a: AABB, b: AABB)
    ensures
        contains(merge(a, b), a),
        contains(merge(a, b), b),
        forall|c: AABB| contains(c, a) && contains(c, b) ==> #[trigger] contains(c, merge(a, b)),
        a.wf() && b.wf() ==> merge(a, b).wf(),
{
}

/// Containment is transitive.
pub proof fn lemma_contains_trans(a: AABB, b: AABB, c: AABB)
    requires
        contains(a, b),
        contains(b, c),
    ensures
        contains(a, c),
{
}

/// The box around a triangle: the componentwise extremes of its vertices.
pub fn triangle_box(v1: &KeyPoint, v2: &KeyPoint, v3: &KeyPoint) -> (r: AABB)
    ensures
        r.minimum == min_point(*v1, min_point(*v2, *v3)),
        r.maximum == max_point(*v1, max_point(*v2, *v3)),
        r.wf(),
{
    let small = KeyPoint {
        x: min_key(v1.x, min_key(v2.x, v3.x)),
        y: min_key(v1.y, min_key(v2.y, v3.y)),
        z: min_key(v1.z, min_key(v2.z, v3.z)),
    };
    let big = KeyPoint {
        x: max_key(v1.x, max_key(v2.x, v3.x)),
        y: max_key(v1.y, max_key(v2.y, v3.y)),
        z: max_key(v1.z, max_key(v2.z, v3.z)),
    };
    AABB { minimum: small, maximum: big }
}

/// Box of a list of children, merged left to right: absent when the list is
/// empty or when any child has no box.
pub open spec fn merge_all(s: Seq<Option<AABB>>) -> Option<AABB>
    decreases s.len(),
{
    if s.len() == 0 {
        None
    } else if s.len() == 1 {
        s[0]
    } else {
        match (merge_all(s.drop_last()), s.last()) {
            (Some(a), Some(b)) => Some(merge(a, b)),
            _ => None,
        }
    }
}

/// The bounding volume of a list of children whose boxes are `boxes`.
pub fn list_bounding_box(boxes: &Vec<Option<AABB>>) -> (r: Option<AABB>)
    ensures
        r == merge_all(boxes@),
        r is Some <==> boxes@.len() > 0 && forall|i: int|
            0 <= i < boxes@.len() ==> (#[trigger] boxes@[i]) is Some,
{
    proof {
        lemma_merge_all_some(boxes@);
    }
    if boxes.len() == 0 {
        return None;
    }
    let mut acc: AABB = match boxes[0] {
        Some(b) => b,
        None => {
            return None;
        },
    };
    let mut i: usize = 1;
    assert(boxes@.take(1).drop_last() =~= boxes@.take(0));
    while i < boxes.len()
        invariant
            1 <= i <= boxes@.len(),
            merge_all(boxes@.take(i as int)) == Some(acc),
        decreases boxes@.len() - i,
    {
        let ghost pre = boxes@.take(i as int);
        assert(boxes@.take(i + 1).drop_last() =~= pre);
        match boxes[i] {
            Some(b) => {
                acc = AABB::surrounding_box(&acc, &b);
            },
            None => {
                proof {
                    lemma_merge_all_some(boxes@);
                    assert(boxes@[i as int] is None);
                }
                return None;
            },
        }
        i = i + 1;
    }
    assert(boxes@.take(i as int) =~= boxes@);
    Some(acc)
}

/// `merge_all` is present exactly when the list is non-empty and every child has a box.
pub proof fn lemma_merge_all_some(s: Seq<Option<AABB>>)
    ensures
        merge_all(s) is Some <==> s.len() > 0 && forall|i: int| 0 <= i < s.len() ==> (#[trigger] s[i]) is Some,
    decreases s.len(),
{
    if s.len() > 1 {
        lemma_merge_all_some(s.drop_last());
        if merge_all(s) is Some {
            assert forall|i: int| 0 <= i < s.len() implies (#[trigger] s[i]) is Some by {
                if i < s.len() - 1 {
                    assert(s.drop_last()[i] == s[i]);
                }
            }
        }
        if forall|i: int| 0 <= i < s.len() ==> (#[trigger] s[i]) is Some {
            assert forall|i: int| 0 <= i < s.drop_last().len() implies (#[trigger] s.drop_last()[i]) is Some by {
                assert(s.drop_last()[i] == s[i]);
            }
        }
    }
}

} // verus!
