//! Bounding-volume hierarchy over an arena of nodes.
//!
//! Primitives are numbered `0..n` and known here only by their boxes. Each
//! node refers to its children by index: a leaf names a primitive, an inner
//! child names an earlier node of the arena, so the tree is acyclic by
//! construction.
use vstd::prelude::*;
use crate::aabb::{AABB, contains, merge, lemma_merge_is_least};

verus! {

/// One side of a node: a primitive, or an earlier node of the arena.
#[derive(Clone, Copy, Debug, PartialEq, Eq, Structural)]
pub enum BvhChild {
    Leaf(usize),
    Node(usize),
}

/// An inner node: two children, the box around them, and the axis along
/// which the left child's primitives come first.
#[derive(Clone, Copy, Debug, PartialEq, Eq, Structural)]
pub struct BvhNode {
    pub left: BvhChild,
    pub right: BvhChild,
    pub bounding_box: AABB,
    pub axis: usize,
}

/// Why a hierarchy could not be built.
#[derive(Clone, Copy, Debug, PartialEq, Eq, Structural)]
pub enum BvhError {
    /// There was no primitive to build over.
    Empty,
    /// Some primitive reported no bounding box.
    MissingBoundingBox,
}

/// A hierarchy: the arena of nodes, its root, and the boxes of the primitives.
pub struct Bvh {
    pub nodes: Vec<BvhNode>,
    pub root: usize,
    pub leaf_boxes: Vec<AABB>,
}

/// The primitives below node `i`.
pub open spec fn leaves(nodes: Seq<BvhNode>, i: int) -> Set<usize>
    decreases i,
{
    if 0 <= i < nodes.len() {
        let l = match nodes[i].left {
            BvhChild::Leaf(p) => set![p],
            BvhChild::Node(j) => if j < i {
                leaves(nodes, j as int)
            } else {
                Set::empty()
            },
        };
        let r = match nodes[i].right {
            BvhChild::Leaf(p) => set![p],
            BvhChild::Node(j) => if j < i {
                leaves(nodes, j as int)
            } else {
                Set::empty()
            },
        };
        l.union(r)
    } else {
        Set::empty()
    }
}

/// The primitives below a child.
pub open spec fn child_leaves(nodes: Seq<BvhNode>, c: BvhChild) -> Set<usize> {
    match c {
        BvhChild::Leaf(p) => set![p],
        BvhChild::Node(j) => leaves(nodes, j as int),
    }
}

/// The box of a child.
pub open spec fn child_box(nodes: Seq<BvhNode>, boxes: Seq<AABB>, c: BvhChild) -> AABB {
    match c {
        BvhChild::Leaf(p) => boxes[p as int],
        BvhChild::Node(j) => nodes[j as int].bounding_box,
    }
}

/// A child of node `i` names an existing primitive or an earlier node.
pub open spec fn child_ok(c: BvhChild, i: int, n_prims: int) -> bool {
    match c {
        BvhChild::Leaf(p) => p < n_prims,
        BvhChild::Node(j) => j < i,
    }
}

/// The minimum coordinate of primitive `p`'s box along `axis`.
pub open spec fn axis_key(boxes: Seq<AABB>, p: usize, axis: int) -> u64 {
    boxes[p as int].minimum.at(axis)
}

/// Node `i` is well formed: valid children, its box is the merge of theirs,
/// and along its axis every primitive on the left starts no later than every
/// primitive on the right.
pub open spec fn node_ok(nodes: Seq<BvhNode>, boxes: Seq<AABB>, i: int) -> bool {
    let n = nodes[i];
    &&& child_ok(n.left, i, boxes.len() as int)
    &&& child_ok(n.right, i, boxes.len() as int)
    &&& n.axis < 3
    &&& n.bounding_box == merge(child_box(nodes, boxes, n.left), child_box(nodes, boxes, n.right))
    &&& forall|l: usize, r: usize|
        child_leaves(nodes, n.left).contains(l) && child_leaves(nodes, n.right).contains(r)
            ==> axis_key(boxes, l, n.axis as int) <= axis_key(boxes, r, n.axis as int)
}

/// Every node of the arena is well formed.
pub open spec fn all_ok(nodes: Seq<BvhNode>, boxes: Seq<AABB>) -> bool {
    forall|i: int| 0 <= i < nodes.len() ==> #[trigger] node_ok(nodes, boxes, i)
}

/// The primitive indices `0..n`.
pub open spec fn all_prims(n: nat) -> Set<usize> {
    Set::new(|p: usize| p < n)
}

impl Bvh {
    pub open spec fn wf(&self) -> bool {
        &&& all_ok(self.nodes@, self.leaf_boxes@)
        &&& self.root < self.nodes@.len()
        &&& leaves(self.nodes@, self.root as int) == all_prims(self.leaf_boxes@.len())
    }
}

/// Appending nodes leaves the primitives below existing nodes unchanged.
pub proof fn lemma_leaves_prefix(a: Seq<BvhNode>, b: Seq<BvhNode>, i: int)
    requires
        a.len() <= b.len(),
        forall|k: int| 0 <= k < a.len() ==> a[k] == b[k],
        0 <= i < a.len(),
    ensures
        leaves(a, i) == leaves(b, i),
    decreases i,
{
    if let BvhChild::Node(j) = a[i].left {
        if j < i {
            lemma_leaves_prefix(a, b, j as int);
        }
    }
    if let BvhChild::Node(j) = a[i].right {
        if j < i {
            lemma_leaves_prefix(a, b, j as int);
        }
    }
}

/// Appending nodes keeps every existing node well formed.
pub proof fn lemma_all_ok_prefix(a: Seq<BvhNode>, b: Seq<BvhNode>, boxes: Seq<AABB>)
    requires
        a.len() <= b.len(),
        forall|k: int| 0 <= k < a.len() ==> a[k] == b[k],
        all_ok(a, boxes),
    ensures
        forall|i: int| 0 <= i < a.len() ==> #[trigger] node_ok(b, boxes, i),
{
    assert forall|i: int| 0 <= i < a.len() implies #[trigger] node_ok(b, boxes, i) by {
        assert(node_ok(a, boxes, i));
        let n = a[i];
        if let BvhChild::Node(j) = n.left {
            lemma_leaves_prefix(a, b, j as int);
        }
        if let BvhChild::Node(j) = n.right {
            lemma_leaves_prefix(a, b, j as int);
        }
        assert(child_box(a, boxes, n.left) == child_box(b, boxes, n.left));
        assert(child_box(a, boxes, n.right) == child_box(b, boxes, n.right));
        assert(child_leaves(a, n.left) == child_leaves(b, n.left));
        assert(child_leaves(a, n.right) == child_leaves(b, n.right));
    }
}

/// In a well-formed arena, the box of every node contains the box of every
/// primitive below it: a ray that misses a node's box misses all of them.
pub proof fn lemma_node_box_contains_leaves(nodes: Seq<BvhNode>, boxes: Seq<AABB>, i: int, p: usize)
    requires
        all_ok(nodes, boxes),
        0 <= i < nodes.len(),
        leaves(nodes, i).contains(p),
    ensures
        contains(nodes[i].bounding_box, boxes[p as int]),
    decreases i,
{
    assert(node_ok(nodes, boxes, i));
    let n = nodes[i];
    let lb = child_box(nodes, boxes, n.left);
    let rb = child_box(nodes, boxes, n.right);
    lemma_merge_is_least(lb, rb);
    if child_leaves(nodes, n.left).contains(p) {
        match n.left {
            BvhChild::Leaf(_) => {},
            BvhChild::Node(j) => {
                lemma_node_box_contains_leaves(nodes, boxes, j as int, p);
            },
        }
        crate::aabb::lemma_contains_trans(n.bounding_box, lb, boxes[p as int]);
    } else {
        match n.right {
            BvhChild::Leaf(_) => {},
            BvhChild::Node(j) => {
                lemma_node_box_contains_leaves(nodes, boxes, j as int, p);
            },
        }
        crate::aabb::lemma_contains_trans(n.bounding_box, rb, boxes[p as int]);
    }
}

/// In a well-formed arena, the box of a node is the least box that contains
/// the boxes of all primitives below it: any box containing them all
/// contains the node's box.
pub proof fn lemma_node_box_is_least(nodes: Seq<BvhNode>, boxes: Seq<AABB>, i: int, c: AABB)
    requires
        all_ok(nodes, boxes),
        0 <= i < nodes.len(),
        forall|p: usize| leaves(nodes, i).contains(p) ==> contains(c, #[trigger] boxes[p as int]),
    ensures
        contains(c, nodes[i].bounding_box),
    decreases i,
{
    assert(node_ok(nodes, boxes, i));
    let n = nodes[i];
    match n.left {
        BvhChild::Leaf(q) => {
            assert(leaves(nodes, i).contains(q));
        },
        BvhChild::Node(j) => {
            lemma_node_box_is_least(nodes, boxes, j as int, c);
        },
    }
    match n.right {
        BvhChild::Leaf(q) => {
            assert(leaves(nodes, i).contains(q));
        },
        BvhChild::Node(j) => {
            lemma_node_box_is_least(nodes, boxes, j as int, c);
        },
    }
    lemma_merge_is_least(child_box(nodes, boxes, n.left), child_box(nodes, boxes, n.right));
}

/// Relies on rand's `Rng::gen_range` over `0..3` on the thread's generator:
/// a uniformly drawn axis, below 3.
#[verifier::external_body]
fn random_axis() -> (axis: usize)
    ensures
        axis < 3,
{
    rand::Rng::gen_range(&mut rand::thread_rng(), 0usize..3usize)
}

/// Relies on std's `slice::sort_by_key` (stable): the same elements, in
/// non-decreasing order of their first component.
#[verifier::external_body]
fn sort_by_first(v: &mut Vec<(u64, usize)>)
    ensures
        final(v)@.to_multiset() == old(v)@.to_multiset(),
        forall|i: int, j: int| 0 <= i < j < final(v)@.len() ==> final(v)@[i].0 <= final(v)@[j].0,
{
    v.sort_by_key(|e| e.0)
}

/// The primitive indices of `pairs[lo..hi]`.
pub open spec fn seconds(pairs: Seq<(u64, usize)>, lo: int, hi: int) -> Seq<usize> {
    pairs.subrange(lo, hi).map_values(|e: (u64, usize)| e.1)
}

fn collect_seconds(pairs: &Vec<(u64, usize)>, lo: usize, hi: usize) -> (r: Vec<usize>)
    requires
        lo <= hi <= pairs@.len(),
    ensures
        r@ == seconds(pairs@, lo as int, hi as int),
{
    let mut r: Vec<usize> = Vec::new();
    let mut k: usize = lo;
    while k < hi
        invariant
            lo <= k <= hi <= pairs@.len(),
            r@ == seconds(pairs@, lo as int, k as int),
        decreases hi - k,
    {
        r.push(pairs[k].1);
        k = k + 1;
        assert(r@ =~= seconds(pairs@, lo as int, k as int));
    }
    r
}

/// Builds the subtree over `prims` (a non-empty list of primitive indices),
/// appending its nodes to the arena, and returns the index of its root.
/// Two primitives are ordered along a random axis; more are sorted along it
/// and split at the middle; a single one becomes both children of its node.
fn build(nodes: &mut Vec<BvhNode>, boxes: &Vec<AABB>, prims: &Vec<usize>) -> (idx: usize)
    requires
        prims@.len() >= 1,
        forall|k: int| 0 <= k < prims@.len() ==> #[trigger] prims@[k] < boxes@.len(),
        all_ok(old(nodes)@, boxes@),
    ensures
        final(nodes)@.len() > old(nodes)@.len(),
        forall|k: int| 0 <= k < old(nodes)@.len() ==> final(nodes)@[k] == old(nodes)@[k],
        old(nodes)@.len() <= idx < final(nodes)@.len(),
        all_ok(final(nodes)@, boxes@),
        leaves(final(nodes)@, idx as int) == prims@.to_set(),
    decreases prims@.len(),
{
    let ghost start = nodes@;
    let axis = random_axis();
    let span = prims.len();
    let left: BvhChild;
    let right: BvhChild;
    if span == 1 {
        left = BvhChild::Leaf(prims[0]);
        right = BvhChild::Leaf(prims[0]);
        proof {
            assert(prims@.to_set() =~= set![prims@[0]]) by {
                assert(prims@ =~= seq![prims@[0]]);
                assert(seq![prims@[0]].to_set() =~= set![prims@[0]]) by {
                    assert(seq![prims@[0]].contains(prims@[0]));
                }
            }
        }
    } else if span == 2 {
        let a = prims[0];
        let b = prims[1];
        if boxes[a].minimum.coord(axis) < boxes[b].minimum.coord(axis) {
            left = BvhChild::Leaf(a);
            right = BvhChild::Leaf(b);
        } else {
            left = BvhChild::Leaf(b);
            right = BvhChild::Leaf(a);
        }
        proof {
            assert(prims@.to_set() =~= set![a, b]) by {
                assert(prims@ =~= seq![a, b]);
                assert(seq![a, b].contains(a));
                assert(seq![a, b][1] == b);
                assert(seq![a, b].contains(b));
            }
        }
    } else {
        let mut pairs: Vec<(u64, usize)> = Vec::new();
        let mut k: usize = 0;
        while k < span
            invariant
                k <= span == prims@.len(),
                forall|q: int| 0 <= q < prims@.len() ==> #[trigger] prims@[q] < boxes@.len(),
                axis < 3,
                pairs@.len() == k,
                forall|q: int| 0 <= q < k ==> (#[trigger] pairs@[q]).1 == prims@[q],
                forall|q: int| 0 <= q < k ==> (#[trigger] pairs@[q]).0 == axis_key(boxes@, pairs@[q].1, axis as int),
            decreases span - k,
        {
            let p = prims[k];
            pairs.push((boxes[p].minimum.coord(axis), p));
            k = k + 1;
        }
        let ghost unsorted = pairs@;
        sort_by_first(&mut pairs);
        proof {
            broadcast use vstd::seq_lib::group_to_multiset_ensures;
            assert(pairs@.len() == unsorted.len()) by {
                assert(pairs@.to_multiset().len() == unsorted.to_multiset().len());
            }
            assert forall|q: int| 0 <= q < pairs@.len() implies #[trigger] unsorted.contains(pairs@[q]) by {
                assert(pairs@.contains(pairs@[q]));
                assert(pairs@.to_multiset().count(pairs@[q]) > 0);
            }
            assert forall|q: int| 0 <= q < unsorted.len() implies #[trigger] pairs@.contains(unsorted[q]) by {
                assert(unsorted.contains(unsorted[q]));
                assert(unsorted.to_multiset().count(unsorted[q]) > 0);
            }
        }
        let mid = span / 2;
        let lp = collect_seconds(&pairs, 0, mid);
        let rp = collect_seconds(&pairs, mid, span);
        proof {
            assert forall|q: int| 0 <= q < lp@.len() implies #[trigger] lp@[q] < boxes@.len() by {
                let e = pairs@[q];
                assert(unsorted.contains(e));
            }
            assert forall|q: int| 0 <= q < rp@.len() implies #[trigger] rp@[q] < boxes@.len() by {
                let e = pairs@[mid + q];
                assert(unsorted.contains(e));
            }
        }
        let li = build(nodes, boxes, &lp);
        let ghost after_left = nodes@;
        let ri = build(nodes, boxes, &rp);
        proof {
            lemma_leaves_prefix(after_left, nodes@, li as int);
            // every primitive of the two halves is one of `prims`, and back
            assert forall|x: usize| lp@.to_set().union(rp@.to_set()).contains(x) <==> prims@.to_set().contains(x) by {
                if lp@.to_set().contains(x) {
                    let q = choose|q: int| 0 <= q < lp@.len() && lp@[q] == x;
                    let e = pairs@[q];
                    assert(unsorted.contains(e));
                    let qq = choose|qq: int| 0 <= qq < unsorted.len() && unsorted[qq] == e;
                    assert(prims@[qq] == x);
                    assert(prims@.contains(x));
                }
                if rp@.to_set().contains(x) {
                    let q = choose|q: int| 0 <= q < rp@.len() && rp@[q] == x;
                    let e = pairs@[mid + q];
                    assert(unsorted.contains(e));
                    let qq = choose|qq: int| 0 <= qq < unsorted.len() && unsorted[qq] == e;
                    assert(prims@[qq] == x);
                    assert(prims@.contains(x));
                }
                if prims@.to_set().contains(x) {
                    let qq = choose|qq: int| 0 <= qq < prims@.len() && prims@[qq] == x;
                    assert(pairs@.contains(unsorted[qq]));
                    let q = choose|q: int| 0 <= q < pairs@.len() && pairs@[q] == unsorted[qq];
                    if q < mid {
                        assert(lp@[q] == x);
                        assert(lp@.contains(x));
                    } else {
                        assert(rp@[q - mid] == x);
                        assert(rp@.contains(x));
                    }
                }
            }
            // the left half starts no later than the right half along the axis
            assert forall|l: usize, r: usize| lp@.to_set().contains(l) && rp@.to_set().contains(r)
                implies axis_key(boxes@, l, axis as int) <= axis_key(boxes@, r, axis as int) by {
                let ql = choose|q: int| 0 <= q < lp@.len() && lp@[q] == l;
                let qr = choose|q: int| 0 <= q < rp@.len() && rp@[q] == r;
                assert(unsorted.contains(pairs@[ql]));
                assert(unsorted.contains(pairs@[mid + qr]));
            }
        }
        left = BvhChild::Node(li);
        right = BvhChild::Node(ri);
    }
    let ghost before_push = nodes@;
    let lb = match left {
        BvhChild::Leaf(p) => boxes[p],
        BvhChild::Node(j) => nodes[j].bounding_box,
    };
    let rb = match right {
        BvhChild::Leaf(p) => boxes[p],
        BvhChild::Node(j) => nodes[j].bounding_box,
    };
    let node = BvhNode { left, right, bounding_box: AABB::surrounding_box(&lb, &rb), axis };
    nodes.push(node);
    let idx = nodes.len() - 1;
    proof {
        lemma_all_ok_prefix(before_push, nodes@, boxes@);
        if let BvhChild::Node(j) = left {
            lemma_leaves_prefix(before_push, nodes@, j as int);
        }
        if let BvhChild::Node(j) = right {
            lemma_leaves_prefix(before_push, nodes@, j as int);
        }
        assert(node_ok(nodes@, boxes@, idx as int));
        assert(leaves(nodes@, idx as int) =~= prims@.to_set());
    }
    idx
}


/// The boxes of a list of primitives that all have one.
pub open spec fn present_boxes(boxes: Seq<Option<AABB>>) -> Seq<AABB> {
    boxes.map_values(|b: Option<AABB>| b->0)
}

impl Bvh {
    /// Builds a hierarchy over primitives whose boxes are `boxes`, in order.
    /// Fails when there is no primitive, or when one of them has no box.
    pub fn new(boxes: &Vec<Option<AABB>>) -> (r: Result<Bvh, BvhError>)
        ensures
            boxes@.len() == 0 <==> r == Err::<Bvh, BvhError>(BvhError::Empty),
            (boxes@.len() > 0 && exists|i: int| 0 <= i < boxes@.len() && (#[trigger] boxes@[i]) is None)
                <==> r == Err::<Bvh, BvhError>(BvhError::MissingBoundingBox),
            (boxes@.len() > 0 && forall|i: int| 0 <= i < boxes@.len() ==> (#[trigger] boxes@[i]) is Some)
                <==> r is Ok,
            r matches Ok(t) ==> t.wf() && t.leaf_boxes@ == present_boxes(boxes@),
    {
        let n = boxes.len();
        if n == 0 {
            return Err(BvhError::Empty);
        }
        let mut present: Vec<AABB> = Vec::new();
        let mut prims: Vec<usize> = Vec::new();
        let mut i: usize = 0;
        while i < n
            invariant
                i <= n == boxes@.len(),
                present@.len() == i,
                prims@.len() == i,
                forall|k: int| 0 <= k < i ==> (#[trigger] boxes@[k]) is Some,
                forall|k: int| 0 <= k < i ==> #[trigger] present@[k] == boxes@[k]->0,
                forall|k: int| 0 <= k < i ==> #[trigger] prims@[k] == k,
            decreases n - i,
        {
            match boxes[i] {
                Some(b) => {
                    present.push(b);
                    prims.push(i);
                },
                None => {
                    return Err(BvhError::MissingBoundingBox);
                },
            }
            i = i + 1;
        }
        let mut nodes: Vec<BvhNode> = Vec::new();
        let root = build(&mut nodes, &present, &prims);
        proof {
            assert(present@ =~= present_boxes(boxes@));
            assert forall|p: usize| prims@.to_set().contains(p) <==> all_prims(n as nat).contains(p) by {
                if p < n {
                    assert(prims@[p as int] == p);
                    assert(prims@.contains(p));
                }
            }
            assert(prims@.to_set() =~= all_prims(n as nat));
        }
        Ok(Bvh { nodes, root, leaf_boxes: present })
    }
}

} // verus!
