//! Closest-hit queries over a list of primitives and over a hierarchy.
//!
//! Distances along the ray are ordered keys. A primitive test `hit(p, k)`
//! answers with the distance and record of a hit of primitive `p` no
//! farther than `k`, or `None`; a box test `box_hit(b, k)` says whether the
//! ray may meet box `b` no farther than `k`. The geometry behind both is the
//! caller's; what the queries guarantee is stated under three conditions on
//! those tests, each a property of exact ray geometry.
use vstd::prelude::*;
use crate::aabb::{AABB, contains};
use crate::bvh::{Bvh, BvhChild, leaves, child_leaves, all_ok, node_ok, all_prims, lemma_node_box_contains_leaves};

verus! {

/// The distance of a hit.
pub open spec fn hit_t<R>(r: Option<(u64, R)>) -> u64 {
    match r {
        Some(h) => h.0,
        None => 0,
    }
}

/// A test only reports hits within the bound it is given.
pub open spec fn hits_within<R, H: Fn(usize, u64) -> Option<(u64, R)>>(hit: H) -> bool {
    forall|p: usize, k: u64, r: Option<(u64, R)>|
        #[trigger] hit.ensures((p, k), r) && r is Some ==> hit_t(r) <= k
}

/// A test reports the nearest hit of a primitive within the bound: lowering
/// the bound to no less than that hit keeps it, and raising the bound never
/// loses a hit nor moves it farther.
pub open spec fn hits_nearest<R, H: Fn(usize, u64) -> Option<(u64, R)>>(hit: H) -> bool {
    forall|p: usize, k1: u64, k2: u64, r1: Option<(u64, R)>, r2: Option<(u64, R)>|
        k1 <= k2 && #[trigger] hit.ensures((p, k1), r1) && #[trigger] hit.ensures((p, k2), r2) ==> {
            &&& (r2 is Some && hit_t(r2) <= k1 ==> r1 is Some && hit_t(r1) == hit_t(r2))
            &&& (r1 is Some ==> r2 is Some && hit_t(r2) <= hit_t(r1))
        }
}

/// `r` is a closest hit among `prims` within `k`: it was reported for one of
/// them under a bound no larger than `k`, and no test of any of them, under
/// any bound, reports a hit within `k` that is nearer.
pub open spec fn is_closest<R, H: Fn(usize, u64) -> Option<(u64, R)>>(
    hit: H,
    prims: Set<usize>,
    k: u64,
    r: Option<(u64, R)>,
) -> bool {
    &&& r is Some ==> hit_t(r) <= k && exists|p: usize, k2: u64|
        prims.contains(p) && k2 <= k && #[trigger] hit.ensures((p, k2), r)
    &&& forall|p: usize, k2: u64, rp: Option<(u64, R)>|
        prims.contains(p) && #[trigger] hit.ensures((p, k2), rp) && rp is Some && hit_t(rp) <= k
            ==> r is Some && hit_t(r) <= hit_t(rp)
}

/// A box test never rules out a box around a primitive that has a hit
/// within the bound: the ray cannot reach something inside a box it misses.
pub open spec fn boxes_sound<R, B: Fn(AABB, u64) -> bool, H: Fn(usize, u64) -> Option<(u64, R)>>(
    box_hit: B,
    hit: H,
    boxes: Seq<AABB>,
) -> bool {
    forall|bx: AABB, k: u64, p: usize, k2: u64, rp: Option<(u64, R)>|
        #[trigger] box_hit.ensures((bx, k), false) && p < boxes.len() && contains(bx, boxes[p as int])
            && #[trigger] hit.ensures((p, k2), rp) && rp is Some ==> hit_t(rp) > k
}

/// One test of one primitive gives its closest hit.
proof fn lemma_single_closest<R, H: Fn(usize, u64) -> Option<(u64, R)>>(
    hit: H,
    p: usize,
    k: u64,
    r: Option<(u64, R)>,
)
    requires
        hits_within(hit),
        hits_nearest(hit),
        hit.ensures((p, k), r),
    ensures
        is_closest(hit, set![p], k, r),
{
    if r is Some {
        assert(set![p].contains(p));
    }
    assert forall|q: usize, k2: u64, rp: Option<(u64, R)>|
        set![p].contains(q) && #[trigger] hit.ensures((q, k2), rp) && rp is Some && hit_t(rp) <= k
        implies r is Some && hit_t(r) <= hit_t(rp) by {
        assert(q == p);
        if k2 <= k {
            assert(hit.ensures((q, k), r));
        } else {
            assert(hit.ensures((q, k), r));
        }
    }
}

/// The closest hit of a node: the left child's closest within `k`, then the
/// right child's closest within the distance of that hit.
proof fn lemma_combine_closest<R, H: Fn(usize, u64) -> Option<(u64, R)>>(
    hit: H,
    ls: Set<usize>,
    rs: Set<usize>,
    k: u64,
    l: Option<(u64, R)>,
    k2: u64,
    rr: Option<(u64, R)>,
    result: Option<(u64, R)>,
)
    requires
        is_closest(hit, ls, k, l),
        k2 == if l is Some { hit_t(l) } else { k },
        is_closest(hit, rs, k2, rr),
        result == if rr is Some { rr } else { l },
    ensures
        is_closest(hit, ls.union(rs), k, result),
{
    if result is Some {
        if rr is Some {
            let (p, k3) = choose|p: usize, k3: u64| rs.contains(p) && k3 <= k2 && #[trigger] hit.ensures((p, k3), rr);
            assert(ls.union(rs).contains(p));
        } else {
            let (p, k3) = choose|p: usize, k3: u64| ls.contains(p) && k3 <= k && #[trigger] hit.ensures((p, k3), l);
            assert(ls.union(rs).contains(p));
        }
    }
    assert forall|p: usize, k3: u64, rp: Option<(u64, R)>|
        ls.union(rs).contains(p) && #[trigger] hit.ensures((p, k3), rp) && rp is Some && hit_t(rp) <= k
        implies result is Some && hit_t(result) <= hit_t(rp) by {
        if ls.contains(p) {
            assert(l is Some && hit_t(l) <= hit_t(rp));
        } else if hit_t(rp) <= k2 {
            assert(rr is Some && hit_t(rr) <= hit_t(rp));
        }
    }
}

/// Two closest hits within the same bound agree on whether there is a hit
/// and on its distance: a hierarchy query and a linear scan over the same
/// primitives give the same nearest distance.
proof fn lemma_closest_hits_agree<R, H: Fn(usize, u64) -> Option<(u64, R)>>(
    hit: H,
    prims: Set<usize>,
    k: u64,
    a: Option<(u64, R)>,
    b: Option<(u64, R)>,
)
    requires
        is_closest(hit, prims, k, a),
        is_closest(hit, prims, k, b),
    ensures
        a is Some <==> b is Some,
        a is Some ==> hit_t(a) == hit_t(b),
{
    if a is Some {
        let (p, k2) = choose|p: usize, k2: u64| prims.contains(p) && k2 <= k && #[trigger] hit.ensures((p, k2), a);
        assert(b is Some && hit_t(b) <= hit_t(a));
    }
    if b is Some {
        let (p, k2) = choose|p: usize, k2: u64| prims.contains(p) && k2 <= k && #[trigger] hit.ensures((p, k2), b);
        assert(a is Some && hit_t(a) <= hit_t(b));
    }
}

/// The closest hit among primitives `0..n` within `t_max`, by a linear scan
/// that lowers the bound to each hit found.
pub fn hit_list<R, H: Fn(usize, u64) -> Option<(u64, R)>>(n: usize, t_max: u64, hit: &H) -> (r: Option<(u64, R)>)
    requires
        forall|p: usize, k: u64| p < n ==> #[trigger] hit.requires((p, k)),
    ensures
        hits_within(*hit) && hits_nearest(*hit) ==> is_closest(*hit, all_prims(n as nat), t_max, r),
{
    let mut best: Option<(u64, R)> = None;
    let mut closest: u64 = t_max;
    let mut i: usize = 0;
    while i < n
        invariant
            i <= n,
            forall|p: usize, k: u64| p < n ==> #[trigger] hit.requires((p, k)),
            hits_within(*hit) ==> closest <= t_max,
            best is Some ==> closest == hit_t(best),
            best is None ==> closest == t_max,
            hits_within(*hit) && hits_nearest(*hit) ==> is_closest(*hit, all_prims(i as nat), t_max, best),
        decreases n - i,
    {
        let r = hit(i, closest);
        let ghost old_best = best;
        let ghost old_closest = closest;
        match r {
            Some(h) => {
                closest = h.0;
                best = Some(h);
            },
            None => {},
        }
        proof {
            if hits_within(*hit) && hits_nearest(*hit) {
                lemma_single_closest(*hit, i, old_closest, r);
                lemma_combine_closest(*hit, all_prims(i as nat), set![i], t_max, old_best, old_closest, r, best);
                assert(all_prims(i as nat).union(set![i]) =~= all_prims((i + 1) as nat));
            }
        }
        i = i + 1;
    }
    best
}


/// The three conditions under which the queries return a closest hit.
pub open spec fn tests_exact<R, B: Fn(AABB, u64) -> bool, H: Fn(usize, u64) -> Option<(u64, R)>>(
    box_hit: B,
    hit: H,
    boxes: Seq<AABB>,
) -> bool {
    hits_within(hit) && hits_nearest(hit) && boxes_sound(box_hit, hit, boxes)
}

/// The closest hit below node `i` within `k`: nothing when the ray misses
/// the node's box; otherwise the left child is searched within `k`, and the
/// right child within the distance of the left child's hit, if any.
fn hit_node<R, B: Fn(AABB, u64) -> bool, H: Fn(usize, u64) -> Option<(u64, R)>>(
    t: &Bvh,
    i: usize,
    k: u64,
    box_hit: &B,
    hit: &H,
) -> (r: Option<(u64, R)>)
    requires
        all_ok(t.nodes@, t.leaf_boxes@),
        i < t.nodes@.len(),
        forall|bx: AABB, k: u64| #[trigger] box_hit.requires((bx, k)),
        forall|p: usize, k: u64| p < t.leaf_boxes@.len() ==> #[trigger] hit.requires((p, k)),
    ensures
        tests_exact(*box_hit, *hit, t.leaf_boxes@) ==> is_closest(*hit, leaves(t.nodes@, i as int), k, r),
    decreases i,
{
    let node = t.nodes[i];
    proof {
        assert(node_ok(t.nodes@, t.leaf_boxes@, i as int));
    }
    if !box_hit(node.bounding_box, k) {
        proof {
            if tests_exact(*box_hit, *hit, t.leaf_boxes@) {
                assert forall|p: usize, k2: u64, rp: Option<(u64, R)>|
                    leaves(t.nodes@, i as int).contains(p) && #[trigger] hit.ensures((p, k2), rp) && rp is Some
                        && hit_t(rp) <= k
                    implies false by {
                    lemma_leaves_in_range(t, i as int, p);
                    lemma_node_box_contains_leaves(t.nodes@, t.leaf_boxes@, i as int, p);
                }
            }
        }
        return None;
    }
    let l = match node.left {
        BvhChild::Leaf(p) => hit(p, k),
        BvhChild::Node(j) => hit_node(t, j, k, box_hit, hit),
    };
    let k2 = match &l {
        Some(h) => h.0,
        None => k,
    };
    let rr = match node.right {
        BvhChild::Leaf(p) => hit(p, k2),
        BvhChild::Node(j) => hit_node(t, j, k2, box_hit, hit),
    };
    proof {
        if tests_exact(*box_hit, *hit, t.leaf_boxes@) {
            if let BvhChild::Leaf(p) = node.left {
                lemma_single_closest(*hit, p, k, l);
            }
            if let BvhChild::Leaf(p) = node.right {
                lemma_single_closest(*hit, p, k2, rr);
            }
            let result = if rr is Some { rr } else { l };
            lemma_combine_closest(
                *hit,
                child_leaves(t.nodes@, node.left),
                child_leaves(t.nodes@, node.right),
                k,
                l,
                k2,
                rr,
                result,
            );
        }
    }
    match rr {
        Some(h) => Some(h),
        None => l,
    }
}

/// Every primitive below a node is one of the hierarchy's primitives.
proof fn lemma_leaves_in_range(t: &Bvh, i: int, p: usize)
    requires
        all_ok(t.nodes@, t.leaf_boxes@),
        0 <= i < t.nodes@.len(),
        leaves(t.nodes@, i).contains(p),
    ensures
        p < t.leaf_boxes@.len(),
    decreases i,
{
    assert(node_ok(t.nodes@, t.leaf_boxes@, i));
    let n = t.nodes@[i];
    if child_leaves(t.nodes@, n.left).contains(p) {
        if let BvhChild::Node(j) = n.left {
            lemma_leaves_in_range(t, j as int, p);
        }
    } else {
        if let BvhChild::Node(j) = n.right {
            lemma_leaves_in_range(t, j as int, p);
        }
    }
}

impl Bvh {
    /// The closest hit among all primitives within `t_max`, searching the
    /// hierarchy from its root.
    pub fn hit<R, B: Fn(AABB, u64) -> bool, H: Fn(usize, u64) -> Option<(u64, R)>>(
        &self,
        t_max: u64,
        box_hit: &B,
        hit: &H,
    ) -> (r: Option<(u64, R)>)
        requires
            self.wf(),
            forall|bx: AABB, k: u64| #[trigger] box_hit.requires((bx, k)),
            forall|p: usize, k: u64| p < self.leaf_boxes@.len() ==> #[trigger] hit.requires((p, k)),
        ensures
            tests_exact(*box_hit, *hit, self.leaf_boxes@) ==> is_closest(
                *hit,
                all_prims(self.leaf_boxes@.len()),
                t_max,
                r,
            ),
    {
        hit_node(self, self.root, t_max, box_hit, hit)
    }
}

/// Searching a hierarchy and scanning its primitives in order find a hit in
/// the same cases, at the same distance, whenever the tests are exact.
pub proof fn lemma_hierarchy_matches_scan<R, B: Fn(AABB, u64) -> bool, H: Fn(usize, u64) -> Option<(u64, R)>>(
    t: Bvh,
    box_hit: B,
    hit: H,
    t_max: u64,
    from_tree: Option<(u64, R)>,
    from_scan: Option<(u64, R)>,
)
    requires
        tests_exact(box_hit, hit, t.leaf_boxes@),
        is_closest(hit, all_prims(t.leaf_boxes@.len()), t_max, from_tree),
        is_closest(hit, all_prims(t.leaf_boxes@.len()), t_max, from_scan),
    ensures
        from_tree is Some <==> from_scan is Some,
        from_tree is Some ==> hit_t(from_tree) == hit_t(from_scan),
{
    lemma_closest_hits_agree(hit, all_prims(t.leaf_boxes@.len()), t_max, from_tree, from_scan);
}

} // verus!
