//! A unit allocator over an implicit complete binary tree.
//!
//! The tree covers the unit interval `[0, M)`, `M = 2^levels - 1` the
//! smallest such value at least `size + 1`; units beyond `size` are
//! pre-marked occupied so they are never handed out. Every node stands for
//! one unit (the midpoint of its interval) and carries three tags: its own
//! unit's occupancy, and whether its left and right subtrees are entirely
//! occupied. `allocate` descends from the root, preferring the left
//! subtree whenever it is not full, and stops at the first node whose own
//! unit is free; `dealloc` descends by interval comparison, clearing the
//! traversed "full" tags. Both run in time logarithmic in the size.

use vstd::prelude::*;
use vstd::arithmetic::power2::{
    lemma2_to64, lemma_pow2_pos, lemma_pow2_strictly_increases, lemma_pow2_unfold, pow2,
};

verus! {

// ---------------------------------------------------------------------------
// Geometry of the implicit tree: node `p`'s children are `2p + 1` and
// `2p + 2`, and node `p` covers the half-open unit interval
// `[tree_lo(m, p), tree_hi(m, p))` of which it owns the midpoint.
// ---------------------------------------------------------------------------

/// Lower end of the interval covered by node `p` in a tree over `[0, m)`.
pub open spec fn tree_lo(m: int, p: int) -> int
    decreases p,
    when p >= 0
{
    if p == 0 {
        0
    } else if p % 2 == 1 {
        tree_lo(m, (p - 1) / 2)
    } else {
        (tree_lo(m, (p - 1) / 2) + tree_hi(m, (p - 1) / 2)) / 2 + 1
    }
}

/// Upper end of the interval covered by node `p` in a tree over `[0, m)`.
pub open spec fn tree_hi(m: int, p: int) -> int
    decreases p,
    when p >= 0
{
    if p == 0 {
        m
    } else if p % 2 == 1 {
        (tree_lo(m, (p - 1) / 2) + tree_hi(m, (p - 1) / 2)) / 2
    } else {
        tree_hi(m, (p - 1) / 2)
    }
}

/// The unit owned by node `p`: the midpoint of its interval.
pub open spec fn tree_mid(m: int, p: int) -> int {
    (tree_lo(m, p) + tree_hi(m, p)) / 2
}

/// Whether node `a` is an ancestor of node `p` (a node is its own
/// ancestor).
pub open spec fn is_anc(a: int, p: int) -> bool
    decreases p,
    when p >= 0
{
    if p == a {
        true
    } else if p <= 0 {
        false
    } else {
        is_anc(a, (p - 1) / 2)
    }
}

/// Whether, in the occupancy sequence `t`, the whole subtree rooted at
/// `p` is occupied.
pub open spec fn subtree_full(t: Seq<bool>, p: int) -> bool {
    forall|q: int| 0 <= q < t.len() && #[trigger] is_anc(p, q) ==> t[q]
}

proof fn lemma_anc_le(a: int, p: int)
    requires
        0 <= a,
        0 <= p,
        is_anc(a, p),
    ensures
        a <= p,
    decreases p,
{
    if p != a {
        lemma_anc_le(a, (p - 1) / 2);
    }
}

proof fn lemma_anc_root(p: int)
    requires
        0 <= p,
    ensures
        is_anc(0, p),
    decreases p,
{
    if p > 0 {
        lemma_anc_root((p - 1) / 2);
    }
}

proof fn lemma_anc_trans(a: int, b: int, q: int)
    requires
        0 <= a,
        0 <= b,
        0 <= q,
        is_anc(a, b),
        is_anc(b, q),
    ensures
        is_anc(a, q),
    decreases q,
{
    if q != b {
        lemma_anc_trans(a, b, (q - 1) / 2);
    }
}

/// A strict ancestor's path to `p` starts with one of its two children.
proof fn lemma_anc_step(a: int, p: int)
    requires
        0 <= a,
        0 < p,
        a != p,
        is_anc(a, p),
    ensures
        is_anc(2 * a + 1, p) || is_anc(2 * a + 2, p),
    decreases p,
{
    let b = (p - 1) / 2;
    if b == a {
        assert(p == 2 * a + 1 || p == 2 * a + 2);
    } else {
        assert(is_anc(a, b));
        assert(b > 0 || a == 0) by {
            if b == 0 {
                assert(is_anc(a, 0));
            }
        }
        if b == 0 {
            assert(false);
        } else {
            lemma_anc_step(a, b);
        }
    }
}

/// Shape of the complete tree over `[0, pow2(k) - 1)`: every node's
/// interval is well formed, its size is determined by the node's depth
/// `d` (returned), and the node has children exactly when it is not on
/// the last level.
proof fn lemma_shape(k: nat, p: int) -> (d: nat)
    requires
        1 <= k,
        0 <= p < pow2(k) - 1,
    ensures
        pow2(d) - 1 <= p < pow2(d + 1) - 1,
        d + 1 <= k,
        tree_hi(pow2(k) - 1, p) - tree_lo(pow2(k) - 1, p) == pow2((k - d) as nat) - 1,
        0 <= tree_lo(pow2(k) - 1, p),
        tree_lo(pow2(k) - 1, p) <= tree_mid(pow2(k) - 1, p),
        tree_mid(pow2(k) - 1, p) < tree_hi(pow2(k) - 1, p),
        tree_hi(pow2(k) - 1, p) <= pow2(k) - 1,
        (2 * p + 1 < pow2(k) - 1) == (d + 2 <= k),
        (2 * p + 2 < pow2(k) - 1) == (d + 2 <= k),
        (tree_hi(pow2(k) - 1, p) - tree_lo(pow2(k) - 1, p) == 1) == (d + 1 == k),
    decreases p,
{
    let m = pow2(k) - 1;
    if p == 0 {
        lemma_pow2_pos(k);
        lemma_pow2_unfold(k);
        lemma_pow2_pos((k - 1) as nat);
        assert(pow2(0) == 1 && pow2(1) == 2) by {
            lemma2_to64();
        }
        if k >= 2 {
            lemma_pow2_strictly_increases(1, k);
        }
        0
    } else {
        let a = (p - 1) / 2;
        let da = lemma_shape(k, a);
        let d = (da + 1) as nat;
        assert(p == 2 * a + 1 || p == 2 * a + 2);
        // the parent of an existing node has children, so it is internal
        assert(2 * a + 1 < m);
        assert(da + 2 <= k);
        let sa = pow2((k - da) as nat) - 1;
        assert(sa == tree_hi(m, a) - tree_lo(m, a));
        lemma_pow2_unfold((k - da) as nat);
        let sc = pow2((k - d) as nat) - 1;
        assert(sa == 2 * sc + 1);
        // interval of the child, by the definitions of tree_lo / tree_hi
        let lo_a = tree_lo(m, a);
        let hi_a = tree_hi(m, a);
        let mid_a = tree_mid(m, a);
        assert(mid_a == lo_a + sc) by (nonlinear_arith)
            requires
                mid_a == (lo_a + hi_a) / 2,
                hi_a == lo_a + 2 * sc + 1,
                lo_a >= 0,
                sc >= 0,
        ;
        if p == 2 * a + 1 {
            assert(tree_lo(m, p) == lo_a && tree_hi(m, p) == mid_a);
        } else {
            assert(tree_lo(m, p) == mid_a + 1 && tree_hi(m, p) == hi_a);
        }
        assert(tree_hi(m, p) - tree_lo(m, p) == sc);
        lemma_pow2_pos((k - d) as nat);
        let lo_p = tree_lo(m, p);
        let hi_p = tree_hi(m, p);
        let mid_p = tree_mid(m, p);
        assert(lo_p <= mid_p && mid_p < hi_p) by (nonlinear_arith)
            requires
                mid_p == (lo_p + hi_p) / 2,
                hi_p == lo_p + sc,
                lo_p >= 0,
                sc >= 1,
        ;
        // index range of the child level
        lemma_pow2_unfold(d);
        lemma_pow2_unfold((d + 1) as nat);
        assert(pow2(d + 1) == 2 * pow2(d));
        // children of p exist exactly below the last level
        if d + 2 <= k {
            lemma_pow2_unfold((d + 2) as nat);
            assert(2 * p + 2 < pow2(d + 2) - 1);
            if d + 2 < k {
                lemma_pow2_strictly_increases((d + 2) as nat, k);
            }
            assert(pow2(d + 2) <= pow2(k));
            assert(2 * p + 2 < m);
        } else {
            assert(d + 1 == k);
            assert(2 * p + 1 >= pow2(k) - 1);
        }
        // a node is a leaf exactly on the last level
        if d + 1 == k {
            assert(pow2((k - d) as nat) == 2) by {
                lemma2_to64();
            }
        } else {
            assert(k - d >= 2);
            lemma_pow2_strictly_increases(1, (k - d) as nat);
            assert(pow2(1) == 2) by {
                lemma2_to64();
            }
        }
        d
    }
}

/// The interval of a strict descendant lies inside its ancestor's
/// interval and misses the ancestor's own unit.
proof fn lemma_anc_strict(k: nat, a: int, p: int)
    requires
        1 <= k,
        0 <= a,
        0 <= p < pow2(k) - 1,
        a != p,
        is_anc(a, p),
    ensures
        tree_lo(pow2(k) - 1, a) <= tree_lo(pow2(k) - 1, p),
        tree_hi(pow2(k) - 1, p) <= tree_hi(pow2(k) - 1, a),
        !(tree_lo(pow2(k) - 1, p) <= tree_mid(pow2(k) - 1, a) < tree_hi(pow2(k) - 1, p)),
    decreases p,
{
    let m = pow2(k) - 1;
    assert(p > 0) by {
        if p == 0 {
            assert(is_anc(a, 0));
        }
    }
    let b = (p - 1) / 2;
    assert(p == 2 * b + 1 || p == 2 * b + 2);
    let db = lemma_shape(k, b);
    let dp = lemma_shape(k, p);
    if b == a {
    } else {
        assert(is_anc(a, b));
        lemma_anc_strict(k, a, b);
    }
}

/// Nodes neither of which is an ancestor of the other cover disjoint
/// intervals.
proof fn lemma_sep(k: nat, r: int, p: int, q: int)
    requires
        1 <= k,
        0 <= r,
        0 <= p < pow2(k) - 1,
        0 <= q < pow2(k) - 1,
        is_anc(r, p),
        is_anc(r, q),
        !is_anc(p, q),
        !is_anc(q, p),
    ensures
        tree_hi(pow2(k) - 1, p) <= tree_lo(pow2(k) - 1, q) || tree_hi(pow2(k) - 1, q) <= tree_lo(
            pow2(k) - 1,
            p,
        ),
    decreases p + q - 2 * r,
{
    let m = pow2(k) - 1;
    assert(r != p && r != q);
    lemma_anc_le(r, p);
    lemma_anc_le(r, q);
    lemma_anc_step(r, p);
    lemma_anc_step(r, q);
    let dr = lemma_shape(k, r);
    let cp: int = if is_anc(2 * r + 1, p) {
        2 * r + 1
    } else {
        2 * r + 2
    };
    let cq: int = if is_anc(2 * r + 1, q) {
        2 * r + 1
    } else {
        2 * r + 2
    };
    lemma_anc_le(cp, p);
    lemma_anc_le(cq, q);
    if is_anc(2 * r + 1, p) && is_anc(2 * r + 1, q) {
        lemma_sep(k, 2 * r + 1, p, q);
    } else if is_anc(2 * r + 1, p) != is_anc(2 * r + 1, q) {
        // p and q descend into different halves of r's interval
        if cp != p {
            lemma_anc_strict(k, cp, p);
        }
        if cq != q {
            lemma_anc_strict(k, cq, q);
        }
        let dcp = lemma_shape(k, cp);
        let dcq = lemma_shape(k, cq);
    } else {
        if is_anc(2 * r + 2, p) && is_anc(2 * r + 2, q) {
            lemma_sep(k, 2 * r + 2, p, q);
        } else {
            // one of the two ancestor steps must have applied
            if cp != p {
                lemma_anc_strict(k, cp, p);
            }
            if cq != q {
                lemma_anc_strict(k, cq, q);
            }
            let dcp = lemma_shape(k, cp);
            let dcq = lemma_shape(k, cq);
        }
    }
}

/// Distinct nodes own distinct units.
proof fn lemma_mid_inj(k: nat, p: int, q: int)
    requires
        1 <= k,
        0 <= p < pow2(k) - 1,
        0 <= q < pow2(k) - 1,
        p != q,
    ensures
        tree_mid(pow2(k) - 1, p) != tree_mid(pow2(k) - 1, q),
{
    let m = pow2(k) - 1;
    let dp = lemma_shape(k, p);
    let dq = lemma_shape(k, q);
    if is_anc(p, q) {
        lemma_anc_strict(k, p, q);
    } else if is_anc(q, p) {
        lemma_anc_strict(k, q, p);
    } else {
        lemma_anc_root(p);
        lemma_anc_root(q);
        lemma_sep(k, 0, p, q);
    }
}

/// Every unit of `[0, m)` is owned by some node: descending from `p`
/// by interval comparison finds it.
proof fn lemma_locate(k: nat, p: int, u: int) -> (q: int)
    requires
        1 <= k,
        0 <= p < pow2(k) - 1,
        tree_lo(pow2(k) - 1, p) <= u < tree_hi(pow2(k) - 1, p),
    ensures
        0 <= q < pow2(k) - 1,
        is_anc(p, q),
        tree_mid(pow2(k) - 1, q) == u,
    decreases tree_hi(pow2(k) - 1, p) - tree_lo(pow2(k) - 1, p),
{
    let m = pow2(k) - 1;
    let d = lemma_shape(k, p);
    if u == tree_mid(m, p) {
        p
    } else {
        assert(tree_hi(m, p) - tree_lo(m, p) >= 2);
        assert(d + 2 <= k);
        let dl = lemma_shape(k, 2 * p + 1);
        let dr = lemma_shape(k, 2 * p + 2);
        let c: int = if u < tree_mid(m, p) {
            2 * p + 1
        } else {
            2 * p + 2
        };
        assert(tree_lo(m, c) <= u < tree_hi(m, c));
        let q = lemma_locate(k, c, u);
        assert((c - 1) / 2 == p);
        assert(is_anc(p, p));
        assert(is_anc(p, c));
        lemma_anc_trans(p, c, q);
        q
    }
}

/// `subtree_full` unfolded one level: the node itself and both child
/// subtrees.
proof fn lemma_subtree_full_unfold(t: Seq<bool>, p: int)
    requires
        0 <= p < t.len(),
    ensures
        subtree_full(t, p) == (t[p] && (2 * p + 1 < t.len() ==> subtree_full(t, 2 * p + 1)) && (2
            * p + 2 < t.len() ==> subtree_full(t, 2 * p + 2))),
{
    let m = t.len() as int;
    if t[p] && (2 * p + 1 < m ==> subtree_full(t, 2 * p + 1)) && (2 * p + 2 < m ==> subtree_full(
        t,
        2 * p + 2,
    )) {
        assert forall|q: int| 0 <= q < m && #[trigger] is_anc(p, q) implies t[q] by {
            if q != p {
                lemma_anc_step(p, q);
                if is_anc(2 * p + 1, q) {
                    lemma_anc_le(2 * p + 1, q);
                } else {
                    lemma_anc_le(2 * p + 2, q);
                }
            }
        }
    }
    if subtree_full(t, p) {
        assert(is_anc(p, p));
        if 2 * p + 1 < m {
            assert forall|q: int| 0 <= q < m && #[trigger] is_anc(2 * p + 1, q) implies t[q] by {
                lemma_anc_trans(p, 2 * p + 1, q);
            }
        }
        if 2 * p + 2 < m {
            assert forall|q: int| 0 <= q < m && #[trigger] is_anc(2 * p + 2, q) implies t[q] by {
                lemma_anc_trans(p, 2 * p + 2, q);
            }
        }
    }
}


// ---------------------------------------------------------------------------
// Further ancestor facts used when tags are rebuilt along a path.
// ---------------------------------------------------------------------------

/// The ancestors of a node form a chain: of two ancestors, one is an
/// ancestor of the other.
proof fn lemma_anc_chain(a: int, b: int, p: int)
    requires
        0 <= a,
        0 <= b,
        0 <= p,
        is_anc(a, p),
        is_anc(b, p),
    ensures
        is_anc(a, b) || is_anc(b, a),
    decreases p,
{
    if p == a || p == b {
    } else {
        lemma_anc_chain(a, b, (p - 1) / 2);
    }
}

/// `subtree_full` only reads occupancy inside the subtree: a change at a
/// node outside it leaves it unchanged.
proof fn lemma_subtree_full_frame(t1: Seq<bool>, t2: Seq<bool>, c: int, x: int)
    requires
        t1.len() == t2.len(),
        0 <= c,
        forall|q: int| 0 <= q < t1.len() && q != x ==> t1[q] == t2[q],
        !is_anc(c, x),
    ensures
        subtree_full(t1, c) == subtree_full(t2, c),
{
    if subtree_full(t1, c) {
        assert forall|q: int| 0 <= q < t2.len() && #[trigger] is_anc(c, q) implies t2[q] by {
            assert(q != x);
            assert(t1[q]);
        }
    }
    if subtree_full(t2, c) {
        assert forall|q: int| 0 <= q < t1.len() && #[trigger] is_anc(c, q) implies t1[q] by {
            assert(q != x);
            assert(t2[q]);
        }
    }
}

/// A full subtree has full subtrees below it.
proof fn lemma_subtree_full_mono(t: Seq<bool>, c: int, p: int)
    requires
        0 <= c,
        0 <= p,
        is_anc(c, p),
        subtree_full(t, c),
    ensures
        subtree_full(t, p),
{
    assert forall|q: int| 0 <= q < t.len() && #[trigger] is_anc(p, q) implies t[q] by {
        lemma_anc_trans(c, p, q);
    }
}

// ---------------------------------------------------------------------------
// The allocator.
// ---------------------------------------------------------------------------

#[derive(Clone, Copy, Debug)]
struct SegTreeNode {
    // own unit occupied; left subtree entirely occupied; right subtree
    // entirely occupied
    tags: [bool; 3],
}

/// Unit allocator over the implicit complete binary tree.
pub struct SegTreeAllocator {
    heap: Vec<SegTreeNode>,
    real_size: usize,
    levels: Ghost<nat>,
}

impl SegTreeAllocator {
    /// Number of tree nodes, which is also the number of covered units.
    pub closed spec fn node_count(self) -> int {
        self.heap@.len() as int
    }

    /// The largest unit index the allocator hands out.
    pub closed spec fn size_spec(self) -> int {
        self.real_size as int
    }

    /// Occupancy tag of node `p`.
    pub closed spec fn occupied_tag(self, p: int) -> bool {
        self.heap@[p].tags[0]
    }

    spec fn t0(self) -> Seq<bool> {
        Seq::new(self.heap@.len(), |i: int| self.heap@[i].tags[0])
    }

    /// The occupancy tags of all nodes, for contracts that speak about
    /// whole subtrees.
    pub closed spec fn occupancy(self) -> Seq<bool> {
        self.t0()
    }

    spec fn tag1(self, p: int) -> bool {
        self.heap@[p].tags[1]
    }

    spec fn tag2(self, p: int) -> bool {
        self.heap@[p].tags[2]
    }

    /// Unit `u` is free: the node owning it is not marked occupied.
    pub open spec fn unit_free(self, u: int) -> bool {
        exists|p: int|
            0 <= p < self.node_count() && #[trigger] tree_mid(self.node_count(), p) == u
                && !self.occupied_tag(p)
    }

    /// Internal consistency: the heap is a complete tree, units beyond
    /// `size` are pre-marked occupied, and every "subtree full" tag agrees
    /// with the occupancy of the subtree it summarizes.
    pub closed spec fn wf(self) -> bool {
        let m = self.node_count();
        &&& 1 <= self.levels@ <= 31
        &&& m == pow2(self.levels@) - 1
        &&& self.real_size + 1 <= m
        &&& forall|p: int|
            0 <= p < m && 2 * p + 1 < m ==> (#[trigger] self.tag1(p)) == subtree_full(
                self.t0(),
                2 * p + 1,
            )
        &&& forall|p: int|
            0 <= p < m && 2 * p + 1 < m ==> (#[trigger] self.tag2(p)) == subtree_full(
                self.t0(),
                2 * p + 2,
            )
        &&& forall|p: int| 0 <= p < m && 2 * p + 1 >= m ==> #[trigger] self.tag1(p)
        &&& forall|p: int| 0 <= p < m && 2 * p + 1 >= m ==> #[trigger] self.tag2(p)
        &&& forall|p: int|
            0 <= p < m && tree_mid(m, p) > self.real_size ==> #[trigger] self.occupied_tag(p)
    }
}


/// After the upward fixing walk stops, every summary tag in the tree
/// agrees with the occupancy `t`: tags off the walked path were never
/// wrong, and the lowered tags on the path above the stopping point are
/// truthful because the stopping point's subtree is not full.
proof fn lemma_walk_exit(s: SegTreeAllocator, t: Seq<bool>, pf: int, mi: int, ke: nat)
    requires
        mi == s.node_count(),
        t == s.t0(),
        t.len() == mi,
        1 <= ke,
        mi == pow2(ke) - 1,
        0 <= pf < mi,
        pf == 0 || !(s.occupied_tag(pf) && s.tag1(pf) && s.tag2(pf)),
        forall|q: int|
            0 <= q < mi && 2 * q + 1 < mi && is_anc(q, pf) && q != pf && is_anc(2 * q + 1, pf)
                ==> (#[trigger] s.tag1(q)) == false,
        forall|q: int|
            0 <= q < mi && 2 * q + 1 < mi && is_anc(q, pf) && q != pf && is_anc(2 * q + 2, pf)
                ==> (#[trigger] s.tag2(q)) == false,
        forall|q: int|
            0 <= q < mi && 2 * q + 1 < mi && !(is_anc(q, pf) && q != pf && is_anc(2 * q + 1, pf))
                ==> (#[trigger] s.tag1(q)) == subtree_full(t, 2 * q + 1),
        forall|q: int|
            0 <= q < mi && 2 * q + 1 < mi && !(is_anc(q, pf) && q != pf && is_anc(2 * q + 2, pf))
                ==> (#[trigger] s.tag2(q)) == subtree_full(t, 2 * q + 2),
        forall|q: int| 0 <= q < mi && 2 * q + 1 >= mi ==> #[trigger] s.tag1(q),
        forall|q: int| 0 <= q < mi && 2 * q + 1 >= mi ==> #[trigger] s.tag2(q),
    ensures
        forall|q: int|
            0 <= q < mi && 2 * q + 1 < mi ==> (#[trigger] s.tag1(q)) == subtree_full(t, 2 * q + 1),
        forall|q: int|
            0 <= q < mi && 2 * q + 1 < mi ==> (#[trigger] s.tag2(q)) == subtree_full(t, 2 * q + 2),
{
    if pf != 0 && !(s.occupied_tag(pf) && s.tag1(pf) && s.tag2(pf)) {
        // the stopping point's subtree is not full
        assert(t[pf] == s.occupied_tag(pf));
        assert(!subtree_full(t, pf)) by {
            let d = lemma_shape(ke, pf);
            lemma_subtree_full_unfold(t, pf);
            if 2 * pf + 1 >= mi {
                assert(s.tag1(pf) && s.tag2(pf));
                assert(!s.occupied_tag(pf));
                assert(!t[pf]);
                assert(is_anc(pf, pf));
            } else {
                assert(s.tag1(pf) == subtree_full(t, 2 * pf + 1));
                assert(s.tag2(pf) == subtree_full(t, 2 * pf + 2));
                assert(!(t[pf] && subtree_full(t, 2 * pf + 1) && subtree_full(t, 2 * pf + 2)));
            }
        }
        assert forall|q: int| 0 <= q < mi && 2 * q + 1 < mi implies (#[trigger] s.tag1(q))
            == subtree_full(t, 2 * q + 1) && s.tag2(q) == subtree_full(t, 2 * q + 2) by {
            let dq = lemma_shape(ke, q);
            if is_anc(q, pf) && q != pf {
                if is_anc(2 * q + 1, pf) {
                    assert(s.tag1(q) == false);
                    assert(!subtree_full(t, 2 * q + 1)) by {
                        if subtree_full(t, 2 * q + 1) {
                            lemma_subtree_full_mono(t, 2 * q + 1, pf);
                        }
                    }
                    assert(!is_anc(2 * q + 2, pf)) by {
                        if is_anc(2 * q + 2, pf) {
                            lemma_anc_chain(2 * q + 1, 2 * q + 2, pf);
                            if is_anc(2 * q + 1, 2 * q + 2) {
                                lemma_anc_le(2 * q + 1, q);
                            } else {
                                lemma_anc_le(2 * q + 2, q);
                            }
                        }
                    }
                    assert(s.tag2(q) == subtree_full(t, 2 * q + 2));
                } else {
                    assert(is_anc(2 * q + 2, pf)) by {
                        lemma_anc_step(q, pf);
                    }
                    assert(s.tag2(q) == false);
                    assert(!subtree_full(t, 2 * q + 2)) by {
                        if subtree_full(t, 2 * q + 2) {
                            lemma_subtree_full_mono(t, 2 * q + 2, pf);
                        }
                    }
                    assert(s.tag1(q) == subtree_full(t, 2 * q + 1));
                }
            } else {
                assert(s.tag1(q) == subtree_full(t, 2 * q + 1));
                assert(s.tag2(q) == subtree_full(t, 2 * q + 2));
            }
        }
    } else {
        // the walk reached the root: no node lies strictly above it, so
        // every tag is in the untouched, truthful class
        assert forall|q: int| 0 <= q < mi && 2 * q + 1 < mi implies (#[trigger] s.tag1(q))
            == subtree_full(t, 2 * q + 1) && s.tag2(q) == subtree_full(t, 2 * q + 2) by {
            if is_anc(q, pf) && q != pf {
                lemma_anc_le(q, pf);
                assert(false);
            }
            assert(s.tag1(q) == subtree_full(t, 2 * q + 1));
            assert(s.tag2(q) == subtree_full(t, 2 * q + 2));
        }
    }
    assert forall|q: int| 0 <= q < mi && 2 * q + 1 < mi implies (#[trigger] s.tag2(q))
        == subtree_full(t, 2 * q + 2) by {
        assert(s.tag1(q) == subtree_full(t, 2 * q + 1));
    }
}

/// The tree covers `count` unit nodes: the smallest full-tree size
/// `2^levels - 1` that is at least `size + 1`.
pub open spec fn seg_tree_size_ok(count: int, size: int) -> bool {
    exists|k: nat|
        1 <= k && count == #[trigger] pow2(k) as int - 1 && count >= size + 1 && (count == 1 || (
        count - 1) / 2 < size + 1)
}

/// Exact effect of [`SegTreeAllocator::allocate`]: `None` exactly when no
/// unit is free, otherwise one free unit is returned and becomes the only
/// change to the free set.
pub open spec fn seg_alloc_rel(pre: SegTreeAllocator, post: SegTreeAllocator, r: Option<usize>) -> bool {
    match r {
        Option::None => post == pre && (forall|u: int| !pre.unit_free(u)),
        Option::Some(u) => {
            &&& 0 <= u <= pre.size_spec()
            &&& pre.unit_free(u as int)
            &&& post.node_count() == pre.node_count()
            &&& post.size_spec() == pre.size_spec()
            &&& forall|v: int| post.unit_free(v) <==> (pre.unit_free(v) && v != u)
            &&& preorder_first(pre, u as int)
        },
    }
}

/// The unit is the one the pre-order descent finds: its node is free,
/// every strict ancestor's own unit is occupied, and wherever the path
/// steps into a right subtree, the left sibling subtree is entirely
/// occupied.
pub open spec fn preorder_first(pre: SegTreeAllocator, u: int) -> bool {
    exists|p: int|
        0 <= p < pre.node_count() && #[trigger] tree_mid(pre.node_count(), p) == u
            && !pre.occupied_tag(p) && (forall|a: int|
            0 <= a < pre.node_count() && #[trigger] is_anc(a, p) && a != p ==> pre.occupied_tag(a)
                && (is_anc(2 * a + 2, p) ==> subtree_full(pre.occupancy(), 2 * a + 1)))
}

/// Exact effect of [`SegTreeAllocator::dealloc`]: an index beyond the
/// configured size is silently ignored; otherwise the index joins the
/// free set and nothing else changes.
pub open spec fn seg_dealloc_rel(pre: SegTreeAllocator, post: SegTreeAllocator, index: int) -> bool {
    if index > pre.size_spec() {
        post == pre
    } else {
        &&& post.node_count() == pre.node_count()
        &&& post.size_spec() == pre.size_spec()
        &&& forall|v: int| post.unit_free(v) <==> (pre.unit_free(v) || v == index)
    }
}


impl SegTreeAllocator {
    /// Builds the allocator over the units `[0, size]`: the tree covers
    /// `[0, M)` for the smallest `M = 2^levels - 1 >= size + 1`, and the
    /// padding units beyond `size` start out occupied so they are never
    /// handed out.
    pub fn new(size: usize) -> (r: Self)
        requires
            size < 0x4000_0000,
        ensures
            r.wf(),
            r.size_spec() == size,
            seg_tree_size_ok(r.node_count(), size as int),
            forall|u: int| r.unit_free(u) <==> 0 <= u <= size,
    {
        // smallest complete-tree size covering size + 1 units
        let mut k: usize = 2;
        let mut m: usize = 1;
        let ghost mut ke: nat = 1;
        proof {
            lemma2_to64();
        }
        while m < size + 1
            invariant
                size < 0x4000_0000,
                k == pow2(ke),
                m + 1 == k,
                1 <= ke <= 31,
                k <= 0x8000_0000,
                m == 1 || (m - 1) / 2 < size + 1,
            decreases (if m <= size { size - m + 1 } else { 0int }),
        {
            proof {
                assert(pow2(31) == 0x80000000) by {
                    lemma2_to64();
                }
                if ke >= 31 {
                    if ke > 31 {
                        lemma_pow2_strictly_increases(31, ke);
                    }
                    assert(m + 1 == pow2(ke));
                    assert(false);
                }
                lemma_pow2_unfold((ke + 1) as nat);
            }
            k = k * 2;
            m = k - 1;
            proof {
                ke = ke + 1;
                if ke > 31 {
                    lemma_pow2_strictly_increases(31, ke);
                }
            }
        }
        // intervals of every node, parents before children
        let ghost mi = m as int;
        let mut iv: Vec<(usize, usize)> = Vec::new();
        let mut p: usize = 0;
        while p < m
            invariant
                iv@.len() == p,
                p <= m,
                1 <= ke <= 31,
                mi == m as int,
                m == pow2(ke) - 1,
                m < 0x8000_0000,
                forall|i: int|
                    0 <= i < p ==> (#[trigger] iv@[i]).0 == tree_lo(mi, i) && iv@[i].1 == tree_hi(
                        mi,
                        i,
                    ),
            decreases m - p,
        {
            if p == 0 {
                iv.push((0, m));
            } else {
                let par = (p - 1) / 2;
                proof {
                    let d = lemma_shape(ke, par as int);
                }
                let pl = iv[par].0;
                let ph = iv[par].1;
                let mid = (pl + ph) / 2;
                if p % 2 == 1 {
                    iv.push((pl, mid));
                } else {
                    iv.push((mid + 1, ph));
                }
            }
            p = p + 1;
        }
        // the nodes: own tag marks padding units, leaf subtree tags are
        // trivially full
        let mut heap: Vec<SegTreeNode> = Vec::new();
        let mut p: usize = 0;
        while p < m
            invariant
                heap@.len() == p,
                p <= m,
                1 <= ke <= 31,
                mi == m as int,
                m == pow2(ke) - 1,
                m < 0x8000_0000,
                iv@.len() == m,
                forall|i: int|
                    0 <= i < m ==> (#[trigger] iv@[i]).0 == tree_lo(mi, i) && iv@[i].1 == tree_hi(
                        mi,
                        i,
                    ),
                forall|i: int|
                    0 <= i < p ==> (#[trigger] heap@[i]).tags[0] == (tree_mid(mi, i) > size as int),
                forall|i: int|
                    0 <= i < p ==> (#[trigger] heap@[i]).tags[1] == (2 * i + 1 >= mi) && heap@[i].tags[2]
                        == (2 * i + 1 >= mi),
            decreases m - p,
        {
            let l = iv[p].0;
            let h = iv[p].1;
            proof {
                let d = lemma_shape(ke, p as int);
            }
            let mid = (l + h) / 2;
            let leaf = 2 * p + 1 >= m;
            heap.push(SegTreeNode { tags: [mid > size, leaf, leaf] });
            p = p + 1;
        }
        let ghost t = Seq::new(heap@.len(), |i: int| heap@[i].tags[0]);
        // summary tags of the internal nodes, bottom up
        let mut i: usize = m / 2;
        while i > 0
            invariant
                heap@.len() == m,
                i <= m / 2,
                1 <= ke <= 31,
                mi == m as int,
                m == pow2(ke) - 1,
                m < 0x8000_0000,
                t == Seq::new(heap@.len(), |q: int| heap@[q].tags[0]),
                forall|q: int|
                    0 <= q < m ==> (#[trigger] heap@[q]).tags[0] == (tree_mid(mi, q) > size as int),
                forall|q: int|
                    0 <= q < m && 2 * q + 1 >= mi ==> (#[trigger] heap@[q]).tags[1] && heap@[q].tags[2],
                forall|q: int|
                    i <= q < m && 2 * q + 1 < mi ==> (#[trigger] heap@[q]).tags[1] == subtree_full(
                        t,
                        2 * q + 1,
                    ) && heap@[q].tags[2] == subtree_full(t, 2 * q + 2),
            decreases i,
        {
            i = i - 1;
            proof {
                let d = lemma_shape(ke, i as int);
                assert(2 * i + 1 < mi) by {
                    if d + 2 > ke {
                        assert(pow2(d) - 1 <= i as int);
                        lemma_pow2_unfold(ke);
                        assert(false);
                    }
                }
            }
            let left = heap[2 * i + 1];
            let right = heap[2 * i + 2];
            let lf = left.tags[0] && left.tags[1] && left.tags[2];
            let rf = right.tags[0] && right.tags[1] && right.tags[2];
            proof {
                lemma_subtree_full_unfold(t, 2 * i as int + 1);
                lemma_subtree_full_unfold(t, 2 * i as int + 2);
            }
            proof {
                let li = 2 * i as int + 1;
                let ri = 2 * i as int + 2;
                assert(li < mi && ri < mi);
                let dl = lemma_shape(ke, li);
                let dr = lemma_shape(ke, ri);
                if 2 * li + 1 < mi {
                    assert(heap@[li].tags[1] == subtree_full(t, 2 * li + 1));
                    assert(heap@[li].tags[2] == subtree_full(t, 2 * li + 2));
                } else {
                    assert(heap@[li].tags[1] && heap@[li].tags[2]);
                }
                if 2 * ri + 1 < mi {
                    assert(heap@[ri].tags[1] == subtree_full(t, 2 * ri + 1));
                    assert(heap@[ri].tags[2] == subtree_full(t, 2 * ri + 2));
                } else {
                    assert(heap@[ri].tags[1] && heap@[ri].tags[2]);
                }
                assert(t[li] == heap@[li].tags[0]);
                assert(t[ri] == heap@[ri].tags[0]);

                assert(lf == subtree_full(t, li));
                assert(rf == subtree_full(t, ri));
            }
            let mut node = heap[i];
            node.tags[1] = lf;
            node.tags[2] = rf;
            heap[i] = node;
            proof {
                assert(t =~= Seq::new(heap@.len(), |q: int| heap@[q].tags[0]));
                assert(heap@[i as int].tags[1] == subtree_full(t, 2 * i as int + 1));
                assert(heap@[i as int].tags[2] == subtree_full(t, 2 * i as int + 2));
            }
        }
        let r = SegTreeAllocator { heap, real_size: size, levels: Ghost(ke) };
        proof {
            assert(r.t0() =~= t);
            assert(r.real_size + 1 <= mi);
            assert forall|u: int| r.unit_free(u) implies 0 <= u <= size by {
                let pw = choose|pw: int|
                    0 <= pw < r.node_count() && #[trigger] tree_mid(r.node_count(), pw) == u
                        && !r.occupied_tag(pw);
                let d = lemma_shape(ke, pw);
            }
            assert forall|u: int| 0 <= u <= size implies r.unit_free(u) by {
                let d0 = lemma_shape(ke, 0);
                let q = lemma_locate(ke, 0, u);
                assert(tree_mid(r.node_count(), q) == u && !r.occupied_tag(q));
            }
            assert(seg_tree_size_ok(r.node_count(), size as int)) by {
                assert(1 <= ke && r.node_count() == pow2(ke) as int - 1 && r.node_count() >= size
                    + 1 && (r.node_count() == 1 || (r.node_count() - 1) / 2 < size + 1));
            }
        }
        r
    }
}


impl SegTreeAllocator {
    /// Reclaims `index`: descends by interval comparison, clearing each
    /// traversed "subtree full" tag (something below it is now free), and
    /// finally clears the owning node's occupancy tag. An index beyond the
    /// configured size is silently ignored.
    #[verifier::rlimit(100)]
    pub fn dealloc(&mut self, index: usize)
        requires
            old(self).wf(),
        ensures
            final(self).wf(),
            seg_dealloc_rel(*old(self), *final(self), index as int),
    {
        if index > self.real_size {
            return ;
        }
        let ghost pre = *self;
        let ghost ke = self.levels@;
        let ghost t_old = pre.t0();
        let m = self.heap.len();
        let ghost mi = m as int;
        proof {
            if ke < 31 {
                lemma_pow2_strictly_increases(ke, 31);
            }
            assert(pow2(31) == 0x80000000) by {
                lemma2_to64();
            }
            assert(forall|q: int| 0 <= q < mi && 2 * q + 1 >= mi ==> #[trigger] pre.tag1(q));
            assert(forall|q: int| 0 <= q < mi && 2 * q + 1 >= mi ==> #[trigger] pre.tag2(q));
        }
        let mut p: usize = 0;
        let mut l: usize = 0;
        let mut h: usize = m;
        let mut st: usize = (l + h) / 2;
        proof {
            let d = lemma_shape(ke, 0);
        }
        while st != index
            invariant
                self.heap@.len() == m,
                mi == m as int,
                m <= 0x80000000,
                pre.wf(),
                self.levels@ == ke,
                self.real_size == pre.real_size,
                index <= self.real_size,
                mi == pow2(ke) - 1,
                1 <= ke <= 31,
                0 <= p < m,
                l == tree_lo(mi, p as int),
                h == tree_hi(mi, p as int),
                st == tree_mid(mi, p as int),
                l <= index < h,
                h <= m,
                self.t0() =~= t_old,
                forall|q: int|
                    0 <= q < mi && 2 * q + 1 < mi && is_anc(q, p as int) && q != p as int
                        && is_anc(2 * q + 1, p as int) ==> (#[trigger] self.tag1(q)) == false,
                forall|q: int|
                    0 <= q < mi && 2 * q + 1 < mi && is_anc(q, p as int) && q != p as int
                        && is_anc(2 * q + 2, p as int) ==> (#[trigger] self.tag2(q)) == false,
                forall|q: int|
                    0 <= q < mi && 2 * q + 1 < mi && !(is_anc(q, p as int) && q != p as int
                        && is_anc(2 * q + 1, p as int)) ==> (#[trigger] self.tag1(q))
                        == subtree_full(t_old, 2 * q + 1),
                forall|q: int|
                    0 <= q < mi && 2 * q + 1 < mi && !(is_anc(q, p as int) && q != p as int
                        && is_anc(2 * q + 2, p as int)) ==> (#[trigger] self.tag2(q))
                        == subtree_full(t_old, 2 * q + 2),
                forall|q: int| 0 <= q < mi && 2 * q + 1 >= mi ==> #[trigger] self.tag1(q),
                forall|q: int| 0 <= q < mi && 2 * q + 1 >= mi ==> #[trigger] self.tag2(q),
            decreases h - l,
        {
            let ghost pold = p as int;
            let ghost sold = *self;
            proof {
                let d = lemma_shape(ke, pold);
                // the interval still splits, so the node has children
                assert(h - l >= 2);
                assert(2 * pold + 1 < mi);
            }
            let mut node = self.heap[p];
            if index < st {
                node.tags[1] = false;
                self.heap[p] = node;
                p = 2 * p + 1;
                h = st;
            } else {
                node.tags[2] = false;
                self.heap[p] = node;
                p = 2 * p + 2;
                l = st + 1;
            }
            proof {
                assert(l <= m && h <= m);
            }
            st = (l + h) / 2;
            proof {
                let pnew = p as int;
                assert forall|q: int| 0 <= q < mi && 2 * q + 1 >= mi implies #[trigger] self.tag1(
                    q,
                ) by {
                    assert(q != pold);
                    assert(self.tag1(q) == sold.tag1(q));
                }
                assert forall|q: int| 0 <= q < mi && 2 * q + 1 >= mi implies #[trigger] self.tag2(
                    q,
                ) by {
                    assert(q != pold);
                    assert(self.tag2(q) == sold.tag2(q));
                }
                assert(is_anc(pold, pnew) && is_anc(pnew, pnew)) by {
                    assert((pnew - 1) / 2 == pold);
                    assert(is_anc(pold, pold));
                }
                assert(self.t0() =~= t_old);
                // ancestors of the new position are the old position and
                // its own ancestors
                assert forall|q: int| 0 <= q && is_anc(q, pnew) && q != pnew implies is_anc(
                    q,
                    pold,
                ) by {
                    assert((pnew - 1) / 2 == pold);
                }
                // the branch not taken leads away from the new position
                let away: int = if pnew == 2 * pold + 1 {
                    2 * pold + 2
                } else {
                    2 * pold + 1
                };
                assert(!is_anc(away, pnew)) by {
                    if is_anc(away, pnew) {
                        assert(away != pnew);
                        assert(is_anc(away, pold));
                        lemma_anc_le(away, pold);
                    }
                }
                assert forall|q: int|
                    0 <= q < mi && 2 * q + 1 < mi && is_anc(q, pnew) && q != pnew && is_anc(
                        2 * q + 1,
                        pnew,
                    ) implies (#[trigger] self.tag1(q)) == false by {
                    if q == pold {
                        assert(2 * q + 1 == pnew || 2 * q + 1 == away);
                        assert(is_anc(pnew, pnew));
                    } else {
                        assert(is_anc(q, pold));
                        if 2 * q + 1 != pnew {
                            assert(is_anc(2 * q + 1, pold));
                            assert(sold.tag1(q) == false);
                        } else {
                            assert((pnew - 1) / 2 == q && (pnew - 1) / 2 == pold);
                        }
                    }
                }
                assert forall|q: int|
                    0 <= q < mi && 2 * q + 1 < mi && is_anc(q, pnew) && q != pnew && is_anc(
                        2 * q + 2,
                        pnew,
                    ) implies (#[trigger] self.tag2(q)) == false by {
                    if q == pold {
                        assert(2 * q + 2 == pnew || 2 * q + 2 == away);
                        assert(is_anc(pnew, pnew));
                    } else {
                        assert(is_anc(q, pold));
                        if 2 * q + 2 != pnew {
                            assert(is_anc(2 * q + 2, pold));
                            assert(sold.tag2(q) == false);
                        } else {
                            assert((pnew - 1) / 2 == q && (pnew - 1) / 2 == pold);
                        }
                    }
                }
                assert forall|q: int|
                    0 <= q < mi && 2 * q + 1 < mi && !(is_anc(q, pnew) && q != pnew && is_anc(
                        2 * q + 1,
                        pnew,
                    )) implies (#[trigger] self.tag1(q)) == subtree_full(t_old, 2 * q + 1) by {
                    if q == pold {
                        // the cleared side tag now points at the new
                        // position, so this side is the one kept intact
                        if pnew == 2 * pold + 1 {
                            assert(is_anc(2 * q + 1, pnew));
                            assert(false);
                        } else {
                            assert(self.tag1(q) == sold.tag1(q));
                            assert(!(is_anc(q, pold) && q != pold && is_anc(2 * q + 1, pold)))
                                by {
                                lemma_anc_le(q, pold);
                            }
                        }
                    } else {
                        assert(self.tag1(q) == sold.tag1(q));
                        if is_anc(q, pold) && q != pold && is_anc(2 * q + 1, pold) {
                            // then the same side also reaches pnew
                            assert(is_anc(q, pnew)) by {
                                assert((pnew - 1) / 2 == pold);
                                lemma_anc_trans(q, pold, pnew);
                            }
                            assert(is_anc(2 * q + 1, pnew)) by {
                                lemma_anc_trans(2 * q + 1, pold, pnew);
                            }
                            assert(q != pnew) by {
                                lemma_anc_le(q, pold);
                            }
                            assert(false);
                        }
                    }
                }
                assert forall|q: int|
                    0 <= q < mi && 2 * q + 1 < mi && !(is_anc(q, pnew) && q != pnew && is_anc(
                        2 * q + 2,
                        pnew,
                    )) implies (#[trigger] self.tag2(q)) == subtree_full(t_old, 2 * q + 2) by {
                    if q == pold {
                        if pnew == 2 * pold + 2 {
                            assert(is_anc(2 * q + 2, pnew));
                            assert(false);
                        } else {
                            assert(self.tag2(q) == sold.tag2(q));
                            assert(!(is_anc(q, pold) && q != pold && is_anc(2 * q + 2, pold)))
                                by {
                                lemma_anc_le(q, pold);
                            }
                        }
                    } else {
                        assert(self.tag2(q) == sold.tag2(q));
                        if is_anc(q, pold) && q != pold && is_anc(2 * q + 2, pold) {
                            assert(is_anc(q, pnew)) by {
                                assert((pnew - 1) / 2 == pold);
                                lemma_anc_trans(q, pold, pnew);
                            }
                            assert(is_anc(2 * q + 2, pnew)) by {
                                lemma_anc_trans(2 * q + 2, pold, pnew);
                            }
                            assert(q != pnew) by {
                                lemma_anc_le(q, pold);
                            }
                            assert(false);
                        }
                    }
                }
            }
        }
        // clear the occupancy of the node owning `index`
        let ghost fexit = *self;
        let pi_exec = p;
        let mut node = self.heap[p];
        node.tags[0] = false;
        self.heap[p] = node;
        proof {
            let pi = pi_exec as int;
            let t_new = self.t0();
            assert(t_new =~= t_old.update(pi, false));
            let d = lemma_shape(ke, pi);
            assert(tree_mid(mi, pi) == index);
            // the tag layers were untouched by the final write
            assert(forall|q: int| 0 <= q < mi ==> (#[trigger] self.tag1(q)) == fexit.tag1(q));
            assert(forall|q: int| 0 <= q < mi ==> (#[trigger] self.tag2(q)) == fexit.tag2(q));
            // all cleared tags are now truthful, every other tag kept its
            // meaning
            assert forall|q: int| 0 <= q < mi && 2 * q + 1 < mi implies (#[trigger] self.tag1(q))
                == subtree_full(t_new, 2 * q + 1) && self.tag2(q) == subtree_full(
                t_new,
                2 * q + 2,
            ) by {
                assert(is_anc(q, 2 * q + 1)) by {
                    assert((2 * q + 1 - 1) / 2 == q);
                    assert(is_anc(q, q));
                }
                assert(is_anc(q, 2 * q + 2)) by {
                    assert((2 * q + 2 - 1) / 2 == q);
                    assert(is_anc(q, q));
                }
                if is_anc(q, pi) && q != pi {
                    // q lies on the cleared path; exactly one child leads on
                    assert(is_anc(2 * q + 1, pi) || is_anc(2 * q + 2, pi)) by {
                        lemma_anc_step(q, pi);
                    }
                    assert(!(is_anc(2 * q + 1, pi) && is_anc(2 * q + 2, pi))) by {
                        if is_anc(2 * q + 1, pi) && is_anc(2 * q + 2, pi) {
                            lemma_anc_chain(2 * q + 1, 2 * q + 2, pi);
                            if is_anc(2 * q + 1, 2 * q + 2) {
                                lemma_anc_le(2 * q + 1, q);
                            } else {
                                lemma_anc_le(2 * q + 2, q);
                            }
                        }
                    }
                    if is_anc(2 * q + 1, pi) {
                        assert(fexit.tag1(q) == false);
                        assert(!subtree_full(t_new, 2 * q + 1));
                        assert(fexit.tag2(q) == subtree_full(t_old, 2 * q + 2));
                        lemma_subtree_full_frame(t_old, t_new, 2 * q + 2, pi);
                    } else {
                        assert(fexit.tag2(q) == false);
                        assert(!subtree_full(t_new, 2 * q + 2));
                        assert(fexit.tag1(q) == subtree_full(t_old, 2 * q + 1));
                        lemma_subtree_full_frame(t_old, t_new, 2 * q + 1, pi);
                    }
                } else {
                    // q is off the path: neither child subtree holds the
                    // cleared node
                    assert(!is_anc(2 * q + 1, pi)) by {
                        if is_anc(2 * q + 1, pi) {
                            lemma_anc_trans(q, 2 * q + 1, pi);
                            lemma_anc_le(2 * q + 1, pi);
                        }
                    }
                    assert(!is_anc(2 * q + 2, pi)) by {
                        if is_anc(2 * q + 2, pi) {
                            lemma_anc_trans(q, 2 * q + 2, pi);
                            lemma_anc_le(2 * q + 2, pi);
                        }
                    }
                    lemma_subtree_full_frame(t_old, t_new, 2 * q + 1, pi);
                    lemma_subtree_full_frame(t_old, t_new, 2 * q + 2, pi);
                }
            }
            // the padding beyond `size` stays occupied
            assert forall|q: int|
                0 <= q < mi && tree_mid(mi, q) > self.real_size implies (
            #[trigger] self.occupied_tag(q)) by {
                assert(q != pi);
                assert(self.occupied_tag(q) == t_new[q]);
                assert(t_new[q] == t_old[q]);
                assert(pre.occupied_tag(q) == t_old[q]);
            }
            assert(1 <= self.levels@ <= 31);
            assert(self.node_count() == pow2(self.levels@) - 1);
            assert(self.real_size + 1 <= self.node_count());
            assert(forall|q: int|
                0 <= q < mi && 2 * q + 1 < mi ==> (#[trigger] self.tag1(q)) == subtree_full(
                    self.t0(),
                    2 * q + 1,
                ));
            assert forall|q: int|
                0 <= q < mi && 2 * q + 1 < mi implies (#[trigger] self.tag2(q)) == subtree_full(
                self.t0(),
                2 * q + 2,
            ) by {
                assert(self.tag1(q) == subtree_full(t_new, 2 * q + 1));
            }
            assert(forall|q: int| 0 <= q < mi && 2 * q + 1 >= mi ==> #[trigger] self.tag1(q));
            assert(forall|q: int| 0 <= q < mi && 2 * q + 1 >= mi ==> #[trigger] self.tag2(q));
            assert(self.wf());
            // the free set gained exactly `index`
            assert forall|v: int| self.unit_free(v) implies (pre.unit_free(v) || v == index) by {
                let pw = choose|pw: int|
                    0 <= pw < self.node_count() && #[trigger] tree_mid(self.node_count(), pw) == v
                        && !self.occupied_tag(pw);
                if pw != pi {
                    assert(self.occupied_tag(pw) == t_new[pw]);
                    assert(t_new[pw] == t_old[pw]);
                    assert(pre.occupied_tag(pw) == t_old[pw]);
                    assert(tree_mid(pre.node_count(), pw) == v && !pre.occupied_tag(pw));
                }
            }
            assert forall|v: int| (pre.unit_free(v) || v == index) implies self.unit_free(v) by {
                if v == index {
                    assert(tree_mid(self.node_count(), pi) == v && !self.occupied_tag(pi));
                } else {
                    let pw = choose|pw: int|
                        0 <= pw < pre.node_count() && #[trigger] tree_mid(pre.node_count(), pw)
                            == v && !pre.occupied_tag(pw);
                    assert(pw != pi) by {
                        if pw == pi {
                            assert(tree_mid(mi, pi) == index);
                        }
                    }
                    assert(self.occupied_tag(pw) == t_new[pw]);
                    assert(t_new[pw] == t_old[pw]);
                    assert(pre.occupied_tag(pw) == t_old[pw]);
                    assert(tree_mid(self.node_count(), pw) == v && !self.occupied_tag(pw));
                }
            }
        }
    }
}


/// The tag classification that holds right after the owning node of a
/// fresh allocation is marked: tags on the path above the marked node are
/// still lowered, every other tag already summarizes the new occupancy.
proof fn lemma_mark_classify(
    pre: SegTreeAllocator,
    s: SegTreeAllocator,
    t_old: Seq<bool>,
    t_new: Seq<bool>,
    pmark: int,
    mi: int,
)
    requires
        pre.wf(),
        mi == pre.node_count(),
        mi == s.node_count(),
        t_old == pre.t0(),
        t_new == s.t0(),
        t_new == t_old.update(pmark, true),
        0 <= pmark < mi,
        !pre.occupied_tag(pmark),
        forall|q: int|
            0 <= q < mi ==> (#[trigger] s.tag1(q)) == pre.tag1(q) && s.tag2(q) == pre.tag2(q),
    ensures
        forall|q: int|
            0 <= q < mi && 2 * q + 1 < mi && is_anc(q, pmark) && q != pmark && is_anc(
                2 * q + 1,
                pmark,
            ) ==> (#[trigger] s.tag1(q)) == false,
        forall|q: int|
            0 <= q < mi && 2 * q + 1 < mi && is_anc(q, pmark) && q != pmark && is_anc(
                2 * q + 2,
                pmark,
            ) ==> (#[trigger] s.tag2(q)) == false,
        forall|q: int|
            0 <= q < mi && 2 * q + 1 < mi && !(is_anc(q, pmark) && q != pmark && is_anc(
                2 * q + 1,
                pmark,
            )) ==> (#[trigger] s.tag1(q)) == subtree_full(t_new, 2 * q + 1),
        forall|q: int|
            0 <= q < mi && 2 * q + 1 < mi && !(is_anc(q, pmark) && q != pmark && is_anc(
                2 * q + 2,
                pmark,
            )) ==> (#[trigger] s.tag2(q)) == subtree_full(t_new, 2 * q + 2),
        forall|q: int| 0 <= q < mi && 2 * q + 1 >= mi ==> #[trigger] s.tag1(q),
        forall|q: int| 0 <= q < mi && 2 * q + 1 >= mi ==> #[trigger] s.tag2(q),
{
    assert forall|q: int|
        0 <= q < mi && 2 * q + 1 < mi && is_anc(q, pmark) && q != pmark && is_anc(
            2 * q + 1,
            pmark,
        ) implies (#[trigger] s.tag1(q)) == false by {
        assert(pre.tag1(q) == subtree_full(t_old, 2 * q + 1));
        assert(!subtree_full(t_old, 2 * q + 1));
    }
    assert forall|q: int|
        0 <= q < mi && 2 * q + 1 < mi && is_anc(q, pmark) && q != pmark && is_anc(
            2 * q + 2,
            pmark,
        ) implies (#[trigger] s.tag2(q)) == false by {
        assert(s.tag1(q) == pre.tag1(q));
        assert(pre.tag2(q) == subtree_full(t_old, 2 * q + 2));
        assert(!subtree_full(t_old, 2 * q + 2));
    }
    assert forall|q: int|
        0 <= q < mi && 2 * q + 1 < mi && !(is_anc(q, pmark) && q != pmark && is_anc(
            2 * q + 1,
            pmark,
        )) implies (#[trigger] s.tag1(q)) == subtree_full(t_new, 2 * q + 1) by {
        assert(pre.tag1(q) == subtree_full(t_old, 2 * q + 1));
        assert(!is_anc(2 * q + 1, pmark)) by {
            if is_anc(2 * q + 1, pmark) {
                assert(is_anc(q, 2 * q + 1)) by {
                    assert((2 * q + 1 - 1) / 2 == q);
                    assert(is_anc(q, q));
                }
                lemma_anc_trans(q, 2 * q + 1, pmark);
                lemma_anc_le(2 * q + 1, pmark);
            }
        }
        lemma_subtree_full_frame(t_old, t_new, 2 * q + 1, pmark);
    }
    assert forall|q: int|
        0 <= q < mi && 2 * q + 1 < mi && !(is_anc(q, pmark) && q != pmark && is_anc(
            2 * q + 2,
            pmark,
        )) implies (#[trigger] s.tag2(q)) == subtree_full(t_new, 2 * q + 2) by {
        assert(s.tag1(q) == pre.tag1(q));
        assert(pre.tag2(q) == subtree_full(t_old, 2 * q + 2));
        assert(!is_anc(2 * q + 2, pmark)) by {
            if is_anc(2 * q + 2, pmark) {
                assert(is_anc(q, 2 * q + 2)) by {
                    assert((2 * q + 2 - 1) / 2 == q);
                    assert(is_anc(q, q));
                }
                lemma_anc_trans(q, 2 * q + 2, pmark);
                lemma_anc_le(2 * q + 2, pmark);
            }
        }
        lemma_subtree_full_frame(t_old, t_new, 2 * q + 2, pmark);
    }
    assert forall|q: int| 0 <= q < mi && 2 * q + 1 >= mi implies #[trigger] s.tag1(q) by {
        assert(s.tag1(q) == pre.tag1(q));
        assert(pre.tag1(q));
    }
    assert forall|q: int| 0 <= q < mi && 2 * q + 1 >= mi implies #[trigger] s.tag2(q) by {
        assert(s.tag1(q) == pre.tag1(q));
        assert(pre.tag2(q));
    }
}

/// Well-formedness and the exact free-set change of a completed
/// allocation: the marked unit left the free set and nothing else moved.
proof fn lemma_alloc_post(
    pre: SegTreeAllocator,
    s: SegTreeAllocator,
    t_old: Seq<bool>,
    t_new: Seq<bool>,
    pmark: int,
    mi: int,
    ke: nat,
    u: int,
)
    requires
        pre.wf(),
        mi == pre.node_count(),
        mi == s.node_count(),
        s.levels@ == ke,
        pre.levels@ == ke,
        s.real_size == pre.real_size,
        1 <= ke <= 31,
        mi == pow2(ke) - 1,
        t_old == pre.t0(),
        t_new == s.t0(),
        t_new == t_old.update(pmark, true),
        0 <= pmark < mi,
        !pre.occupied_tag(pmark),
        u == tree_mid(mi, pmark),
        forall|q: int|
            0 <= q < mi && 2 * q + 1 < mi ==> (#[trigger] s.tag1(q)) == subtree_full(
                t_new,
                2 * q + 1,
            ),
        forall|q: int|
            0 <= q < mi && 2 * q + 1 < mi ==> (#[trigger] s.tag2(q)) == subtree_full(
                t_new,
                2 * q + 2,
            ),
        forall|q: int| 0 <= q < mi && 2 * q + 1 >= mi ==> #[trigger] s.tag1(q),
        forall|q: int| 0 <= q < mi && 2 * q + 1 >= mi ==> #[trigger] s.tag2(q),
    ensures
        s.wf(),
        0 <= u <= pre.size_spec(),
        pre.unit_free(u),
        forall|v: int| s.unit_free(v) <==> (pre.unit_free(v) && v != u),
{
    let d = lemma_shape(ke, pmark);
    assert(u <= pre.size_spec()) by {
        if tree_mid(mi, pmark) > pre.size_spec() {
            assert(pre.occupied_tag(pmark));
        }
    }
    // the padding beyond `size` stays occupied
    assert forall|q: int|
        0 <= q < mi && tree_mid(mi, q) > s.real_size implies (#[trigger] s.occupied_tag(q)) by {
        assert(s.occupied_tag(q) == t_new[q]);
        if q != pmark {
            assert(t_new[q] == t_old[q]);
            assert(pre.occupied_tag(q) == t_old[q]);
        }
    }
    assert(s.wf());
    assert(pre.unit_free(u)) by {
        assert(tree_mid(pre.node_count(), pmark) == u && !pre.occupied_tag(pmark));
    }
    assert forall|v: int| s.unit_free(v) implies (pre.unit_free(v) && v != u) by {
        let pw = choose|pw: int|
            0 <= pw < s.node_count() && #[trigger] tree_mid(s.node_count(), pw) == v
                && !s.occupied_tag(pw);
        assert(s.occupied_tag(pw) == t_new[pw]);
        assert(pw != pmark);
        assert(t_new[pw] == t_old[pw]);
        assert(pre.occupied_tag(pw) == t_old[pw]);
        assert(tree_mid(pre.node_count(), pw) == v && !pre.occupied_tag(pw));
        lemma_mid_inj(ke, pw, pmark);
    }
    assert forall|v: int| (pre.unit_free(v) && v != u) implies s.unit_free(v) by {
        let pw = choose|pw: int|
            0 <= pw < pre.node_count() && #[trigger] tree_mid(pre.node_count(), pw) == v
                && !pre.occupied_tag(pw);
        assert(pw != pmark);
        assert(s.occupied_tag(pw) == t_new[pw]);
        assert(t_new[pw] == t_old[pw]);
        assert(pre.occupied_tag(pw) == t_old[pw]);
        assert(tree_mid(s.node_count(), pw) == v && !s.occupied_tag(pw));
    }
}

impl SegTreeAllocator {
    /// Allocates one unit: descends from the root, preferring the left
    /// subtree unless it is entirely occupied, and stops at the first node
    /// whose own unit is free; that unit is marked occupied and the
    /// ancestors' summary tags are raised as far as their subtrees became
    /// full. Returns `None` exactly when every unit is occupied.
    #[verifier::rlimit(100)]
    pub fn allocate(&mut self) -> (r: Option<usize>)
        requires
            old(self).wf(),
        ensures
            final(self).wf(),
            seg_alloc_rel(*old(self), *final(self), r),
    {
        let ghost pre = *self;
        let ghost ke = self.levels@;
        let ghost t_old = pre.t0();
        let m = self.heap.len();
        let ghost mi = m as int;
        proof {
            if ke < 31 {
                lemma_pow2_strictly_increases(ke, 31);
            }
            assert(pow2(31) == 0x80000000) by {
                lemma2_to64();
            }
            let d = lemma_shape(ke, 0);
        }
        let mut p: usize = 0;
        let mut l: usize = 0;
        let mut h: usize = m;
        while p < m && self.heap[p].tags[0]
            invariant
                *self == pre,
                self.heap@.len() == m,
                mi == m as int,
                m < 0x80000000,
                pre.wf(),
                self.levels@ == ke,
                mi == pow2(ke) - 1,
                1 <= ke <= 31,
                0 <= p,
                p < m ==> l == tree_lo(mi, p as int) && h == tree_hi(mi, p as int),
                t_old == pre.t0(),
                t_old.len() == mi,
                subtree_full(t_old, 0) || (p < m && !subtree_full(t_old, p as int)),
                p < m ==> (forall|a: int|
                    0 <= a < mi && #[trigger] is_anc(a, p as int) && a != p as int
                        ==> pre.occupied_tag(a) && (is_anc(2 * a + 2, p as int) ==> subtree_full(
                        t_old,
                        2 * a + 1,
                    ))),
            decreases (if p < m { m - p } else { 0int }),
        {
            let ghost pold = p as int;
            proof {
                assert(t_old.len() == mi);
                let d = lemma_shape(ke, pold);
                lemma_subtree_full_unfold(t_old, pold);
                assert(t_old[pold] == pre.occupied_tag(pold));
            }
            if !self.heap[p].tags[1] {
                proof {
                    // a leaf's left tag is raised, so this node is internal
                    assert(pre.tag1(pold) == self.heap@[pold].tags[1]);
                    assert(2 * pold + 1 < mi) by {
                        if 2 * pold + 1 >= mi {
                            assert(pre.tag1(pold));
                        }
                    }
                    assert(pre.tag1(pold) == subtree_full(t_old, 2 * pold + 1));
                    if !subtree_full(t_old, 0) {
                        assert(!subtree_full(t_old, 2 * pold + 1));
                    }
                }
                let ghost pprev = p as int;
                p = 2 * p + 1;
                h = (l + h) / 2;
                proof {
                    let pnew = p as int;
                    if pnew < mi {
                        assert forall|a: int|
                            0 <= a < mi && #[trigger] is_anc(a, pnew) && a != pnew implies pre
                            .occupied_tag(a) && (is_anc(2 * a + 2, pnew) ==> subtree_full(
                            t_old,
                            2 * a + 1,
                        )) by {
                            assert((pnew - 1) / 2 == pprev);
                            assert(is_anc(a, pprev));
                            if a == pprev {
                                assert(pre.occupied_tag(a));
                                if is_anc(2 * a + 2, pnew) {
                                    assert(2 * a + 2 != pnew);
                                    assert(is_anc(2 * a + 2, pprev));
                                    lemma_anc_le(2 * a + 2, pprev);
                                }
                            } else {
                                if is_anc(2 * a + 2, pnew) && 2 * a + 2 != pnew {
                                    assert(is_anc(2 * a + 2, pprev));
                                }
                            }
                        }
                    }
                }
            } else {
                proof {
                    assert(pre.tag1(pold) == self.heap@[pold].tags[1]);
                    assert(pre.tag2(pold) == self.heap@[pold].tags[2]);
                    if !subtree_full(t_old, 0) {
                        // the left subtree is full and this subtree is not:
                        // the node is internal and the right subtree is the
                        // one that is not full
                        assert(2 * pold + 1 < mi) by {
                            if 2 * pold + 1 >= mi {
                                assert(pre.tag1(pold) && pre.tag2(pold));
                                assert(subtree_full(t_old, pold)) by {
                                    lemma_subtree_full_unfold(t_old, pold);
                                }
                            }
                        }
                        assert(pre.tag2(pold) == subtree_full(t_old, 2 * pold + 2));
                        assert(!subtree_full(t_old, 2 * pold + 2)) by {
                            lemma_subtree_full_unfold(t_old, pold);
                        }
                    }
                }
                let ghost pprev = p as int;
                p = 2 * p + 2;
                l = (l + h) / 2 + 1;
                proof {
                    let pnew = p as int;
                    if pnew < mi {
                        assert forall|a: int|
                            0 <= a < mi && #[trigger] is_anc(a, pnew) && a != pnew implies pre
                            .occupied_tag(a) && (is_anc(2 * a + 2, pnew) ==> subtree_full(
                            t_old,
                            2 * a + 1,
                        )) by {
                            assert((pnew - 1) / 2 == pprev);
                            assert(is_anc(a, pprev));
                            if a == pprev {
                                assert(pre.occupied_tag(a));
                                assert(subtree_full(t_old, 2 * a + 1)) by {
                                    assert(pre.tag1(pprev) == subtree_full(t_old, 2 * pprev + 1));
                                }
                            } else {
                                if is_anc(2 * a + 2, pnew) && 2 * a + 2 != pnew {
                                    assert(is_anc(2 * a + 2, pprev));
                                }
                            }
                        }
                    }
                }
            }
        }
        if p < m {
            let ghost pmark = p as int;
            proof {
                assert(t_old.len() == mi);
                let d = lemma_shape(ke, pmark);
            }
            let u = (l + h) / 2;
            proof {
                assert(u as int == tree_mid(mi, pmark));
                assert(!pre.occupied_tag(pmark));
                assert(t_old[pmark] == false);
            }
            let mut node = self.heap[p];
            node.tags[0] = true;
            self.heap[p] = node;
            let ghost t_new = t_old.update(pmark, true);
            proof {
                assert(self.t0() =~= t_new);
                assert(t_new == self.t0());
                assert(forall|q: int|
                    0 <= q < mi ==> (#[trigger] self.tag1(q)) == pre.tag1(q) && self.tag2(q)
                        == pre.tag2(q));
                lemma_mark_classify(pre, *self, t_old, t_new, pmark, mi);
            }
            let mut p1 = p;
            while p1 > 0 && self.heap[p1].tags[0] && self.heap[p1].tags[1] && self.heap[p1].tags[2]
                invariant
                    self.heap@.len() == m,
                    mi == m as int,
                    m < 0x80000000,
                    pre.wf(),
                    self.levels@ == ke,
                    self.real_size == pre.real_size,
                    mi == pow2(ke) - 1,
                    1 <= ke <= 31,
                    0 <= p1 < m,
                    0 <= pmark < m,
                    is_anc(p1 as int, pmark),
                    self.t0() =~= t_new,
                    t_old == pre.t0(),
                    t_old.len() == mi,
                    t_new == t_old.update(pmark, true),
                    forall|q: int|
                        0 <= q < mi && 2 * q + 1 < mi && is_anc(q, p1 as int) && q != p1 as int
                            && is_anc(2 * q + 1, p1 as int) ==> (#[trigger] self.tag1(q)) == false,
                    forall|q: int|
                        0 <= q < mi && 2 * q + 1 < mi && is_anc(q, p1 as int) && q != p1 as int
                            && is_anc(2 * q + 2, p1 as int) ==> (#[trigger] self.tag2(q)) == false,
                    forall|q: int|
                        0 <= q < mi && 2 * q + 1 < mi && !(is_anc(q, p1 as int) && q != p1 as int
                            && is_anc(2 * q + 1, p1 as int)) ==> (#[trigger] self.tag1(q))
                            == subtree_full(t_new, 2 * q + 1),
                    forall|q: int|
                        0 <= q < mi && 2 * q + 1 < mi && !(is_anc(q, p1 as int) && q != p1 as int
                            && is_anc(2 * q + 2, p1 as int)) ==> (#[trigger] self.tag2(q))
                            == subtree_full(t_new, 2 * q + 2),
                    forall|q: int| 0 <= q < mi && 2 * q + 1 >= mi ==> #[trigger] self.tag1(q),
                    forall|q: int| 0 <= q < mi && 2 * q + 1 >= mi ==> #[trigger] self.tag2(q),
                decreases p1,
            {
                let ghost pold = p1 as int;
                let ghost sold = *self;
                let p2 = (p1 - 1) / 2;
                proof {
                    let d = lemma_shape(ke, p2 as int);
                    assert(2 * p2 as int + 1 < mi) by {
                        assert(pold == 2 * p2 as int + 1 || pold == 2 * p2 as int + 2);
                    }
                    // the whole subtree at the current node is now full
                    assert(subtree_full(t_new, pold)) by {
                        lemma_subtree_full_unfold(t_new, pold);
                        assert(t_new[pold] == sold.occupied_tag(pold));
                        if 2 * pold + 1 < mi {
                            assert(sold.tag1(pold) == subtree_full(t_new, 2 * pold + 1));
                            assert(sold.tag2(pold) == subtree_full(t_new, 2 * pold + 2));
                        } else {
                            assert(subtree_full(t_new, 2 * pold + 1)) by {
                                assert forall|q: int|
                                    0 <= q < t_new.len() && #[trigger] is_anc(2 * pold + 1, q)
                                        implies t_new[q] by {
                                    lemma_anc_le(2 * pold + 1, q);
                                }
                            }
                            assert(subtree_full(t_new, 2 * pold + 2)) by {
                                assert forall|q: int|
                                    0 <= q < t_new.len() && #[trigger] is_anc(2 * pold + 2, q)
                                        implies t_new[q] by {
                                    lemma_anc_le(2 * pold + 2, q);
                                }
                            }
                        }
                    }
                }
                let mut nd = self.heap[p2];
                if p1 == 2 * p2 + 1 {
                    nd.tags[1] = true;
                    self.heap[p2] = nd;
                } else {
                    nd.tags[2] = true;
                    self.heap[p2] = nd;
                }
                p1 = p2;
                proof {
                    let pnew = p1 as int;
                    assert(self.t0() =~= t_new);
                    assert(is_anc(pnew, pold)) by {
                        assert((pold - 1) / 2 == pnew);
                        assert(is_anc(pnew, pnew));
                    }
                    assert(is_anc(pnew, pmark)) by {
                        lemma_anc_trans(pnew, pold, pmark);
                    }
                    assert forall|q: int| 0 <= q < mi && 2 * q + 1 >= mi implies (
                    #[trigger] self.tag1(q)) by {
                        assert(q != pnew);
                        assert(self.tag1(q) == sold.tag1(q));
                    }
                    assert forall|q: int| 0 <= q < mi && 2 * q + 1 >= mi implies (
                    #[trigger] self.tag2(q)) by {
                        assert(q != pnew);
                        assert(self.tag2(q) == sold.tag2(q));
                    }
                    // every strict ancestor of the parent was a strict
                    // ancestor of the child, with the same sides
                    assert forall|q: int|
                        0 <= q < mi && 2 * q + 1 < mi && is_anc(q, pnew) && q != pnew && is_anc(
                            2 * q + 1,
                            pnew,
                        ) implies (#[trigger] self.tag1(q)) == false by {
                        assert(is_anc(q, pold)) by {
                            assert((pold - 1) / 2 == pnew);
                            lemma_anc_trans(q, pnew, pold);
                        }
                        assert(is_anc(2 * q + 1, pold)) by {
                            lemma_anc_trans(2 * q + 1, pnew, pold);
                        }
                        assert(q != pold) by {
                            lemma_anc_le(q, pnew);
                        }
                        assert(sold.tag1(q) == false);
                        assert(self.tag1(q) == sold.tag1(q)) by {
                            assert(q != pnew);
                        }
                    }
                    assert forall|q: int|
                        0 <= q < mi && 2 * q + 1 < mi && is_anc(q, pnew) && q != pnew && is_anc(
                            2 * q + 2,
                            pnew,
                        ) implies (#[trigger] self.tag2(q)) == false by {
                        assert(is_anc(q, pold)) by {
                            assert((pold - 1) / 2 == pnew);
                            lemma_anc_trans(q, pnew, pold);
                        }
                        assert(is_anc(2 * q + 2, pold)) by {
                            lemma_anc_trans(2 * q + 2, pnew, pold);
                        }
                        assert(q != pold) by {
                            lemma_anc_le(q, pnew);
                        }
                        assert(sold.tag2(q) == false);
                        assert(self.tag2(q) == sold.tag2(q)) by {
                            assert(q != pnew);
                        }
                    }
                    assert forall|q: int|
                        0 <= q < mi && 2 * q + 1 < mi && !(is_anc(q, pnew) && q != pnew && is_anc(
                            2 * q + 1,
                            pnew,
                        )) implies (#[trigger] self.tag1(q)) == subtree_full(t_new, 2 * q + 1) by {
                        if q == pnew {
                            if pold == 2 * pnew + 1 {
                                assert(self.tag1(q) == true);
                                assert(subtree_full(t_new, pold));
                            } else {
                                assert(self.tag1(q) == sold.tag1(q));
                                assert(!(is_anc(q, pold) && q != pold && is_anc(2 * q + 1, pold)))
                                    by {
                                    if is_anc(2 * q + 1, pold) {
                                        assert(2 * q + 1 != pold);
                                        assert(is_anc(2 * q + 1, (pold - 1) / 2));
                                        lemma_anc_le(2 * q + 1, q);
                                    }
                                }
                            }
                        } else {
                            assert(self.tag1(q) == sold.tag1(q));
                            if is_anc(q, pold) && q != pold && is_anc(2 * q + 1, pold) {
                                // the same side would reach the parent too
                                assert(q != pnew);
                                assert(2 * q + 1 != pold) by {
                                    if 2 * q + 1 == pold {
                                        assert((pold - 1) / 2 == q);
                                    }
                                }
                                assert(is_anc(2 * q + 1, pnew)) by {
                                    assert(is_anc(2 * q + 1, (pold - 1) / 2));
                                }
                                assert(is_anc(q, pnew)) by {
                                    if q == pold {
                                    } else {
                                        assert(is_anc(q, (pold - 1) / 2));
                                    }
                                }
                                assert(false);
                            }
                        }
                    }
                    assert forall|q: int|
                        0 <= q < mi && 2 * q + 1 < mi && !(is_anc(q, pnew) && q != pnew && is_anc(
                            2 * q + 2,
                            pnew,
                        )) implies (#[trigger] self.tag2(q)) == subtree_full(t_new, 2 * q + 2) by {
                        if q == pnew {
                            if pold == 2 * pnew + 2 {
                                assert(self.tag2(q) == true);
                                assert(subtree_full(t_new, pold));
                            } else {
                                assert(self.tag2(q) == sold.tag2(q));
                                assert(!(is_anc(q, pold) && q != pold && is_anc(2 * q + 2, pold)))
                                    by {
                                    if is_anc(2 * q + 2, pold) {
                                        assert(2 * q + 2 != pold);
                                        assert(is_anc(2 * q + 2, (pold - 1) / 2));
                                        lemma_anc_le(2 * q + 2, q);
                                    }
                                }
                            }
                        } else {
                            assert(self.tag2(q) == sold.tag2(q));
                            if is_anc(q, pold) && q != pold && is_anc(2 * q + 2, pold) {
                                assert(q != pnew);
                                assert(2 * q + 2 != pold) by {
                                    if 2 * q + 2 == pold {
                                        assert((pold - 1) / 2 == q);
                                    }
                                }
                                assert(is_anc(2 * q + 2, pnew)) by {
                                    assert(is_anc(2 * q + 2, (pold - 1) / 2));
                                }
                                assert(is_anc(q, pnew)) by {
                                    if q == pold {
                                    } else {
                                        assert(is_anc(q, (pold - 1) / 2));
                                    }
                                }
                                assert(false);
                            }
                        }
                    }
                }
            }
            proof {
                let pf = p1 as int;
                assert(t_new == self.t0());
                lemma_walk_exit(*self, t_new, pf, mi, ke);
                lemma_alloc_post(pre, *self, t_old, t_new, pmark, mi, ke, u as int);
            }
            Some(u)
        } else {
            proof {
                assert(subtree_full(t_old, 0));
                assert forall|uu: int| !pre.unit_free(uu) by {
                    if pre.unit_free(uu) {
                        let pw = choose|pw: int|
                            0 <= pw < pre.node_count() && #[trigger] tree_mid(pre.node_count(), pw)
                                == uu && !pre.occupied_tag(pw);
                        lemma_anc_root(pw);
                        assert(t_old[pw]);
                    }
                }
            }
            None
        }
    }
}


/// Two units handed out in a row are distinct: the first one left the
/// free set before the second was chosen from it.
pub proof fn lemma_seg_allocations_distinct(
    s0: SegTreeAllocator,
    s1: SegTreeAllocator,
    s2: SegTreeAllocator,
    u1: usize,
    u2: usize,
)
    requires
        seg_alloc_rel(s0, s1, Some(u1)),
        seg_alloc_rel(s1, s2, Some(u2)),
    ensures
        u1 != u2,
{
}

/// `allocate` reports exhaustion exactly when no unit is free.
pub proof fn lemma_seg_exhaustion(s0: SegTreeAllocator, s1: SegTreeAllocator, r: Option<usize>)
    requires
        seg_alloc_rel(s0, s1, r),
    ensures
        (r is None) <==> (forall|u: int| !s0.unit_free(u)),
{
}

/// When exactly one unit is free, `allocate` returns that unit: in
/// particular, freeing a unit of a fully occupied allocator and then
/// allocating yields the freed unit back.
pub proof fn lemma_seg_first_fit_singleton(
    s0: SegTreeAllocator,
    s1: SegTreeAllocator,
    u: usize,
    r: Option<usize>,
)
    requires
        seg_alloc_rel(s0, s1, r),
        s0.unit_free(u as int),
        forall|v: int| v != u as int ==> !s0.unit_free(v),
    ensures
        r == Some(u),
{
    if r is None {
        assert(!s0.unit_free(u as int));
    }
}

} // verus!
