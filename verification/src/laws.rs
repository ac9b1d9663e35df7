//! What holds of the passes taken together.

use vstd::prelude::*;
use crate::arena::{lemma_same_links, ArenaTree};
use crate::contour::{edge, is_contour, offset, pipe_half};
use crate::layout::laid_out;
use crate::node::{COORD_LIMIT, PIPEBLOCK};
use crate::pipe::sized;
use crate::resolve::{
    bump, gap_at, inner, lemma_least_gap, min_gap, packed, resolved, settled_at,
};
use crate::shape::{
    ancestor, binary_at, depth_of, lemma_ancestor_add, lemma_depth_bound, lemma_path_sum_add,
    lemma_size,
    lemma_subtree_child, lemma_subtree_trans,
};
use crate::shift::{centered, centre_at, shiftable, shifted, wide};

verus! {

/// A subtree that holds a node with one child, or with more than two, is
/// not one that a pass accepts.
pub proof fn lemma_odd_node_refused(t: &ArenaTree<String>, v: int, n: int)
    requires
        t.has(v, n),
        t@[n].children@.len() != 0,
        t@[n].children@.len() != 2,
    ensures
        !t.binary_from(v),
{
    assert(!binary_at(t.links(), n));
}

/// Once pipes are sized, no pipe is thinner than one pipe unit.
pub proof fn lemma_pipe_never_thin(a: &ArenaTree<String>, b: &ArenaTree<String>, n: int)
    requires
        sized(a, b),
        0 <= n < a@.len(),
    ensures
        b@[n].width >= PIPEBLOCK,
        b@[n].height >= PIPEBLOCK,
{
    assert(b@[n].same_fixed(a@[n]));
}

/// Once pipes are sized, a node that holds more genes than another has the
/// thicker pipe, both ways; but a node with one gene is as thick as a node
/// with none.
pub proof fn lemma_pipe_grows(a: &ArenaTree<String>, b: &ArenaTree<String>, m: int, n: int)
    requires
        sized(a, b),
        0 <= m < a@.len(),
        0 <= n < a@.len(),
        a@[m].nbg < a@[n].nbg,
        !(a@[m].nbg == 0 && a@[n].nbg == 1),
    ensures
        b@[m].width < b@[n].width,
        b@[m].height < b@[n].height,
{
    assert(b@[m].same_fixed(a@[m]));
    assert(b@[n].same_fixed(a@[n]));
}

proof fn lemma_twice_at(
    a: &ArenaTree<String>,
    b: &ArenaTree<String>,
    c: &ArenaTree<String>,
    v: int,
    n: int,
)
    requires
        a.wf(),
        a.binary_from(v),
        centered(a, b, v),
        centered(b, c, v),
        a.has(v, n),
    ensures
        c@[n].x == b@[n].x,
    decreases a@.len() - a.spec_depth(n),
{
    lemma_same_links(a@, b@);
    lemma_depth_bound(a.links(), n);
    assert(b@[n].same_fixed(a@[n]));
    assert(c@[n].same_fixed(b@[n]));
    if !a.leaf_at(n) {
        a.lemma_binary_here_in(v, n);
        a.lemma_two_children(n);
        let l = a.left_of(n);
        let r = a.right_of(n);
        lemma_subtree_child(a.links(), v, n, l);
        lemma_subtree_child(a.links(), v, n, r);
        lemma_twice_at(a, b, c, v, l);
        lemma_twice_at(a, b, c, v, r);
        assert(b.has(v, n) && !b.leaf_at(n));
        assert(centre_at(a, b, n));
        assert(centre_at(b, c, n));
    }
}

/// Centring twice moves nothing the second time: where the subtree rooted
/// at `v` is centred from `a` to `b` and again from `b` to `c`, every node
/// stands in `c` at the horizontal coordinate that it has in `b`.
pub proof fn lemma_centering_twice(
    a: &ArenaTree<String>,
    b: &ArenaTree<String>,
    c: &ArenaTree<String>,
    v: int,
)
    requires
        a.wf(),
        0 <= v < a@.len(),
        a.binary_from(v),
        centered(a, b, v),
        centered(b, c, v),
    ensures
        forall|n: int| 0 <= n < a@.len() ==> (#[trigger] c@[n]).x == b@[n].x,
{
    lemma_same_links(a@, b@);
    assert forall|n: int| 0 <= n < a@.len() implies (#[trigger] c@[n]).x == b@[n].x by {
        if a.has(v, n) {
            lemma_twice_at(a, b, c, v, n);
        } else {
            assert(!b.has(v, n));
        }
    }
}

/// Once a subtree has been resolved, the right subtree of each of its nodes
/// is clear of the left one: where the subtree rooted at `v` is resolved
/// from `a` to `b`, and `p` and `q` lie at one depth, `p` below the left
/// child of a node `n` of the subtree and `q` below its right child, the
/// right edge of `p` lies to the left of the left edge of `q`, each moved by
/// the modifiers on the path down from that child.
pub proof fn lemma_resolved_apart(
    a: &ArenaTree<String>,
    b: &ArenaTree<String>,
    v: int,
    n: int,
    p: int,
    q: int,
)
    requires
        a.wf(),
        resolved(a, b, v),
        a.has(v, n),
        a@[n].children@.len() == 2,
        a.has(a.left_of(n), p),
        a.has(a.right_of(n), q),
        a.spec_depth(p) == a.spec_depth(q),
    ensures
        edge(b, p, offset(b, a.left_of(n), p), true) < edge(
            b,
            q,
            offset(b, a.right_of(n), q),
            false,
        ),
{
    lemma_same_links(a@, b@);
    a.lemma_two_children(n);
    let l = a.left_of(n);
    let r = a.right_of(n);
    assert(settled_at(a, b, n));
    let delta = b@[r].xmod - a@[r].xmod;
    let (lc, rc) = choose|lc: Seq<i64>, rc: Seq<i64>|
        {
            &&& #[trigger] is_contour(b, r, false, lc)
            &&& #[trigger] is_contour(b, l, true, rc)
            &&& delta == bump(min_gap(lc, rc) - delta)
        };
    assert(min_gap(lc, rc) > 0);
    let j = b.spec_depth(p) - b.spec_depth(l);
    assert(b.has(l, p));
    assert(b.has(r, q));
    assert(0 <= j < rc.len());
    assert(0 <= j < lc.len());
    let levels: nat = if lc.len() > rc.len() {
        lc.len()
    } else {
        rc.len()
    };
    let at = lemma_least_gap(lc, rc, levels);
    assert(gap_at(lc, rc, j) >= min_gap(lc, rc));
}

/// Once a subtree has been resolved and its modifiers applied, no two of
/// its nodes overlap: where the subtree rooted at `v` is resolved from `a`
/// to `b` and shifted from `b` to `c`, and `p` and `q` lie at one depth, `p`
/// below the left child of a node `n` of the subtree and `q` below its right
/// child, the right edge of `p` lies in `c` to the left of the left edge of
/// `q`.
pub proof fn lemma_no_overlap(
    a: &ArenaTree<String>,
    b: &ArenaTree<String>,
    c: &ArenaTree<String>,
    v: int,
    dx: int,
    dy: int,
    n: int,
    p: int,
    q: int,
)
    requires
        a.wf(),
        resolved(a, b, v),
        shifted(b, c, v, dx, dy),
        a.has(v, n),
        a@[n].children@.len() == 2,
        a.has(a.left_of(n), p),
        a.has(a.right_of(n), q),
        a.spec_depth(p) == a.spec_depth(q),
    ensures
        c@[p].x + pipe_half(c@[p].nbg as int) < c@[q].x - pipe_half(c@[q].nbg as int),
{
    lemma_same_links(a@, b@);
    lemma_resolved_apart(a, b, v, n, p, q);
    a.lemma_two_children(n);
    let ls = a.links();
    let l = a.left_of(n);
    let r = a.right_of(n);
    let w = b.xmods();
    lemma_subtree_child(ls, v, n, l);
    lemma_subtree_child(ls, v, n, r);
    lemma_subtree_trans(ls, v, l, p);
    lemma_subtree_trans(ls, v, r, q);
    let kp = (depth_of(ls, p) - depth_of(ls, l)) as nat;
    let kq = (depth_of(ls, q) - depth_of(ls, r)) as nat;
    let up = (depth_of(ls, n) - depth_of(ls, v)) as nat;
    assert(kp == kq);
    lemma_ancestor_add(ls, p, kp, 1);
    lemma_ancestor_add(ls, q, kq, 1);
    assert(ancestor(ls, l, 1) == n) by {
        assert(ancestor(ls, n, 0) == n);
    }
    assert(ancestor(ls, r, 1) == n) by {
        assert(ancestor(ls, n, 0) == n);
    }
    lemma_path_sum_add(ls, w, p, kp, up);
    lemma_path_sum_add(ls, w, q, kq, up);
    assert(b.has(v, p));
    assert(b.has(v, q));
    assert(c@[p].same_fixed(b@[p]));
    assert(c@[q].same_fixed(b@[q]));
}

/// A tree that is laid out from a bounded tree is bounded, where its levels
/// fit: a tree of `a@.len()` nodes laid out from level `d` on reaches no
/// lower than `BLOCK * (d + a@.len())`.
pub proof fn lemma_laid_out_bounded(a: &ArenaTree<String>, b: &ArenaTree<String>, v: int, d: int)
    requires
        a.wf(),
        a.bounded(),
        laid_out(a, b, v, d),
        0 <= d,
        60 * (d + a@.len()) <= COORD_LIMIT,
    ensures
        b.wf(),
        b.bounded(),
{
    lemma_same_links(a@, b@);
    assert forall|n: int| 0 <= n < b@.len() implies (#[trigger] b@[n]).idx == n by {
        assert(a@[n].same_fixed(b@[n]));
    }
    assert forall|n: int| 0 <= n < b@.len() implies (#[trigger] b@[n]).bounded() by {
        assert(a@[n].bounded());
        assert(a@[n].same_fixed(b@[n]));
        if a.has(v, n) {
            lemma_depth_bound(a.links(), n);
        }
    }
}

/// The modifiers of a subtree that has been resolved can be applied: where
/// the subtree rooted at `v` is resolved from the bounded tree `a` to `b`
/// and is packed in `b`, its modifiers can be applied in `b` after a move
/// within `COORD_LIMIT`.
pub proof fn lemma_resolved_shiftable(a: &ArenaTree<String>, b: &ArenaTree<String>, v: int, dx: int)
    requires
        a.wf(),
        a.bounded(),
        0 <= v < a@.len(),
        resolved(a, b, v),
        packed(b, v),
        -COORD_LIMIT <= dx <= COORD_LIMIT,
    ensures
        b.wf(),
        shiftable(b, v, dx),
{
    lemma_same_links(a@, b@);
    assert forall|n: int| 0 <= n < b@.len() implies (#[trigger] b@[n]).idx == n by {
        assert(a@[n].same_fixed(b@[n]));
    }
    lemma_size(a.links(), v, a@.len());
    assert(a.links().len() == a@.len());
    assert(a@[v].bounded());
    assert(b@[v] == a@[v]);
    assert forall|n: int| #[trigger] b.has(v, n) implies {
        &&& -COORD_LIMIT <= b@[n].x <= COORD_LIMIT
        &&& -COORD_LIMIT <= b@[n].y <= COORD_LIMIT
        &&& -COORD_LIMIT <= b@[n].ymod <= COORD_LIMIT
        &&& -wide() <= dx + offset(b, v, n) <= wide()
    } by {
        assert(a@[n].bounded());
        assert(a.has(v, n));
        assert(inner(b, v, n) == offset(b, v, n) - b@[v].xmod);
    }
}

} // verus!
