//! The horizontal resolver: right subtrees are pushed clear of their left
//! neighbours, from the leaves up.

use vstd::prelude::*;
use crate::arena::{lemma_same_links, same_shape, ArenaTree};
use crate::contour::{
    attained, beats, contour_walk, edge, find_negative, first_negative, grown, is_contour,
    lemma_walkable, nonneg_below, nonneg_from, offset, walkable,
};
use crate::event::LayoutError;
use crate::node::{BLOCK, COORD_LIMIT, NODE_LIMIT};
use crate::shape::{
    forest, in_subtree, lemma_count_split, lemma_depth_bound, lemma_path_sum_child,
    lemma_path_sum_delta, lemma_size, lemma_subtree_child, lemma_subtree_leaf, lemma_subtree_split,
    lemma_subtree_trans, size_of,
};

verus! {

/// The entry of the contour `c` for level `j`; past its end, its last entry.
pub open spec fn padded(c: Seq<i64>, j: int) -> int {
    if j < c.len() {
        c[j] as int
    } else {
        c[c.len() - 1] as int
    }
}

/// How far, at level `j`, the left contour `lc` lies to the right of the
/// right contour `rc`.
pub open spec fn gap_at(lc: Seq<i64>, rc: Seq<i64>, j: int) -> int {
    padded(lc, j) - padded(rc, j)
}

/// The least gap between `lc` and `rc` over the first `k` levels, and over
/// the first level where `k` is 0.
pub open spec fn least_gap(lc: Seq<i64>, rc: Seq<i64>, k: nat) -> int
    decreases k,
{
    if k <= 1 {
        gap_at(lc, rc, 0)
    } else {
        let m = least_gap(lc, rc, (k - 1) as nat);
        let g = gap_at(lc, rc, k - 1);
        if g < m {
            g
        } else {
            m
        }
    }
}

/// The least gap between the left contour `lc` and the right contour `rc`
/// over all the levels that either reaches, the shorter one being continued
/// by its last entry.
pub open spec fn min_gap(lc: Seq<i64>, rc: Seq<i64>) -> int {
    least_gap(
        lc,
        rc,
        if lc.len() > rc.len() {
            lc.len()
        } else {
            rc.len()
        },
    )
}

/// How far a right subtree is pushed where the least gap to its left
/// neighbour is `g`: not at all where they are apart, otherwise by the
/// overlap and one block.
pub open spec fn bump(g: int) -> int {
    if g <= 0 {
        -g + 60
    } else {
        0
    }
}

/// From the nodes `a` to the nodes `b`, the horizontal modifier of node `r`
/// grows by `by`; nothing else changes.
pub open spec fn pushed_right(a: &ArenaTree<String>, b: &ArenaTree<String>, r: int, by: int) -> bool {
    &&& same_shape(a@, b@)
    &&& forall|n: int|
        0 <= n < a@.len() ==> {
            &&& (#[trigger] b@[n]).same_but(a@[n], false, false, true)
            &&& b@[n].xmod == a@[n].xmod + if n == r {
                by
            } else {
                0
            }
        }
}

/// The least gap over the first `k` levels is the gap at one of them, and no
/// gap among them is less.
pub proof fn lemma_least_gap(lc: Seq<i64>, rc: Seq<i64>, k: nat) -> (at: int)
    requires
        k >= 1,
    ensures
        0 <= at < k,
        least_gap(lc, rc, k) == gap_at(lc, rc, at),
        forall|j: int| 0 <= j < k ==> least_gap(lc, rc, k) <= #[trigger] gap_at(lc, rc, j),
    decreases k,
{
    if k <= 1 {
        0
    } else {
        let at = lemma_least_gap(lc, rc, (k - 1) as nat);
        if gap_at(lc, rc, k - 1) < least_gap(lc, rc, (k - 1) as nat) {
            k - 1
        } else {
            at
        }
    }
}

/// Moving a left contour by `delta` moves each of its gaps by `delta`.
pub proof fn lemma_gap_moves(lc: Seq<i64>, lc2: Seq<i64>, rc: Seq<i64>, k: nat, delta: int)
    requires
        lc.len() >= 1,
        lc2.len() == lc.len(),
        forall|j: int| 0 <= j < lc.len() ==> #[trigger] lc2[j] == lc[j] + delta,
    ensures
        least_gap(lc2, rc, k) == least_gap(lc, rc, k) + delta,
    decreases k,
{
    if k > 1 {
        lemma_gap_moves(lc, lc2, rc, (k - 1) as nat, delta);
    }
}

/// Where the trees `t` and `u` are linked alike and agree on the subtree
/// rooted at `v`, but that the modifier of `v` is larger by `delta` in `u`,
/// the contour of the subtree in `u` is its contour in `t` moved by `delta`.
pub proof fn lemma_contour_moves(
    t: &ArenaTree<String>,
    u: &ArenaTree<String>,
    v: int,
    right: bool,
    c: Seq<i64>,
    delta: int,
) -> (d: Seq<i64>)
    requires
        forest(t.links()),
        t.links() == u.links(),
        t@.len() == u@.len(),
        0 <= v < t@.len(),
        forall|n: int| #[trigger]
            t.has(v, n) ==> u@[n].x == t@[n].x && u@[n].nbg == t@[n].nbg && (n != v
                ==> u@[n].xmod == t@[n].xmod),
        u@[v].xmod == t@[v].xmod + delta,
        is_contour(t, v, right, c),
        forall|j: int| 0 <= j < c.len() ==> i64::MIN <= #[trigger] c[j] + delta <= i64::MAX,
    ensures
        d.len() == c.len(),
        forall|j: int| 0 <= j < c.len() ==> #[trigger] d[j] == c[j] + delta,
        is_contour(u, v, right, d),
{
    let d = Seq::new(c.len(), |j: int| (c[j] + delta) as i64);
    let ls = t.links();
    let base = t.spec_depth(v);
    assert forall|n: int| #[trigger] u.has(v, n) implies offset(u, v, n) == offset(t, v, n)
        + delta by {
        assert(t.has(v, n));
        assert forall|i: int| #[trigger] in_subtree(ls, v, i) && i
            != v implies u.xmods()[i] == t.xmods()[i] by {
            assert(t.has(v, i));
        }
        lemma_path_sum_delta(ls, t.xmods(), u.xmods(), v, n, delta);
    }
    assert forall|n: int| #[trigger] u.has(v, n) implies 0 <= u.spec_depth(n) - base < d.len()
        && beats(right, d[u.spec_depth(n) - base] as int, edge(u, n, 0 + offset(u, v, n), right)) by {
        assert(t.has(v, n));
        let j = t.spec_depth(n) - base;
        assert(d[j] == c[j] + delta);
    }
    assert forall|j: int| 0 <= j < d.len() implies attained(
        u,
        v,
        right,
        base,
        0,
        j,
        #[trigger] d[j] as int,
    ) by {
        assert(attained(t, v, right, base, 0, j, c[j] as int));
        let n = choose|n: int| #[trigger]
            t.has(v, n) && t.spec_depth(n) - base == j && c[j] as int == edge(
                t,
                n,
                0 + offset(t, v, n),
                right,
            );
        assert(u.has(v, n));
    }
    d
}

/// The entries of the contour of a subtree that can be walked lie within
/// 2^62 of zero, and there is one at least.
pub proof fn lemma_contour_bound(t: &ArenaTree<String>, v: int, right: bool, c: Seq<i64>)
    requires
        0 <= v < t@.len(),
        walkable(t, v, 0),
        is_contour(t, v, right, c),
    ensures
        c.len() >= 1,
        forall|j: int|
            0 <= j < c.len() ==> -0x2000_0000_5000_0000 <= #[trigger] c[j] <= 0x2000_0000_5000_0000,
{
    assert(t.has(v, v));
    assert forall|j: int| 0 <= j < c.len() implies -0x2000_0000_5000_0000 <= #[trigger] c[j]
        <= 0x2000_0000_5000_0000 by {
        assert(attained(t, v, right, t.spec_depth(v), 0, j, c[j] as int));
        let n = choose|n: int| #[trigger]
            t.has(v, n) && t.spec_depth(n) - t.spec_depth(v) == j && c[j] as int == edge(
                t,
                n,
                0 + offset(t, v, n),
                right,
            );
        assert(t@[n].nbg <= NODE_LIMIT);
    }
}

pub(crate) fn push(tree: &mut ArenaTree<String>, left: usize, right: usize) -> (g: Ghost<
    (Seq<i64>, Seq<i64>),
>)
    requires
        old(tree).wf(),
        left < old(tree)@.len(),
        right < old(tree)@.len(),
        old(tree).binary_from(left as int),
        old(tree).binary_from(right as int),
        walkable(old(tree), left as int, 0),
        walkable(old(tree), right as int, 0),
        -0x1000_0000_0000_0000 <= old(tree)@[right as int].xmod <= 0x1000_0000_0000_0000,
    ensures
        is_contour(old(tree), right as int, false, g@.0),
        is_contour(old(tree), left as int, true, g@.1),
        pushed_right(old(tree), final(tree), right as int, bump(min_gap(g@.0, g@.1))),
        final(tree).links() == old(tree).links(),
{
    let ghost t0 = *tree;
    proof {
        lemma_depth_bound(t0.links(), left as int);
        lemma_depth_bound(t0.links(), right as int);
    }
    let mut right_co_of_left_tr: Vec<i64> = Vec::new();
    contour_walk(
        tree,
        left,
        0,
        &mut right_co_of_left_tr,
        0,
        true,
        Ghost(t0.spec_depth(left as int)),
    );
    let mut left_co_of_right_tr: Vec<i64> = Vec::new();
    contour_walk(
        tree,
        right,
        0,
        &mut left_co_of_right_tr,
        0,
        false,
        Ghost(t0.spec_depth(right as int)),
    );
    let ghost rc = right_co_of_left_tr@;
    let ghost lc = left_co_of_right_tr@;
    proof {
        assert(rc.len() >= 0 && Seq::<i64>::empty().len() == 0);
        lemma_contour_bound(&t0, left as int, true, rc);
        lemma_contour_bound(&t0, right as int, false, lc);
    }
    let right_len = right_co_of_left_tr.len();
    let left_len = left_co_of_right_tr.len();
    let levels = if left_len > right_len {
        left_len
    } else {
        right_len
    };
    let mut shift: i64 = left_co_of_right_tr[0] - right_co_of_left_tr[0];
    let mut j: usize = 1;
    while j < levels
        invariant
            1 <= j <= levels,
            right_co_of_left_tr@ == rc,
            left_co_of_right_tr@ == lc,
            right_len == rc.len(),
            left_len == lc.len(),
            right_len >= 1,
            left_len >= 1,
            levels == if left_len > right_len {
                left_len
            } else {
                right_len
            },
            forall|j: int|
                0 <= j < rc.len() ==> -0x2000_0000_5000_0000 <= #[trigger] rc[j]
                    <= 0x2000_0000_5000_0000,
            forall|j: int|
                0 <= j < lc.len() ==> -0x2000_0000_5000_0000 <= #[trigger] lc[j]
                    <= 0x2000_0000_5000_0000,
            shift == least_gap(lc, rc, j as nat),
            -0x4000_0000_a000_0000 <= shift <= 0x4000_0000_a000_0000,
        decreases levels - j,
    {
        let a: i64 = if j < left_len {
            left_co_of_right_tr[j]
        } else {
            left_co_of_right_tr[left_len - 1]
        };
        let b: i64 = if j < right_len {
            right_co_of_left_tr[j]
        } else {
            right_co_of_left_tr[right_len - 1]
        };
        let d: i64 = a - b;
        assert(d == gap_at(lc, rc, j as int));
        if d < shift {
            shift = d;
        }
        j += 1;
    }
    assert(shift == min_gap(lc, rc));
    if shift <= 0 {
        let x_mod: i64 = tree.arena[right].xmod;
        tree.arena[right].xmod = x_mod - shift + BLOCK;
    }
    proof {
        assert(same_shape(t0@, tree@));
        lemma_same_links(t0@, tree@);
    }
    Ghost((lc, rc))
}

/// Pushes the subtree rooted at `right_tree` clear of the subtree rooted at
/// `left_tree`: where the left contour of the one lies, at some level, on or
/// to the left of the right contour of the other, the horizontal modifier of
/// `right_tree` grows by the largest such overlap and one block. Returns 0.
/// Both contours start empty, so that the roots of the two subtrees count,
/// like every node below them, with half the thickness of their pipes.
///
/// Fails, and changes nothing, where a node of either subtree has one child
/// or more than two, or a negative horizontal modifier.
pub fn push_right(tree: &mut ArenaTree<String>, left_tree: usize, right_tree: usize) -> (r: Result<
    i64,
    LayoutError,
>)
    requires
        old(tree).wf(),
        old(tree).binary_from(left_tree as int) && old(tree).binary_from(right_tree as int)
            ==> old(tree).bounded(),
        left_tree < old(tree)@.len(),
        right_tree < old(tree)@.len(),
    ensures
        match r {
            Ok(z) => {
                &&& z == 0
                &&& old(tree).binary_from(left_tree as int)
                &&& old(tree).binary_from(right_tree as int)
                &&& nonneg_from(old(tree), left_tree as int)
                &&& nonneg_from(old(tree), right_tree as int)
                &&& exists|lc: Seq<i64>, rc: Seq<i64>|
                    {
                        &&& #[trigger] is_contour(old(tree), right_tree as int, false, lc)
                        &&& #[trigger] is_contour(old(tree), left_tree as int, true, rc)
                        &&& pushed_right(
                            old(tree),
                            final(tree),
                            right_tree as int,
                            bump(min_gap(lc, rc)),
                        )
                    }
            },
            Err(LayoutError::NonBinaryNode(n)) => *final(tree) == *old(tree) && (old(tree).first_odd(left_tree as int, n as int) || (old(tree).binary_from(left_tree as int)
                && old(tree).first_odd(right_tree as int, n as int))),
            Err(LayoutError::NegativeModifierInvariantViolated(n)) => *final(tree) == *old(tree)
                && old(tree).binary_from(left_tree as int) && old(tree).binary_from(
                right_tree as int,
            ) && (first_negative(old(tree), left_tree as int, n as int, false) || (nonneg_from(
                old(tree),
                left_tree as int,
            ) && first_negative(old(tree), right_tree as int, n as int, false))),
            Err(_) => false,
        },
{
    match tree.find_odd(left_tree) {
        Some(n) => {
            return Err(LayoutError::NonBinaryNode(n));
        },
        None => {},
    }
    match tree.find_odd(right_tree) {
        Some(n) => {
            return Err(LayoutError::NonBinaryNode(n));
        },
        None => {},
    }
    match find_negative(tree, left_tree, false) {
        Some(n) => {
            return Err(LayoutError::NegativeModifierInvariantViolated(n));
        },
        None => {},
    }
    match find_negative(tree, right_tree, false) {
        Some(n) => {
            return Err(LayoutError::NegativeModifierInvariantViolated(n));
        },
        None => {},
    }
    proof {
        lemma_walkable(tree, left_tree as int, 0);
        lemma_walkable(tree, right_tree as int, 0);
        assert(tree@[right_tree as int].bounded());
    }
    let g = push(tree, left_tree, right_tree);
    Ok(0)
}

/// `k` times the room that one node may take: three times `COORD_LIMIT`,
/// the thickest pipe and one block.
pub open spec fn span(k: int) -> int {
    3472883772 * k
}

/// The children of node `n` are settled, from the nodes `a` to the nodes
/// `b`: the modifier of the left child is as it was, and that of the right
/// child has grown by what the least gap between the contours of the two
/// subtrees asked before it grew, the contours being taken in `b`.
pub open spec fn settled_at(a: &ArenaTree<String>, b: &ArenaTree<String>, n: int) -> bool {
    let l = a.left_of(n);
    let r = a.right_of(n);
    let delta = b@[r].xmod - a@[r].xmod;
    &&& b@[l].xmod == a@[l].xmod
    &&& exists|lc: Seq<i64>, rc: Seq<i64>|
        {
            &&& #[trigger] is_contour(b, r, false, lc)
            &&& #[trigger] is_contour(b, l, true, rc)
            &&& delta == bump(min_gap(lc, rc) - delta)
        }
}

/// The subtree rooted at `v` is resolved, from the nodes `a` to the nodes
/// `b`: below `v` only horizontal modifiers have changed, and the children
/// of each node of the subtree are settled.
pub open spec fn resolved(a: &ArenaTree<String>, b: &ArenaTree<String>, v: int) -> bool {
    &&& same_shape(a@, b@)
    &&& forall|n: int|
        0 <= n < a@.len() ==> if a.has(v, n) && n != v {
            (#[trigger] b@[n]).same_but(a@[n], false, false, true)
        } else {
            b@[n] == a@[n]
        }
    &&& forall|n: int| a.has(v, n) && !a.leaf_at(n) ==> #[trigger] settled_at(a, b, n)
}

/// What moves node `n` within the subtree rooted at `v`: the modifiers on
/// the path from `v` down to `n`, that of `v` left out.
pub open spec fn inner(t: &ArenaTree<String>, v: int, n: int) -> int {
    offset(t, v, n) - t@[v].xmod
}

/// The nodes of the subtree rooted at `v` stand within `COORD_LIMIT` of
/// zero and hold at most `NODE_LIMIT` genes, and the modifiers below `v` are
/// neither negative nor above `COORD_LIMIT`.
pub open spec fn roomy(t: &ArenaTree<String>, v: int) -> bool {
    forall|n: int| #[trigger]
        t.has(v, n) ==> {
            &&& -COORD_LIMIT <= t@[n].x <= COORD_LIMIT
            &&& t@[n].nbg <= NODE_LIMIT
            &&& (n != v ==> 0 <= t@[n].xmod <= COORD_LIMIT)
        }
}

/// The subtree rooted at `v` takes no more room than its size allows: its
/// nodes stand within `COORD_LIMIT` of zero, the modifiers below `v` are not
/// negative, and no node is moved, within the subtree, further right than
/// `span` of the number of its nodes.
pub open spec fn packed(t: &ArenaTree<String>, v: int) -> bool {
    forall|n: int| #[trigger]
        t.has(v, n) ==> {
            &&& -COORD_LIMIT <= t@[n].x <= COORD_LIMIT
            &&& t@[n].nbg <= NODE_LIMIT
            &&& (n != v ==> t@[n].xmod >= 0)
            &&& 0 <= inner(t, v, n)
            &&& t@[n].x + inner(t, v, n) <= span(size_of(t.links(), v) as int) - 2 * COORD_LIMIT
        }
}

/// The trees `t` and `u` agree on the subtree rooted at `v`: each of its
/// nodes stands at the same horizontal coordinate, with the same modifier
/// and as many genes, in both.
pub open spec fn agree_on(t: &ArenaTree<String>, u: &ArenaTree<String>, v: int) -> bool {
    forall|n: int| #[trigger]
        t.has(v, n) ==> u@[n].x == t@[n].x && u@[n].nbg == t@[n].nbg && u@[n].xmod == t@[n].xmod
}

/// What is settled stays settled where the two subtrees stay as they are.
pub proof fn lemma_settled_transfer(
    a: &ArenaTree<String>,
    b: &ArenaTree<String>,
    a2: &ArenaTree<String>,
    b2: &ArenaTree<String>,
    n: int,
)
    requires
        a.wf(),
        a.links() == b.links(),
        a.links() == a2.links(),
        a.links() == b2.links(),
        a@.len() == b@.len(),
        a@.len() == b2@.len(),
        0 <= n < a@.len(),
        a@[n].children@.len() == 2,
        settled_at(a, b, n),
        a2@[a.left_of(n)].xmod == a@[a.left_of(n)].xmod,
        a2@[a.right_of(n)].xmod == a@[a.right_of(n)].xmod,
        agree_on(b, b2, a.left_of(n)),
        agree_on(b, b2, a.right_of(n)),
    ensures
        settled_at(a2, b2, n),
{
    let l = a.left_of(n);
    let r = a.right_of(n);
    a.lemma_two_children(n);
    assert(b.has(l, l));
    assert(b.has(r, r));
    let (lc, rc) = choose|lc: Seq<i64>, rc: Seq<i64>|
        {
            &&& #[trigger] is_contour(b, r, false, lc)
            &&& #[trigger] is_contour(b, l, true, rc)
            &&& b@[r].xmod - a@[r].xmod == bump(min_gap(lc, rc) - (b@[r].xmod - a@[r].xmod))
        };
    let lc2 = lemma_contour_moves(b, b2, r, false, lc, 0);
    let rc2 = lemma_contour_moves(b, b2, l, true, rc, 0);
    assert(lc2 =~= lc);
    assert(rc2 =~= rc);
    assert(is_contour(b2, r, false, lc));
    assert(is_contour(b2, l, true, rc));
}

/// A packed subtree whose root has a modifier between 0 and `COORD_LIMIT`
/// can be walked, and its nodes reach neither further left than
/// `-COORD_LIMIT` less the thickest half pipe nor further right than the
/// `span` of its size less `COORD_LIMIT`, plus that half pipe.
pub proof fn lemma_packed_walkable(t: &ArenaTree<String>, v: int)
    requires
        t.wf(),
        0 <= v < t@.len(),
        t@.len() <= NODE_LIMIT,
        packed(t, v),
        0 <= t@[v].xmod <= COORD_LIMIT,
    ensures
        walkable(t, v, 0),
        forall|n: int| #[trigger]
            t.has(v, n) ==> -COORD_LIMIT - 125829120 <= edge(t, n, 0 + offset(t, v, n), false)
                && edge(t, n, 0 + offset(t, v, n), true) <= span(size_of(t.links(), v) as int)
                - COORD_LIMIT + 125829120,
        1 <= size_of(t.links(), v) <= t@.len(),
{
    lemma_size(t.links(), v, t@.len() as nat);
    assert(t.links().len() == t@.len());
}

/// A subtree that is packed in one tree is packed in a tree that agrees
/// with it on the subtree.
pub proof fn lemma_packed_frame(t: &ArenaTree<String>, u: &ArenaTree<String>, v: int)
    requires
        forest(t.links()),
        t.links() == u.links(),
        t@.len() == u@.len(),
        0 <= v < t@.len(),
        agree_on(t, u, v),
        packed(t, v),
    ensures
        packed(u, v),
{
    let ls = t.links();
    assert(t.has(v, v));
    assert forall|n: int| #[trigger] u.has(v, n) implies {
        &&& -COORD_LIMIT <= u@[n].x <= COORD_LIMIT
        &&& u@[n].nbg <= NODE_LIMIT
        &&& (n != v ==> u@[n].xmod >= 0)
        &&& 0 <= inner(u, v, n)
        &&& u@[n].x + inner(u, v, n) <= span(size_of(u.links(), v) as int) - 2 * COORD_LIMIT
    } by {
        assert(t.has(v, n));
        assert forall|i: int| #[trigger] in_subtree(ls, v, i) && i != v implies u.xmods()[i]
            == t.xmods()[i] by {
            assert(t.has(v, i));
        }
        lemma_path_sum_delta(ls, t.xmods(), u.xmods(), v, n, 0);
    }
}

/// The least gap between two packed subtrees is not less than what the
/// size of the left one allows.
pub proof fn lemma_gap_floor(
    t: &ArenaTree<String>,
    l: int,
    r: int,
    lc: Seq<i64>,
    rc: Seq<i64>,
)
    requires
        t.wf(),
        0 <= l < t@.len(),
        0 <= r < t@.len(),
        t@.len() <= NODE_LIMIT,
        packed(t, l),
        packed(t, r),
        0 <= t@[l].xmod <= COORD_LIMIT,
        0 <= t@[r].xmod <= COORD_LIMIT,
        is_contour(t, r, false, lc),
        is_contour(t, l, true, rc),
    ensures
        min_gap(lc, rc) >= -span(size_of(t.links(), l) as int) - 2 * 125829120,
        0 <= bump(min_gap(lc, rc)) <= span(size_of(t.links(), l) as int) + 2 * 125829120 + 60,
        forall|j: int|
            0 <= j < lc.len() ==> i64::MIN <= #[trigger] lc[j] + bump(min_gap(lc, rc)) <= i64::MAX,
{
    lemma_packed_walkable(t, l);
    lemma_packed_walkable(t, r);
    lemma_contour_bound(t, l, true, rc);
    lemma_contour_bound(t, r, false, lc);
    let levels: nat = if lc.len() > rc.len() {
        lc.len()
    } else {
        rc.len()
    };
    let at = lemma_least_gap(lc, rc, levels);
    let jl = if at < lc.len() {
        at
    } else {
        lc.len() - 1
    };
    let jr = if at < rc.len() {
        at
    } else {
        rc.len() - 1
    };
    assert(attained(t, r, false, t.spec_depth(r), 0, jl, lc[jl] as int));
    assert(attained(t, l, true, t.spec_depth(l), 0, jr, rc[jr] as int));
    assert(min_gap(lc, rc) == lc[jl] - rc[jr]);
}

/// Once the right child of `v` has been pushed by what the least gap asks,
/// the children of `v` are settled.
pub proof fn lemma_settle_here(
    t0: &ArenaTree<String>,
    t2: &ArenaTree<String>,
    t3: &ArenaTree<String>,
    v: int,
    lc: Seq<i64>,
    rc: Seq<i64>,
)
    requires
        t0.wf(),
        t0.links() == t2.links(),
        t0@.len() == t2@.len(),
        0 <= v < t0@.len(),
        t0@[v].children@.len() == 2,
        is_contour(t2, t0.right_of(v), false, lc),
        is_contour(t2, t0.left_of(v), true, rc),
        pushed_right(t2, t3, t0.right_of(v), bump(min_gap(lc, rc))),
        t2@[t0.right_of(v)].xmod == t0@[t0.right_of(v)].xmod,
        t2@[t0.left_of(v)].xmod == t0@[t0.left_of(v)].xmod,
        lc.len() >= 1,
        forall|j: int|
            0 <= j < lc.len() ==> i64::MIN <= #[trigger] lc[j] + bump(min_gap(lc, rc)) <= i64::MAX,
    ensures
        settled_at(t0, t3, v),
{
    let l = t0.left_of(v);
    let r = t0.right_of(v);
    let delta = bump(min_gap(lc, rc));
    t0.lemma_two_children(v);
    lemma_same_links(t2@, t3@);
    let levels: nat = if lc.len() > rc.len() {
        lc.len()
    } else {
        rc.len()
    };
    assert forall|n: int| #[trigger] t2.has(l, n) implies n != r by {
        lemma_subtree_split(t0.links(), v, n);
    }
    let lc3 = lemma_contour_moves(t2, t3, r, false, lc, delta);
    let rc3 = lemma_contour_moves(t2, t3, l, true, rc, 0);
    assert(rc3 =~= rc);
    lemma_gap_moves(lc, lc3, rc, levels, delta);
    assert(min_gap(lc3, rc) == min_gap(lc, rc) + delta);
    assert(is_contour(t3, r, false, lc3));
    assert(is_contour(t3, l, true, rc));
}

/// Once the children of `v` are packed and the right one has been pushed by
/// `delta`, which the size of the left one bounds, the subtree rooted at `v`
/// is packed: `t2` is the tree before the push and `t3` the tree after it.
pub proof fn lemma_packed_join(t2: &ArenaTree<String>, t3: &ArenaTree<String>, v: int, delta: int)
    requires
        t2.wf(),
        t2@.len() <= NODE_LIMIT,
        0 <= v < t2@.len(),
        t2@[v].children@.len() == 2,
        packed(t2, t2.left_of(v)),
        packed(t2, t2.right_of(v)),
        0 <= t2@[t2.left_of(v)].xmod <= COORD_LIMIT,
        0 <= t2@[t2.right_of(v)].xmod <= COORD_LIMIT,
        -COORD_LIMIT <= t2@[v].x <= COORD_LIMIT,
        t2@[v].nbg <= NODE_LIMIT,
        pushed_right(t2, t3, t2.right_of(v), delta),
        0 <= delta <= span(size_of(t2.links(), t2.left_of(v)) as int) + 2 * 125829120 + 60,
    ensures
        packed(t3, v),
{
    let ls = t2.links();
    let l = t2.left_of(v);
    let r = t2.right_of(v);
    t2.lemma_two_children(v);
    lemma_same_links(t2@, t3@);
    lemma_count_split(ls, v, ls.len());
    lemma_size(ls, l, ls.len());
    lemma_size(ls, r, ls.len());
    assert(ls.len() == t2@.len());
    assert forall|n: int| #[trigger] t3.has(v, n) implies {
        &&& -COORD_LIMIT <= t3@[n].x <= COORD_LIMIT
        &&& t3@[n].nbg <= NODE_LIMIT
        &&& (n != v ==> t3@[n].xmod >= 0)
        &&& 0 <= inner(t3, v, n)
        &&& t3@[n].x + inner(t3, v, n) <= span(size_of(ls, v) as int) - 2 * COORD_LIMIT
    } by {
        lemma_subtree_split(ls, v, n);
        if n == v {
            assert(offset(t3, v, v) == t3@[v].xmod);
        } else if t2.has(l, n) {
            lemma_path_sum_child(ls, t3.xmods(), v, l, n);
            assert forall|i: int| #[trigger] in_subtree(ls, l, i) && i != l implies t3.xmods()[i]
                == t2.xmods()[i] by {
                lemma_subtree_split(ls, v, i);
            }
            lemma_path_sum_delta(ls, t2.xmods(), t3.xmods(), l, n, 0);
        } else {
            assert(t2.has(r, n));
            lemma_path_sum_child(ls, t3.xmods(), v, r, n);
            assert forall|i: int| #[trigger] in_subtree(ls, r, i) && i != r implies t3.xmods()[i]
                == t2.xmods()[i] by {
            }
            lemma_path_sum_delta(ls, t2.xmods(), t3.xmods(), r, n, delta);
        }
    }
}

/// What was settled below a child of `v` when that child was resolved is
/// still settled once the whole subtree rooted at `v` has been: `b` is the
/// tree when the child `c` had been resolved from `a`, `t0` the tree at the
/// start and `t3` the tree at the end.
pub proof fn lemma_settled_below(
    a: &ArenaTree<String>,
    b: &ArenaTree<String>,
    t0: &ArenaTree<String>,
    t3: &ArenaTree<String>,
    c: int,
    n: int,
)
    requires
        a.wf(),
        a.links() == b.links(),
        a.links() == t0.links(),
        a.links() == t3.links(),
        a@.len() == b@.len(),
        a@.len() == t3@.len(),
        a.has(c, n),
        a@[n].children@.len() == 2,
        settled_at(a, b, n),
        forall|m: int|
            #[trigger] a.has(c, m) && m != c ==> t3@[m].x == b@[m].x && t3@[m].nbg == b@[m].nbg
                && t3@[m].xmod == b@[m].xmod && t0@[m].xmod == a@[m].xmod,
    ensures
        settled_at(t0, t3, n),
{
    let ls = a.links();
    let ln = a.left_of(n);
    let rn = a.right_of(n);
    a.lemma_two_children(n);
    lemma_subtree_child(ls, c, n, ln);
    lemma_subtree_child(ls, c, n, rn);
    assert forall|m: int| #[trigger] b.has(ln, m) implies t3@[m].x == b@[m].x && t3@[m].nbg
        == b@[m].nbg && t3@[m].xmod == b@[m].xmod by {
        lemma_subtree_trans(ls, c, ln, m);
        crate::shape::lemma_subtree_depth(ls, ln, m);
        assert(a.has(c, m));
    }
    assert forall|m: int| #[trigger] b.has(rn, m) implies t3@[m].x == b@[m].x && t3@[m].nbg
        == b@[m].nbg && t3@[m].xmod == b@[m].xmod by {
        lemma_subtree_trans(ls, c, rn, m);
        crate::shape::lemma_subtree_depth(ls, rn, m);
        assert(a.has(c, m));
    }
    assert(a.has(c, ln) && ln != c);
    assert(a.has(c, rn) && rn != c);
    lemma_settled_transfer(a, b, t0, t3, n);
}

fn resolve(tree: &mut ArenaTree<String>, index: usize)
    requires
        old(tree).wf(),
        index < old(tree)@.len(),
        old(tree).binary_from(index as int),
        old(tree)@.len() <= NODE_LIMIT,
        roomy(old(tree), index as int),
    ensures
        resolved(old(tree), final(tree), index as int),
        final(tree).links() == old(tree).links(),
        packed(final(tree), index as int),
    decreases old(tree)@.len() - old(tree).spec_depth(index as int),
{
    let ghost t0 = *tree;
    let ghost ls = tree.links();
    proof {
        lemma_depth_bound(ls, index as int);
        tree.lemma_binary_here(index as int);
        assert(t0.has(index as int, index as int));
        lemma_size(ls, index as int, t0@.len() as nat);
        assert(ls.len() == t0@.len());
    }
    if tree.arena[index].children.len() > 0 {
        let left = tree.arena[index].children[0];
        let right = tree.arena[index].children[1];
        proof {
            t0.lemma_two_children(index as int);
            assert forall|n: int| #[trigger] t0.has(left as int, n) implies t0.has(
                index as int,
                n,
            ) && n != index && !t0.has(right as int, n) by {
                lemma_subtree_split(ls, index as int, n);
            }
            assert forall|n: int| #[trigger] t0.has(right as int, n) implies t0.has(
                index as int,
                n,
            ) && n != index && !t0.has(left as int, n) by {
                lemma_subtree_split(ls, index as int, n);
            }
        }
        resolve(tree, left);
        let ghost t1 = *tree;
        proof {
            assert forall|n: int| #[trigger] t1.has(right as int, n) implies {
                &&& -COORD_LIMIT <= t1@[n].x <= COORD_LIMIT
                &&& t1@[n].nbg <= NODE_LIMIT
                &&& (n != right ==> 0 <= t1@[n].xmod <= COORD_LIMIT)
            } by {
                assert(t0.has(right as int, n));
                assert(t1@[n] == t0@[n]);
            }
        }
        resolve(tree, right);
        let ghost t2 = *tree;
        proof {
            assert(agree_on(&t1, &t2, left as int)) by {
                assert forall|n: int| #[trigger] t1.has(left as int, n) implies t2@[n]
                    == t1@[n] by {
                    assert(t0.has(left as int, n));
                }
            }
            lemma_packed_frame(&t1, &t2, left as int);
            assert(t2@[left as int] == t0@[left as int]);
            assert(t2@[right as int] == t0@[right as int]);
            assert(t2@[index as int] == t0@[index as int]);
            lemma_packed_walkable(&t2, left as int);
            lemma_packed_walkable(&t2, right as int);
        }
        let g = push(tree, left, right);
        proof {
            let t3 = *tree;
            let lc = g@.0;
            let rc = g@.1;
            let delta = bump(min_gap(lc, rc));
            lemma_gap_floor(&t2, left as int, right as int, lc, rc);
            lemma_contour_bound(&t2, right as int, false, lc);
            lemma_settle_here(&t0, &t2, &t3, index as int, lc, rc);
            lemma_packed_join(&t2, &t3, index as int, delta);
            assert(same_shape(t0@, t3@)) by {
                assert forall|i: int| 0 <= i < t0@.len() implies (#[trigger] t0@[i]).same_fixed(
                    t3@[i],
                ) by {
                    assert(t3@[i].same_fixed(t2@[i]));
                    assert(t2@[i].same_fixed(t1@[i]));
                    assert(t1@[i].same_fixed(t0@[i]));
                }
            }
            assert forall|n: int| 0 <= n < t0@.len() implies if t0.has(index as int, n) && n
                != index {
                (#[trigger] t3@[n]).same_but(t0@[n], false, false, true)
            } else {
                t3@[n] == t0@[n]
            } by {
                lemma_subtree_split(ls, index as int, n);
                assert(t3@[n].same_but(t2@[n], false, false, true));
                assert(t2@[n].same_fixed(t1@[n]));
                assert(t1@[n].same_fixed(t0@[n]));
            }
            assert forall|n: int| t0.has(index as int, n) && !t0.leaf_at(n) implies #[trigger] settled_at(
                &t0,
                &t3,
                n,
            ) by {
                lemma_subtree_split(ls, index as int, n);
                if n != index {
                    t0.lemma_binary_here_in(index as int, n);
                    if t0.has(left as int, n) {
                        assert(settled_at(&t0, &t1, n));
                        assert forall|m: int| #[trigger] t0.has(left as int, m) && m
                            != left implies t3@[m].x == t1@[m].x && t3@[m].nbg == t1@[m].nbg
                            && t3@[m].xmod == t1@[m].xmod && t0@[m].xmod == t0@[m].xmod by {
                            assert(t2@[m] == t1@[m]);
                        }
                        lemma_settled_below(&t0, &t1, &t0, &t3, left as int, n);
                    } else {
                        assert(t1.has(right as int, n));
                        assert(settled_at(&t1, &t2, n));
                        assert forall|m: int| #[trigger] t1.has(right as int, m) && m
                            != right implies t3@[m].x == t2@[m].x && t3@[m].nbg == t2@[m].nbg
                            && t3@[m].xmod == t2@[m].xmod && t0@[m].xmod == t1@[m].xmod by {
                            assert(t0.has(right as int, m));
                            assert(t1@[m] == t0@[m]);
                        }
                        lemma_settled_below(&t1, &t2, &t0, &t3, right as int, n);
                    }
                }
            }
        }
    } else {
        proof {
            assert forall|n: int| #[trigger] t0.has(index as int, n) implies n == index by {
                lemma_subtree_leaf(ls, index as int, n);
            }
            assert(same_shape(t0@, tree@));
            assert(offset(&t0, index as int, index as int) == t0@[index as int].xmod);
        }
    }
}

/// Resolves the subtree rooted at `index`, from the leaves up: below each
/// node the right subtree is pushed clear of the left one, once both have
/// been resolved themselves. Only the horizontal modifiers of right children
/// change, and the subtree ends packed: no node is moved further than the
/// size of the subtree allows, so that its modifiers can be applied.
///
/// Fails, and changes nothing, where a node of the subtree has one child or
/// more than two, or where a node below `index` has a negative horizontal
/// modifier.
pub fn check_contour_postorder(tree: &mut ArenaTree<String>, index: usize) -> (r: Result<
    (),
    LayoutError,
>)
    requires
        old(tree).wf(),
        old(tree).binary_from(index as int) ==> old(tree).bounded(),
        index < old(tree)@.len(),
    ensures
        match r {
            Ok(()) => old(tree).binary_from(index as int) && nonneg_below(old(tree), index as int)
                && resolved(old(tree), final(tree), index as int) && packed(
                final(tree),
                index as int,
            ),
            Err(LayoutError::NonBinaryNode(n)) => *final(tree) == *old(tree) && old(tree).first_odd(index as int, n as int),
            Err(LayoutError::NegativeModifierInvariantViolated(n)) => *final(tree) == *old(tree)
                && old(tree).binary_from(index as int) && first_negative(
                old(tree),
                index as int,
                n as int,
                true,
            ),
            Err(_) => false,
        },
{
    match tree.find_odd(index) {
        Some(n) => {
            return Err(LayoutError::NonBinaryNode(n));
        },
        None => {},
    }
    match find_negative(tree, index, true) {
        Some(n) => {
            return Err(LayoutError::NegativeModifierInvariantViolated(n));
        },
        None => {},
    }
    proof {
        assert forall|n: int| #[trigger] tree.has(index as int, n) implies {
            &&& -COORD_LIMIT <= tree@[n].x <= COORD_LIMIT
            &&& tree@[n].nbg <= NODE_LIMIT
            &&& (n != index ==> 0 <= tree@[n].xmod <= COORD_LIMIT)
        } by {
            assert(tree@[n].bounded());
        }
    }
    resolve(tree, index);
    Ok(())
}

} // verus!
