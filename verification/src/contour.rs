//! Contours: for each level of a subtree, how far left and how far right its
//! nodes reach.

use vstd::prelude::*;
use crate::arena::ArenaTree;
use crate::event::LayoutError;
use crate::node::{half, half_of, COORD_LIMIT, NODE_LIMIT, PIPEBLOCK};
use crate::shape::{
    lemma_depth_bound, lemma_path_sum_bound, lemma_path_sum_child, lemma_subtree_leaf,
    lemma_subtree_split, path_sum,
};

verus! {

/// Half the thickness that `nbg` genes give a pipe.
pub open spec fn pipe_half(nbg: int) -> int {
    half(15 * nbg)
}

/// The modifiers met on the way from `v` down to its descendant `n`, both
/// included, summed.
pub open spec fn offset(t: &ArenaTree<String>, v: int, n: int) -> int {
    path_sum(t.links(), t.xmods(), n, (t.spec_depth(n) - t.spec_depth(v)) as nat)
}

/// Where the right edge of node `n` comes to lie, or its left edge, once it
/// has been moved by `by`: half the thickness of its pipe away from its
/// middle. This holds of every node alike, the root of a subtree included: a
/// contour never counts the whole thickness of a pipe on one side.
pub open spec fn edge(t: &ArenaTree<String>, n: int, by: int, right: bool) -> int {
    t@[n].x + by + if right {
        pipe_half(t@[n].nbg as int)
    } else {
        -pipe_half(t@[n].nbg as int)
    }
}

/// `a` reaches at least as far as `b`: to the right, or to the left.
pub open spec fn beats(right: bool, a: int, b: int) -> bool {
    if right {
        a >= b
    } else {
        a <= b
    }
}

/// Some node of the subtree rooted at `v` that lies `j` levels below `base`
/// has its edge at `at`, the subtree being moved by `acc`.
pub open spec fn attained(
    t: &ArenaTree<String>,
    v: int,
    right: bool,
    base: int,
    acc: int,
    j: int,
    at: int,
) -> bool {
    exists|n: int| #[trigger]
        t.has(v, n) && t.spec_depth(n) - base == j && at == edge(t, n, acc + offset(t, v, n), right)
}

/// The contour `c1` is the contour `c0` extended by the subtree rooted at
/// `v`, whose levels are counted from depth `base` and which is moved by
/// `acc`: at each level it holds the farthest edge among what `c0` held
/// there and the nodes of the subtree at that level, and it has as many
/// levels as `c0` or as the subtree reaches, whichever is more.
pub open spec fn grown(
    t: &ArenaTree<String>,
    v: int,
    right: bool,
    base: int,
    acc: int,
    c0: Seq<i64>,
    c1: Seq<i64>,
) -> bool {
    &&& c1.len() >= c0.len()
    &&& forall|j: int| 0 <= j < c0.len() ==> beats(right, #[trigger] c1[j] as int, c0[j] as int)
    &&& forall|n: int| #[trigger]
        t.has(v, n) ==> 0 <= t.spec_depth(n) - base < c1.len() && beats(
            right,
            c1[t.spec_depth(n) - base] as int,
            edge(t, n, acc + offset(t, v, n), right),
        )
    &&& forall|j: int|
        0 <= j < c1.len() ==> (j < c0.len() && c1[j] == c0[j]) || attained(
            t,
            v,
            right,
            base,
            acc,
            j,
            #[trigger] c1[j] as int,
        )
}

/// `c` is the contour of the subtree rooted at `v`, on the right or on the
/// left: it has one entry for each level that the subtree reaches, that of
/// `v` first, and each entry is the farthest edge of the nodes of that level,
/// each moved by the modifiers on the path from `v` down to it. The entry of
/// `v` is the edge of `v` as for any other node, half its thickness from its
/// middle.
pub open spec fn is_contour(t: &ArenaTree<String>, v: int, right: bool, c: Seq<i64>) -> bool {
    grown(t, v, right, t.spec_depth(v), 0, Seq::<i64>::empty(), c)
}

/// The subtree rooted at `v`, moved by `acc`, can be walked without
/// overflow: its nodes stand within `COORD_LIMIT` of zero, hold at most
/// `NODE_LIMIT` genes, and none is moved by more than 2^61.
pub open spec fn walkable(t: &ArenaTree<String>, v: int, acc: int) -> bool {
    forall|n: int| #[trigger]
        t.has(v, n) ==> {
            &&& -COORD_LIMIT <= t@[n].x <= COORD_LIMIT
            &&& t@[n].nbg <= NODE_LIMIT
            &&& -0x2000_0000_0000_0000 <= acc + offset(t, v, n) <= 0x2000_0000_0000_0000
        }
}

fn xpos(tree: &ArenaTree<String>, index: usize, xmod: i64, operator: i32) -> (pos: i64)
    requires
        index < tree@.len(),
        -COORD_LIMIT <= tree@[index as int].x <= COORD_LIMIT,
        tree@[index as int].nbg <= NODE_LIMIT,
        -0x2000_0000_0000_0000 <= tree@[index as int].xmod + xmod <= 0x2000_0000_0000_0000,
    ensures
        pos == tree@[index as int].x + tree@[index as int].xmod + operator * pipe_half(
            tree@[index as int].nbg as int,
        ) + xmod,
{
    let thick: i64 = PIPEBLOCK * (tree.arena[index].nbg as i64);
    let h: i64 = half_of(thick);
    let op: i64 = operator as i64;
    assert(-0x1000_0000_0000_0000 <= op * h <= 0x1000_0000_0000_0000) by (nonlinear_arith)
        requires
            -0x8000_0000 <= op <= 0x8000_0000,
            0 <= h <= 0x1000_0000,
    ;
    let moved: i128 = tree.arena[index].xmod as i128 + xmod as i128;
    (tree.arena[index].x as i128 + moved + (op * h) as i128) as i64
}

/// The left edge of a node for `operator` -1, its right edge for 1, moved by
/// its own modifier and by `xmod`: `x + xmod + operator * (nbg * PIPEBLOCK /
/// 2)`, and the argument `xmod`.
pub fn node_xpos(tree: &mut ArenaTree<String>, index: usize, xmod: i64, operator: i32) -> (pos: i64)
    requires
        index < old(tree)@.len(),
        -COORD_LIMIT <= old(tree)@[index as int].x <= COORD_LIMIT,
        old(tree)@[index as int].nbg <= NODE_LIMIT,
        -0x2000_0000_0000_0000 <= old(tree)@[index as int].xmod + xmod <= 0x2000_0000_0000_0000,
    ensures
        *final(tree) == *old(tree),
        pos == old(tree)@[index as int].x + old(tree)@[index as int].xmod + operator * pipe_half(
            old(tree)@[index as int].nbg as int,
        ) + xmod,
{
    xpos(tree, index, xmod, operator)
}

pub(crate) fn contour_walk(
    tree: &ArenaTree<String>,
    index: usize,
    level: usize,
    contour: &mut Vec<i64>,
    acc: i64,
    right: bool,
    Ghost(base): Ghost<int>,
)
    requires
        tree.wf(),
        index < tree@.len(),
        tree.binary_from(index as int),
        walkable(tree, index as int, acc as int),
        0 <= base,
        level == tree.spec_depth(index as int) - base,
        old(contour)@.len() >= level,
    ensures
        grown(tree, index as int, right, base, acc as int, old(contour)@, final(contour)@),
    decreases tree@.len() - tree.spec_depth(index as int),
{
    let ghost ls = tree.links();
    let ghost c0 = contour@;
    proof {
        lemma_depth_bound(ls, index as int);
        tree.lemma_binary_here(index as int);
        assert(tree.has(index as int, index as int));
    }
    let total = tree.arena.len();
    let pos = if right {
        xpos(tree, index, acc, 1)
    } else {
        xpos(tree, index, acc, -1)
    };
    assert(pos == edge(tree, index as int, acc + offset(tree, index as int, index as int), right))
        by {
        assert(offset(tree, index as int, index as int) == tree@[index as int].xmod);
    }
    if contour.len() <= level {
        contour.push(pos);
    }
    let held = contour[level];
    if right {
        if pos >= held {
            contour[level] = pos;
        }
    } else {
        if pos <= held {
            contour[level] = pos;
        }
    }
    let ghost c1 = contour@;
    if tree.arena[index].children.len() > 0 {
        let left = tree.arena[index].children[0];
        let rght = tree.arena[index].children[1];
        let below: i64 = acc + tree.arena[index].xmod;
        proof {
            tree.lemma_two_children(index as int);
            assert forall|n: int| #[trigger] tree.has(left as int, n) implies acc + offset(
                tree,
                index as int,
                n,
            ) == below + offset(tree, left as int, n) && tree.has(index as int, n) by {
                lemma_path_sum_child(ls, tree.xmods(), index as int, left as int, n);
            }
            assert forall|n: int| #[trigger] tree.has(rght as int, n) implies acc + offset(
                tree,
                index as int,
                n,
            ) == below + offset(tree, rght as int, n) && tree.has(index as int, n) by {
                lemma_path_sum_child(ls, tree.xmods(), index as int, rght as int, n);
            }
        }
        contour_walk(tree, left, level + 1, contour, below, right, Ghost(base));
        let ghost c2 = contour@;
        contour_walk(tree, rght, level + 1, contour, below, right, Ghost(base));
        let ghost c3 = contour@;
        proof {
            assert forall|n: int| #[trigger] tree.has(index as int, n) implies 0
                <= tree.spec_depth(n) - base < c3.len() && beats(
                right,
                c3[tree.spec_depth(n) - base] as int,
                edge(tree, n, acc + offset(tree, index as int, n), right),
            ) by {
                lemma_subtree_split(ls, index as int, n);
                let j = tree.spec_depth(n) - base;
                let e = edge(tree, n, acc + offset(tree, index as int, n), right);
                if n == index {
                    assert(beats(right, c1[j] as int, e));
                    assert(beats(right, c2[j] as int, c1[j] as int));
                    assert(beats(right, c3[j] as int, c2[j] as int));
                } else if tree.has(left as int, n) {
                    assert(0 <= j < c2.len());
                    assert(beats(right, c2[j] as int, e));
                    assert(beats(right, c3[j] as int, c2[j] as int));
                } else {
                    assert(tree.has(rght as int, n));
                    assert(0 <= j < c3.len());
                    assert(beats(right, c3[j] as int, e));
                }
            }
            assert forall|j: int| 0 <= j < c3.len() implies (j < c0.len() && c3[j] == c0[j])
                || attained(tree, index as int, right, base, acc as int, j, #[trigger] c3[j] as int) by {
                if j < c2.len() && c3[j] == c2[j] {
                    if j < c1.len() && c2[j] == c1[j] {
                        if !(j < c0.len() && c1[j] == c0[j]) {
                            assert(j == level);
                            assert(tree.has(index as int, index as int));
                        }
                    } else {
                        let n = choose|n: int| #[trigger]
                            tree.has(left as int, n) && tree.spec_depth(n) - base == j && c2[j]
                                == edge(tree, n, below + offset(tree, left as int, n), right);
                        assert(tree.has(index as int, n));
                    }
                } else {
                    let n = choose|n: int| #[trigger]
                        tree.has(rght as int, n) && tree.spec_depth(n) - base == j && c3[j]
                            == edge(tree, n, below + offset(tree, rght as int, n), right);
                    assert(tree.has(index as int, n));
                }
            }
            assert forall|j: int| 0 <= j < c0.len() implies beats(
                right,
                #[trigger] c3[j] as int,
                c0[j] as int,
            ) by {
                assert(beats(right, c1[j] as int, c0[j] as int));
                assert(beats(right, c2[j] as int, c1[j] as int));
                assert(beats(right, c3[j] as int, c2[j] as int));
            }
        }
    } else {
        proof {
            assert forall|n: int| #[trigger] tree.has(index as int, n) implies n == index by {
                lemma_subtree_leaf(ls, index as int, n);
            }
            assert forall|j: int| 0 <= j < c1.len() implies (j < c0.len() && c1[j] == c0[j])
                || attained(tree, index as int, right, base, acc as int, j, #[trigger] c1[j] as int) by {
                if !(j < c0.len() && c1[j] == c0[j]) {
                    assert(j == level);
                    assert(tree.has(index as int, index as int));
                }
            }
        }
    }
}

/// No node of the subtree rooted at `v` has a negative horizontal modifier.
pub open spec fn nonneg_from(t: &ArenaTree<String>, v: int) -> bool {
    forall|n: int| #[trigger] t.has(v, n) ==> t@[n].xmod >= 0
}

/// No node below `v` has a negative horizontal modifier.
pub open spec fn nonneg_below(t: &ArenaTree<String>, v: int) -> bool {
    forall|n: int| #[trigger] t.has(v, n) && n != v ==> t@[n].xmod >= 0
}

/// Node `n` is, among the nodes of the subtree rooted at `v` that have a
/// negative horizontal modifier, the one with the least index; where `below`
/// is set, `v` itself is not counted among them.
pub open spec fn first_negative(t: &ArenaTree<String>, v: int, n: int, below: bool) -> bool {
    &&& t.has(v, n)
    &&& below ==> n != v
    &&& t@[n].xmod < 0
    &&& forall|m: int|
        0 <= m < n && #[trigger] t.has(v, m) && (below ==> m != v) ==> t@[m].xmod >= 0
}

pub(crate) fn find_negative(tree: &ArenaTree<String>, index: usize, below: bool) -> (r: Option<
    usize,
>)
    requires
        tree.wf(),
        index < tree@.len(),
    ensures
        match r {
            Some(n) => first_negative(tree, index as int, n as int, below),
            None => if below {
                nonneg_below(tree, index as int)
            } else {
                nonneg_from(tree, index as int)
            },
        },
{
    let mut i: usize = 0;
    while i < tree.arena.len()
        invariant
            tree.wf(),
            index < tree@.len(),
            i <= tree@.len(),
            forall|m: int|
                0 <= m < i && #[trigger] tree.has(index as int, m) && (below ==> m != index)
                    ==> tree@[m].xmod >= 0,
        decreases tree@.len() - i,
    {
        let counted = !(below && i == index);
        if counted && tree.arena[i].xmod < 0 {
            if tree.is_under(index, i) {
                return Some(i);
            }
        }
        i += 1;
    }
    proof {
        if below {
            assert forall|n: int| #[trigger] tree.has(index as int, n) && n
                != index implies tree@[n].xmod >= 0 by {}
        } else {
            assert forall|n: int| #[trigger] tree.has(index as int, n) implies tree@[n].xmod
                >= 0 by {}
        }
    }
    None
}

/// A bounded tree can be walked from any of its nodes, moved by no more than
/// 2^60.
pub proof fn lemma_walkable(t: &ArenaTree<String>, v: int, acc: int)
    requires
        t.wf(),
        t.bounded(),
        -0x1000_0000_0000_0000 <= acc <= 0x1000_0000_0000_0000,
    ensures
        walkable(t, v, acc),
{
    assert forall|n: int| #[trigger] t.has(v, n) implies {
        &&& -COORD_LIMIT <= t@[n].x <= COORD_LIMIT
        &&& t@[n].nbg <= NODE_LIMIT
        &&& -0x2000_0000_0000_0000 <= acc + offset(t, v, n) <= 0x2000_0000_0000_0000
    } by {
        assert(t@[n].bounded());
        assert forall|i: int| 0 <= i < t.xmods().len() implies -0x4000_0000
            <= #[trigger] t.xmods()[i] <= 0x4000_0000 by {
            assert(t@[i].bounded());
        }
        lemma_depth_bound(t.links(), n);
        lemma_path_sum_bound(
            t.links(),
            t.xmods(),
            n,
            (t.spec_depth(n) - t.spec_depth(v)) as nat,
        );
    }
}

fn contour_checked(
    tree: &ArenaTree<String>,
    index: usize,
    depth: usize,
    contour: &mut Vec<i64>,
    parent_xmod: i64,
    right: bool,
) -> (r: Result<(), LayoutError>)
    requires
        tree.wf(),
        index < tree@.len(),
        depth <= tree.spec_depth(index as int),
        old(contour)@.len() >= tree.spec_depth(index as int) - depth,
        tree.binary_from(index as int) ==> tree.bounded() && -0x1000_0000_0000_0000 <= parent_xmod
            <= 0x1000_0000_0000_0000,
    ensures
        match r {
            Ok(()) => tree.binary_from(index as int) && nonneg_from(tree, index as int) && grown(
                tree,
                index as int,
                right,
                depth as int,
                parent_xmod as int,
                old(contour)@,
                final(contour)@,
            ),
            Err(LayoutError::NonBinaryNode(n)) => tree.first_odd(index as int, n as int) && final(contour)@ == old(contour)@,
            Err(LayoutError::NegativeModifierInvariantViolated(n)) => tree.binary_from(
                index as int,
            ) && first_negative(tree, index as int, n as int, false) && final(contour)@ == old(contour)@,
            Err(_) => false,
        },
{
    match tree.find_odd(index) {
        Some(n) => {
            return Err(LayoutError::NonBinaryNode(n));
        },
        None => {},
    }
    match find_negative(tree, index, false) {
        Some(n) => {
            return Err(LayoutError::NegativeModifierInvariantViolated(n));
        },
        None => {},
    }
    let level = tree.depth(index) - depth;
    proof {
        lemma_walkable(tree, index as int, parent_xmod as int);
    }
    contour_walk(tree, index, level, contour, parent_xmod, right, Ghost(depth as int));
    Ok(())
}

/// Extends the left contour `contour_left` by the subtree rooted at `index`,
/// moved by `parent_xmod`; `depth` is the depth from which the levels of the
/// contour are counted. Each level of the contour comes to hold the leftmost
/// left edge among what it held and the nodes of the subtree at that level,
/// an edge lying half the thickness of the pipe from the middle of the node,
/// at the level of `index` as at every other.
///
/// Fails, and changes nothing, where a node of the subtree has one child or
/// more than two, or where a node of the subtree has a negative horizontal
/// modifier.
pub fn get_contour_left(
    tree: &mut ArenaTree<String>,
    index: usize,
    depth: usize,
    contour_left: &mut Vec<i64>,
    parent_xmod: i64,
) -> (r: Result<(), LayoutError>)
    requires
        old(tree).wf(),
        index < old(tree)@.len(),
        depth <= old(tree).spec_depth(index as int),
        old(contour_left)@.len() >= old(tree).spec_depth(index as int) - depth,
        old(tree).binary_from(index as int) ==> old(tree).bounded() && -0x1000_0000_0000_0000
            <= parent_xmod <= 0x1000_0000_0000_0000,
    ensures
        *final(tree) == *old(tree),
        match r {
            Ok(()) => old(tree).binary_from(index as int) && nonneg_from(old(tree), index as int)
                && grown(
                old(tree),
                index as int,
                false,
                depth as int,
                parent_xmod as int,
                old(contour_left)@,
                final(contour_left)@,
            ),
            Err(LayoutError::NonBinaryNode(n)) => old(tree).first_odd(index as int, n as int) && final(contour_left)@ == old(contour_left)@,
            Err(LayoutError::NegativeModifierInvariantViolated(n)) => old(tree).binary_from(index as int) && first_negative(old(tree), index as int, n as int, false) && final(contour_left)@ == old(contour_left)@,
            Err(_) => false,
        },
{
    contour_checked(tree, index, depth, contour_left, parent_xmod, false)
}

/// Extends the right contour `contour_right` by the subtree rooted at
/// `index`, moved by `parent_xmod`; `depth` is the depth from which the
/// levels of the contour are counted. Each level of the contour comes to
/// hold the rightmost right edge among what it held and the nodes of the
/// subtree at that level, an edge lying half the thickness of the pipe from
/// the middle of the node, at the level of `index` as at every other.
///
/// Fails, and changes nothing, where a node of the subtree has one child or
/// more than two, or where a node of the subtree has a negative horizontal
/// modifier.
pub fn get_contour_right(
    tree: &mut ArenaTree<String>,
    index: usize,
    depth: usize,
    contour_right: &mut Vec<i64>,
    parent_xmod: i64,
) -> (r: Result<(), LayoutError>)
    requires
        old(tree).wf(),
        index < old(tree)@.len(),
        depth <= old(tree).spec_depth(index as int),
        old(contour_right)@.len() >= old(tree).spec_depth(index as int) - depth,
        old(tree).binary_from(index as int) ==> old(tree).bounded() && -0x1000_0000_0000_0000
            <= parent_xmod <= 0x1000_0000_0000_0000,
    ensures
        *final(tree) == *old(tree),
        match r {
            Ok(()) => old(tree).binary_from(index as int) && nonneg_from(old(tree), index as int)
                && grown(
                old(tree),
                index as int,
                true,
                depth as int,
                parent_xmod as int,
                old(contour_right)@,
                final(contour_right)@,
            ),
            Err(LayoutError::NonBinaryNode(n)) => old(tree).first_odd(index as int, n as int) && final(contour_right)@ == old(contour_right)@,
            Err(LayoutError::NegativeModifierInvariantViolated(n)) => old(tree).binary_from(index as int) && first_negative(old(tree), index as int, n as int, false) && final(contour_right)@ == old(contour_right)@,
            Err(_) => false,
        },
{
    contour_checked(tree, index, depth, contour_right, parent_xmod, true)
}

} // verus!
