//! The first placement of a tree, level by level, and the cladogram, which
//! brings every leaf down to one row.

use vstd::prelude::*;
use crate::arena::{lemma_same_links, same_shape, ArenaTree};
use crate::event::{Event, LayoutError};
use crate::node::{BLOCK, NODE_LIMIT};
use crate::shape::{lemma_depth_bound, lemma_subtree_leaf, lemma_subtree_split};

verus! {

/// The first placement of the subtree rooted at `v`, from the nodes `a` to
/// the nodes `b`: a node that lies `k` levels below `v` is at height
/// `BLOCK * (d + k)`; a left child is at 0 and a right child at `BLOCK`, the
/// root `v` stays where it was; nothing else changes.
pub open spec fn laid_out(a: &ArenaTree<String>, b: &ArenaTree<String>, v: int, d: int) -> bool {
    &&& same_shape(a@, b@)
    &&& forall|n: int|
        0 <= n < a@.len() ==> if a.has(v, n) {
            &&& (#[trigger] b@[n]).same_but(a@[n], true, true, false)
            &&& b@[n].y == BLOCK * (d + a.spec_depth(n) - a.spec_depth(v))
            &&& b@[n].x == if n == v {
                a@[n].x as int
            } else if a.left_child(n) {
                0
            } else {
                BLOCK as int
            }
        } else {
            b@[n] == a@[n]
        }
}

/// The depth `m` is the larger of `floor` and the depth of the deepest node
/// below `v`.
pub open spec fn is_deepest(t: &ArenaTree<String>, v: int, floor: int, m: int) -> bool {
    &&& m >= floor
    &&& forall|n: int| #[trigger] t.has(v, n) && n != v ==> t.spec_depth(n) <= m
    &&& (m == floor || exists|n: int| #[trigger] t.has(v, n) && n != v && t.spec_depth(n) == m)
}

/// The leaves of the subtree rooted at `v` are brought to the bottom, from
/// the nodes `a` to the nodes `b`: a leaf is at height `BLOCK * (m + 1)`, or
/// at `BLOCK * m` where its event is a loss; nothing else changes.
pub open spec fn leaves_pinned(a: &ArenaTree<String>, b: &ArenaTree<String>, v: int, m: int) -> bool {
    &&& same_shape(a@, b@)
    &&& forall|n: int|
        0 <= n < a@.len() ==> if a.has(v, n) && a.leaf_at(n) {
            &&& (#[trigger] b@[n]).same_but(a@[n], false, true, false)
            &&& b@[n].y == if a@[n].e == Event::Loss {
                BLOCK * m
            } else {
                BLOCK * (m + 1)
            }
        } else {
            b@[n] == a@[n]
        }
}

/// Node `r` is the only node of the tree without a parent.
pub open spec fn is_only_root(t: &ArenaTree<String>, r: int) -> bool {
    &&& 0 <= r < t@.len()
    &&& t@[r].parent.is_none()
    &&& forall|j: int| 0 <= j < t@.len() && j != r ==> (#[trigger] t@[j]).parent.is_some()
}

/// Node `n` is, among the nodes under the only root of the tree that have
/// one child or more than two, the one with the least index.
pub open spec fn odd_under_root(t: &ArenaTree<String>, n: int) -> bool {
    exists|root: int| is_only_root(t, root) && #[trigger] t.first_odd(root, n)
}

fn knuth_place(tree: &mut ArenaTree<String>, index: usize, depth: usize)
    requires
        old(tree).wf(),
        index < old(tree)@.len(),
        old(tree).binary_from(index as int),
        old(tree)@.len() <= NODE_LIMIT,
        depth + (old(tree)@.len() - old(tree).spec_depth(index as int)) <= 2 * NODE_LIMIT,
    ensures
        laid_out(old(tree), final(tree), index as int, depth as int),
        final(tree).links() == old(tree).links(),
    decreases old(tree)@.len() - old(tree).spec_depth(index as int),
{
    let ghost t0 = *tree;
    let ghost ls = tree.links();
    proof {
        lemma_depth_bound(ls, index as int);
        tree.lemma_binary_here(index as int);
    }
    let level: i64 = depth as i64;
    tree.arena[index].y = BLOCK * level;
    proof {
        assert(same_shape(t0@, tree@));
        lemma_same_links(t0@, tree@);
    }
    if tree.arena[index].children.len() > 0 {
        let son_left = tree.arena[index].children[0];
        let son_right = tree.arena[index].children[1];
        proof {
            t0.lemma_two_children(index as int);
        }
        tree.arena[son_left].x = 0;
        tree.arena[son_right].x = BLOCK;
        let ghost t1 = *tree;
        proof {
            assert(same_shape(t0@, t1@));
            lemma_same_links(t0@, t1@);
        }
        knuth_place(tree, son_left, depth + 1);
        let ghost t2 = *tree;
        knuth_place(tree, son_right, depth + 1);
        proof {
            assert forall|n: int| 0 <= n < t0@.len() implies if t0.has(index as int, n) {
                &&& (#[trigger] tree@[n]).same_but(t0@[n], true, true, false)
                &&& tree@[n].y == BLOCK * (depth + t0.spec_depth(n) - t0.spec_depth(index as int))
                &&& tree@[n].x == if n == index {
                    t0@[n].x as int
                } else if t0.left_child(n) {
                    0
                } else {
                    BLOCK as int
                }
            } else {
                tree@[n] == t0@[n]
            } by {
                lemma_subtree_split(ls, index as int, n);
                assert(t2@[n].same_fixed(t1@[n]));
                assert(t1@[n].same_fixed(t0@[n]));
            }
            assert(same_shape(t0@, tree@));
        }
    } else {
        proof {
            assert forall|n: int| 0 <= n < t0@.len() && t0.has(index as int, n) implies n
                == index by {
                lemma_subtree_leaf(ls, index as int, n);
            }
        }
    }
}

/// Places the subtree rooted at `index` level by level, its root at level
/// `depth`: each node gets its height from its level, and each child its
/// side, 0 for a left child and one block for a right one.
///
/// Fails, and changes nothing, where a node of the subtree has one child or
/// more than two, whatever the size of the tree: the limits are asked only
/// of a subtree that is accepted.
pub fn knuth_layout(tree: &mut ArenaTree<String>, index: usize, depth: &mut usize) -> (r: Result<
    (),
    LayoutError,
>)
    requires
        old(tree).wf(),
        index < old(tree)@.len(),
        old(tree).binary_from(index as int) ==> old(tree)@.len() <= NODE_LIMIT && *old(depth)
            <= NODE_LIMIT,
    ensures
        *final(depth) == *old(depth),
        match r {
            Ok(()) => old(tree).binary_from(index as int) && laid_out(
                old(tree),
                final(tree),
                index as int,
                *old(depth) as int,
            ),
            Err(LayoutError::NonBinaryNode(n)) => old(tree).first_odd(index as int, n as int) && *final(tree) == *old(tree),
            Err(_) => false,
        },
{
    match tree.find_odd(index) {
        Some(n) => {
            return Err(LayoutError::NonBinaryNode(n));
        },
        None => {},
    }
    knuth_place(tree, index, *depth);
    Ok(())
}

fn deepest_below(tree: &ArenaTree<String>, index: usize, max: usize) -> (m: usize)
    requires
        tree.wf(),
        index < tree@.len(),
        tree.binary_from(index as int),
    ensures
        is_deepest(tree, index as int, max as int, m as int),
    decreases tree@.len() - tree.spec_depth(index as int),
{
    let ghost ls = tree.links();
    proof {
        lemma_depth_bound(ls, index as int);
        tree.lemma_binary_here(index as int);
    }
    if tree.arena[index].children.len() > 0 {
        let son_left = tree.arena[index].children[0];
        let son_right = tree.arena[index].children[1];
        proof {
            tree.lemma_two_children(index as int);
        }
        let mut m = max;
        let below = tree.depth(son_left);
        if below > m {
            m = below;
        }
        let m1 = deepest_below(tree, son_left, m);
        let m2 = deepest_below(tree, son_right, m1);
        proof {
            assert(is_deepest(tree, son_left as int, m as int, m1 as int));
            assert(is_deepest(tree, son_right as int, m1 as int, m2 as int));
            assert forall|n: int| #[trigger] tree.has(index as int, n) && n != index implies tree.spec_depth(n)
                <= m2 by {
                lemma_subtree_split(ls, index as int, n);
                if tree.has(son_left as int, n) {
                    if n != son_left {
                        assert(tree.spec_depth(n) <= m1);
                    }
                } else {
                    assert(tree.has(son_right as int, n));
                    if n != son_right {
                        assert(tree.spec_depth(n) <= m2);
                    }
                }
            }
            if m2 != max {
                let w = if m2 != m1 {
                    choose|n: int| #[trigger]
                        tree.has(son_right as int, n) && n != son_right && tree.spec_depth(n)
                            == m2
                } else if m1 != m {
                    choose|n: int| #[trigger]
                        tree.has(son_left as int, n) && n != son_left && tree.spec_depth(n) == m1
                } else {
                    son_left as int
                };
                lemma_subtree_split(ls, index as int, w);
                assert(tree.has(index as int, w) && w != index && tree.spec_depth(w) == m2);
            }
        }
        m2
    } else {
        proof {
            assert forall|n: int| #[trigger] tree.has(index as int, n) implies n == index by {
                lemma_subtree_leaf(ls, index as int, n);
            }
        }
        max
    }
}

/// The depth of the deepest node below `index`, or `max` where that is
/// larger; `max` is raised to it.
///
/// Fails where a node of the subtree has one child or more than two.
pub fn get_maxdepth(tree: &mut ArenaTree<String>, index: usize, max: &mut usize) -> (r: Result<
    usize,
    LayoutError,
>)
    requires
        old(tree).wf(),
        index < old(tree)@.len(),
    ensures
        *final(tree) == *old(tree),
        match r {
            Ok(m) => old(tree).binary_from(index as int) && *final(max) == m && is_deepest(
                old(tree),
                index as int,
                *old(max) as int,
                m as int,
            ),
            Err(LayoutError::NonBinaryNode(n)) => old(tree).first_odd(index as int, n as int) && *final(max) == *old(max),
            Err(_) => false,
        },
{
    match tree.find_odd(index) {
        Some(n) => {
            return Err(LayoutError::NonBinaryNode(n));
        },
        None => {},
    }
    let m = deepest_below(tree, index, *max);
    *max = m;
    Ok(m)
}

fn pin_leaves(tree: &mut ArenaTree<String>, index: usize, max: usize)
    requires
        old(tree).wf(),
        index < old(tree)@.len(),
        old(tree).binary_from(index as int),
        max <= NODE_LIMIT,
    ensures
        leaves_pinned(old(tree), final(tree), index as int, max as int),
        final(tree).links() == old(tree).links(),
    decreases old(tree)@.len() - old(tree).spec_depth(index as int),
{
    let ghost t0 = *tree;
    let ghost ls = tree.links();
    proof {
        lemma_depth_bound(ls, index as int);
        tree.lemma_binary_here(index as int);
    }
    if tree.arena[index].children.len() > 0 {
        let son_left = tree.arena[index].children[0];
        let son_right = tree.arena[index].children[1];
        proof {
            t0.lemma_two_children(index as int);
        }
        pin_leaves(tree, son_left, max);
        let ghost t1 = *tree;
        pin_leaves(tree, son_right, max);
        proof {
            assert forall|n: int| 0 <= n < t0@.len() implies if t0.has(index as int, n)
                && t0.leaf_at(n) {
                &&& (#[trigger] tree@[n]).same_but(t0@[n], false, true, false)
                &&& tree@[n].y == if t0@[n].e == Event::Loss {
                    BLOCK * max
                } else {
                    BLOCK * (max + 1)
                }
            } else {
                tree@[n] == t0@[n]
            } by {
                lemma_subtree_split(ls, index as int, n);
                assert(t1@[n].same_fixed(t0@[n]));
            }
            assert(same_shape(t0@, tree@));
        }
    } else {
        let level: i64 = max as i64;
        match tree.arena[index].e {
            Event::Loss => {
                tree.arena[index].y = BLOCK * level;
            },
            _ => {
                tree.arena[index].y = BLOCK * (level + 1);
            },
        }
        proof {
            assert forall|n: int| 0 <= n < t0@.len() && t0.has(index as int, n) implies n
                == index by {
                lemma_subtree_leaf(ls, index as int, n);
            }
            assert(same_shape(t0@, tree@));
            lemma_same_links(t0@, tree@);
        }
    }
}

/// Brings the leaves of the subtree rooted at `index` to the row below level
/// `max`; a leaf whose event is a loss stops one row higher.
///
/// Fails, and changes nothing, where a node of the subtree has one child or
/// more than two.
pub fn set_leaves_to_bottom(tree: &mut ArenaTree<String>, index: usize, max: &mut usize) -> (r:
    Result<(), LayoutError>)
    requires
        old(tree).wf(),
        index < old(tree)@.len(),
        old(tree).binary_from(index as int) ==> *old(max) <= NODE_LIMIT,
    ensures
        *final(max) == *old(max),
        match r {
            Ok(()) => old(tree).binary_from(index as int) && leaves_pinned(
                old(tree),
                final(tree),
                index as int,
                *old(max) as int,
            ),
            Err(LayoutError::NonBinaryNode(n)) => old(tree).first_odd(index as int, n as int) && *final(tree) == *old(tree),
            Err(_) => false,
        },
{
    match tree.find_odd(index) {
        Some(n) => {
            return Err(LayoutError::NonBinaryNode(n));
        },
        None => {},
    }
    pin_leaves(tree, index, *max);
    Ok(())
}

/// Turns the tree into a cladogram: every leaf is brought to the row below
/// the deepest node, a leaf whose event is a loss one row higher.
///
/// Fails, and changes nothing, where the tree has no root or several, or
/// where a node under the root has one child or more than two.
pub fn cladogramme(tree: &mut ArenaTree<String>) -> (r: Result<(), LayoutError>)
    requires
        old(tree).wf(),
        forall|root: int| #[trigger]
            is_only_root(old(tree), root) && old(tree).binary_from(root) ==> old(tree)@.len()
                <= NODE_LIMIT,
    ensures
        match r {
            Ok(()) => exists|root: int, m: int|
                is_only_root(old(tree), root) && old(tree).binary_from(root) && is_deepest(
                    old(tree),
                    root,
                    0,
                    m,
                ) && #[trigger] leaves_pinned(old(tree), final(tree), root, m),
            Err(LayoutError::NoRoot) => *final(tree) == *old(tree) && forall|j: int|
                0 <= j < old(tree)@.len() ==> (#[trigger] old(tree)@[j]).parent.is_some(),
            Err(LayoutError::MultipleRoots) => *final(tree) == *old(tree) && exists|j: int, k: int|
                0 <= j < k < old(tree)@.len() && (#[trigger] old(tree)@[j]).parent.is_none() && (
                #[trigger] old(tree)@[k]).parent.is_none(),
            Err(LayoutError::NonBinaryNode(n)) => *final(tree) == *old(tree) && odd_under_root(
                old(tree),
                n as int,
            ),
            Err(_) => false,
        },
{
    let ghost t0 = *tree;
    let root = match tree.get_root() {
        Ok(root) => root,
        Err(e) => {
            return Err(e);
        },
    };
    assert(is_only_root(&t0, root as int));
    match tree.find_odd(root) {
        Some(n) => {
            assert(is_only_root(&t0, root as int) && t0.first_odd(root as int, n as int));
            return Err(LayoutError::NonBinaryNode(n));
        },
        None => {},
    }
    let max_depth = deepest_below(tree, root, 0);
    proof {
        if max_depth != 0 {
            let n = choose|n: int| #[trigger]
                t0.has(root as int, n) && n != root && t0.spec_depth(n) == max_depth;
            lemma_depth_bound(t0.links(), n);
        }
    }
    pin_leaves(tree, root, max_depth);
    assert(leaves_pinned(&t0, tree, root as int, max_depth as int));
    Ok(())
}

} // verus!
