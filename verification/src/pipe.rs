//! The species tree as a pipe: how thick each node is, and how far children
//! are pushed down so that the pipes of parent and child do not collide.

use vstd::prelude::*;
use crate::arena::{lemma_same_links, same_shape, ArenaTree};
use crate::event::LayoutError;
use crate::node::{half, half_of, reach, Noeud, COORD_LIMIT, NODE_LIMIT, PIPEBLOCK};
use crate::shape::{
    lemma_depth_bound, lemma_subtree_child, lemma_subtree_leaf, lemma_subtree_split,
};

verus! {

/// The thickness of the pipe of a species node to which `nbg` gene nodes are
/// mapped: one pipe unit for each, and one at least.
pub open spec fn pipe_size(nbg: int) -> int {
    if nbg > 0 {
        15 * nbg
    } else {
        15
    }
}

/// Each node of `b` is the node of `a` with a pipe as thick, both ways, as
/// the number of its genes asks.
pub open spec fn sized(a: &ArenaTree<String>, b: &ArenaTree<String>) -> bool {
    &&& a@.len() == b@.len()
    &&& forall|n: int|
        0 <= n < a@.len() ==> {
            &&& (#[trigger] b@[n]).same_fixed(a@[n])
            &&& b@[n].same_place(a@[n])
            &&& b@[n].width == pipe_size(a@[n].nbg as int)
            &&& b@[n].height == pipe_size(a@[n].nbg as int)
        }
}

/// Sets the width and the height of the pipe of every node from the number
/// of gene nodes mapped to it.
pub fn set_species_width(sp_tree: &mut ArenaTree<String>)
    requires
        forall|n: int| 0 <= n < old(sp_tree)@.len() ==> (#[trigger] old(sp_tree)@[n]).nbg <= NODE_LIMIT,
    ensures
        sized(old(sp_tree), final(sp_tree)),
{
    let ghost t0 = *sp_tree;
    let mut i: usize = 0;
    while i < sp_tree.arena.len()
        invariant
            i <= t0@.len(),
            sp_tree@.len() == t0@.len(),
            forall|n: int| 0 <= n < t0@.len() ==> (#[trigger] t0@[n]).nbg <= NODE_LIMIT,
            forall|n: int| i <= n < t0@.len() ==> sp_tree@[n] == t0@[n],
            forall|n: int|
                0 <= n < i ==> {
                    &&& (#[trigger] sp_tree@[n]).same_fixed(t0@[n])
                    &&& sp_tree@[n].same_place(t0@[n])
                    &&& sp_tree@[n].width == pipe_size(t0@[n].nbg as int)
                    &&& sp_tree@[n].height == pipe_size(t0@[n].nbg as int)
                },
        decreases t0@.len() - i,
    {
        let nbg = sp_tree.arena[i].nbg;
        assert(t0@[i as int].nbg <= NODE_LIMIT);
        if nbg > 0 {
            let size: i64 = PIPEBLOCK * (nbg as i64);
            sp_tree.arena[i].width = size;
            sp_tree.arena[i].height = size;
        } else {
            sp_tree.arena[i].width = PIPEBLOCK;
            sp_tree.arena[i].height = PIPEBLOCK;
        }
        i += 1;
    }
}

/// The upper edge of the pipe of a node for `operator` -1, its lower edge
/// for 1: `y + ymod + operator * (height / 2)`.
pub fn node_ypos(tree: &mut ArenaTree<String>, index: usize, operator: i32) -> (pos: i64)
    requires
        index < old(tree)@.len(),
        -0x1000_0000_0000_0000 <= old(tree)@[index as int].y <= 0x1000_0000_0000_0000,
        -COORD_LIMIT <= old(tree)@[index as int].ymod <= COORD_LIMIT,
        0 <= old(tree)@[index as int].height <= COORD_LIMIT,
    ensures
        *final(tree) == *old(tree),
        pos == old(tree)@[index as int].y + old(tree)@[index as int].ymod + operator * half(
            old(tree)@[index as int].height as int,
        ),
{
    let h: i64 = half_of(tree.arena[index].height);
    let op: i64 = operator as i64;
    assert(-0x2000_0000_0000_0000 <= op * h <= 0x2000_0000_0000_0000) by (nonlinear_arith)
        requires
            -0x8000_0000 <= op <= 0x8000_0000,
            0 <= h <= 0x2000_0000,
    ;
    tree.arena[index].y + tree.arena[index].ymod + op * h
}

/// How far the children `l` and `r` of `p` are pushed down: not at all where
/// the upper edge of each lies below the lower edge of `p`; otherwise by the
/// larger of the two overlaps, or by one pipe unit where that is more, and
/// by four pipe units on top.
pub open spec fn drop_of(p: Noeud<String>, l: Noeud<String>, r: Noeud<String>) -> int {
    let left = p.lower_edge() - l.upper_edge();
    let right = p.lower_edge() - r.upper_edge();
    let most = if left > right {
        left
    } else {
        right
    };
    if left >= 0 || right >= 0 {
        (if most <= 15 {
            15
        } else {
            most
        }) + 4 * 15
    } else {
        0
    }
}

/// The nodes `left` and `right` are pushed down, from the nodes `a` to the
/// nodes `b`, as far as `parent` asks; nothing else changes.
pub open spec fn pushed_down(
    a: &ArenaTree<String>,
    b: &ArenaTree<String>,
    parent: int,
    left: int,
    right: int,
) -> bool {
    let d = drop_of(a@[parent], a@[left], a@[right]);
    &&& same_shape(a@, b@)
    &&& forall|n: int|
        0 <= n < a@.len() ==> {
            &&& (#[trigger] b@[n]).same_but(a@[n], false, true, false)
            &&& b@[n].y == a@[n].y + (if n == left {
                d
            } else {
                0
            }) + (if n == right {
                d
            } else {
                0
            })
        }
}

/// The node can take part in a push: its height is far from the limits of
/// the machine, its vertical modifier and its pipe are bounded.
pub open spec fn pushable(n: Noeud<String>) -> bool {
    &&& -0x1000_0000_0000_0000 <= n.y <= 0x1000_0000_0000_0000
    &&& -COORD_LIMIT <= n.ymod <= COORD_LIMIT
    &&& 0 <= n.height <= COORD_LIMIT
}

/// Pushes `left` and `right` down where the pipe of either touches or
/// overlaps the pipe of `parent`.
pub fn push_down(tree: &mut ArenaTree<String>, parent: usize, left: usize, right: usize)
    requires
        parent < old(tree)@.len(),
        left < old(tree)@.len(),
        right < old(tree)@.len(),
        pushable(old(tree)@[parent as int]),
        pushable(old(tree)@[left as int]),
        pushable(old(tree)@[right as int]),
    ensures
        pushed_down(old(tree), final(tree), parent as int, left as int, right as int),
{
    let ghost t0 = *tree;
    let node_parent_down_pos = node_ypos(tree, parent, 1);
    let node_left_up_pos = node_ypos(tree, left, -1);
    let node_right_up_pos = node_ypos(tree, right, -1);
    if (node_left_up_pos <= node_parent_down_pos) || (node_right_up_pos <= node_parent_down_pos) {
        let shift_left: i64 = node_parent_down_pos - node_left_up_pos;
        let shift_right: i64 = node_parent_down_pos - node_right_up_pos;
        let mut shift_down: i64 = if shift_left > shift_right {
            shift_left
        } else {
            shift_right
        };
        if shift_down <= PIPEBLOCK {
            shift_down = PIPEBLOCK;
        }
        let shift_down: i64 = shift_down + 4 * PIPEBLOCK;
        assert(shift_down == drop_of(t0@[parent as int], t0@[left as int], t0@[right as int]));
        let y: i64 = tree.arena[left].y;
        tree.arena[left].y = y + shift_down;
        let y: i64 = tree.arena[right].y;
        tree.arena[right].y = y + shift_down;
    }
}

/// In `b`, the children of node `n` lie lower than in `a` by what `n`, as it
/// is in `b`, asks of them as they are in `a`.
pub open spec fn drop_at(a: &ArenaTree<String>, b: &ArenaTree<String>, n: int) -> bool {
    let d = drop_of(b@[n], a@[a.left_of(n)], a@[a.right_of(n)]);
    &&& b@[a.left_of(n)].y == a@[a.left_of(n)].y + d
    &&& b@[a.right_of(n)].y == a@[a.right_of(n)].y + d
}

/// The pipes of the subtree rooted at `v` are cleared from the root down,
/// from the nodes `a` to the nodes `b`: the children of each node are pushed
/// down as far as that node asks once it has itself been pushed; the root
/// `v` stays where it is, and nothing but heights changes.
pub open spec fn lowered(a: &ArenaTree<String>, b: &ArenaTree<String>, v: int) -> bool {
    &&& same_shape(a@, b@)
    &&& forall|n: int|
        0 <= n < a@.len() ==> if a.has(v, n) && n != v {
            (#[trigger] b@[n]).same_but(a@[n], false, true, false)
        } else {
            b@[n] == a@[n]
        }
    &&& forall|n: int| a.has(v, n) && !a.leaf_at(n) ==> #[trigger] drop_at(a, b, n)
}

fn lower_children(tree: &mut ArenaTree<String>, index: usize)
    requires
        old(tree).wf(),
        index < old(tree)@.len(),
        old(tree).binary_from(index as int),
        old(tree)@.len() <= NODE_LIMIT,
        forall|n: int| #[trigger]
            old(tree).has(index as int, n) ==> -COORD_LIMIT <= old(tree)@[n].ymod <= COORD_LIMIT
                && 0 <= old(tree)@[n].height <= COORD_LIMIT && (n != index ==> -COORD_LIMIT
                <= old(tree)@[n].y <= COORD_LIMIT),
        -reach(1 + 8 * old(tree).spec_depth(index as int)) <= old(tree)@[index as int].y <= reach(
            1 + 8 * old(tree).spec_depth(index as int),
        ),
    ensures
        lowered(old(tree), final(tree), index as int),
        final(tree).links() == old(tree).links(),
    decreases old(tree)@.len() - old(tree).spec_depth(index as int),
{
    let ghost t0 = *tree;
    let ghost ls = tree.links();
    proof {
        lemma_depth_bound(ls, index as int);
        tree.lemma_binary_here(index as int);
        assert(t0.has(index as int, index as int));
    }
    if tree.arena[index].children.len() > 0 {
        let left = tree.arena[index].children[0];
        let right = tree.arena[index].children[1];
        proof {
            t0.lemma_two_children(index as int);
        }
        push_down(tree, index, left, right);
        let ghost t1 = *tree;
        proof {
            lemma_same_links(t0@, t1@);
            assert(drop_at(&t0, &t1, index as int));
            assert forall|n: int| #[trigger] t1.has(left as int, n) implies -COORD_LIMIT
                <= t1@[n].ymod <= COORD_LIMIT && 0 <= t1@[n].height <= COORD_LIMIT && (n != left
                ==> -COORD_LIMIT <= t1@[n].y <= COORD_LIMIT) by {
                lemma_subtree_split(ls, index as int, n);
                assert(t0.has(index as int, n));
            }
        }
        lower_children(tree, left);
        let ghost t2 = *tree;
        proof {
            assert forall|n: int| #[trigger] t2.has(right as int, n) implies -COORD_LIMIT
                <= t2@[n].ymod <= COORD_LIMIT && 0 <= t2@[n].height <= COORD_LIMIT && (n != right
                ==> -COORD_LIMIT <= t2@[n].y <= COORD_LIMIT) by {
                lemma_subtree_split(ls, index as int, n);
                assert(t0.has(index as int, n));
                assert(t2@[n] == t1@[n]);
            }
        }
        lower_children(tree, right);
        proof {
            assert(same_shape(t0@, tree@)) by {
                assert forall|i: int| 0 <= i < t0@.len() implies (#[trigger] t0@[i]).same_fixed(
                    tree@[i],
                ) by {
                    assert(tree@[i].same_fixed(t2@[i]));
                    assert(t2@[i].same_fixed(t1@[i]));
                    assert(t1@[i].same_fixed(t0@[i]));
                }
            }
            assert forall|n: int| 0 <= n < t0@.len() implies if t0.has(index as int, n) && n
                != index {
                (#[trigger] tree@[n]).same_but(t0@[n], false, true, false)
            } else {
                tree@[n] == t0@[n]
            } by {
                lemma_subtree_split(ls, index as int, n);
                assert(t2@[n].same_fixed(t1@[n]));
                assert(t1@[n].same_fixed(t0@[n]));
            }
            assert forall|n: int| t0.has(index as int, n) && !t0.leaf_at(n) implies #[trigger] drop_at(
                &t0,
                tree,
                n,
            ) by {
                lemma_subtree_split(ls, index as int, n);
                lemma_subtree_split(ls, index as int, left as int);
                lemma_subtree_split(ls, index as int, right as int);
                if n != index {
                    t0.lemma_binary_here_in(index as int, n);
                    t0.lemma_two_children(n);
                    let c = if t0.has(left as int, n) {
                        left as int
                    } else {
                        right as int
                    };
                    lemma_subtree_child(ls, c, n, t0.left_of(n));
                    lemma_subtree_child(ls, c, n, t0.right_of(n));
                    lemma_subtree_split(ls, index as int, t0.left_of(n));
                    lemma_subtree_split(ls, index as int, t0.right_of(n));
                    if c == left {
                        assert(drop_at(&t1, &t2, n));
                    } else {
                        assert(t2.has(right as int, n));
                        assert(drop_at(&t2, tree, n));
                    }
                }
            }
        }
    } else {
        proof {
            assert forall|n: int| 0 <= n < t0@.len() && t0.has(index as int, n) implies n
                == index by {
                lemma_subtree_leaf(ls, index as int, n);
            }
            assert(same_shape(t0@, tree@));
        }
    }
}

/// Clears the pipes of the subtree rooted at `index`, from the root down:
/// the children of each node are pushed down where their pipes touch or
/// overlap the pipe of the node, then the same is done below each child.
/// The argument `ymod` has no part in it.
///
/// Fails, and changes nothing, where a node of the subtree has one child or
/// more than two.
pub fn check_vertical_contour_postorder(tree: &mut ArenaTree<String>, index: usize, ymod: i64) -> (r:
    Result<(), LayoutError>)
    requires
        old(tree).wf(),
        old(tree).binary_from(index as int) ==> old(tree).bounded(),
        index < old(tree)@.len(),
    ensures
        match r {
            Ok(()) => old(tree).binary_from(index as int) && lowered(
                old(tree),
                final(tree),
                index as int,
            ),
            Err(LayoutError::NonBinaryNode(n)) => old(tree).first_odd(index as int, n as int) && *final(tree) == *old(tree),
            Err(_) => false,
        },
{
    match tree.find_odd(index) {
        Some(n) => {
            return Err(LayoutError::NonBinaryNode(n));
        },
        None => {},
    }
    proof {
        assert forall|n: int| 0 <= n < tree@.len() implies (#[trigger] tree@[n]).bounded() by {}
    }
    lower_children(tree, index);
    Ok(())
}

} // verus!
