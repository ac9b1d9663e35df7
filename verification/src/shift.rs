//! From modifiers to coordinates, and each parent over the middle of its
//! children.

use vstd::prelude::*;
use crate::arena::{lemma_same_links, same_shape, ArenaTree};
use crate::contour::offset;
use crate::event::LayoutError;
use crate::node::{half, half_of, reach, COORD_LIMIT, NODE_LIMIT};
use crate::shape::{
    lemma_depth_bound, lemma_path_sum_bound, lemma_path_sum_child, lemma_subtree_child,
    lemma_subtree_leaf, lemma_subtree_split, path_sum,
};

verus! {

/// The modifiers of the subtree rooted at `v` are applied, from the nodes `a`
/// to the nodes `b`: each node of the subtree moves by `(dx, dy)` and by the
/// modifiers of every node on the path from `v` down to it, both included;
/// nothing else changes.
pub open spec fn shifted(a: &ArenaTree<String>, b: &ArenaTree<String>, v: int, dx: int, dy: int) -> bool {
    &&& same_shape(a@, b@)
    &&& forall|n: int|
        0 <= n < a@.len() ==> if a.has(v, n) {
            &&& (#[trigger] b@[n]).same_but(a@[n], true, true, false)
            &&& b@[n].x == a@[n].x + dx + path_sum(
                a.links(),
                a.xmods(),
                n,
                (a.spec_depth(n) - a.spec_depth(v)) as nat,
            )
            &&& b@[n].y == a@[n].y + dy + path_sum(
                a.links(),
                a.ymods(),
                n,
                (a.spec_depth(n) - a.spec_depth(v)) as nat,
            )
        } else {
            b@[n] == a@[n]
        }
}

/// Each parent of the subtree rooted at `v` is centred over its children,
/// from the nodes `a` to the nodes `b`: a node with children stands halfway
/// between where its two children stand in `b`, and its modifier is that of
/// its right child in `b` and the distance it moved; nothing else changes.
pub open spec fn centered(a: &ArenaTree<String>, b: &ArenaTree<String>, v: int) -> bool {
    &&& same_shape(a@, b@)
    &&& forall|n: int|
        0 <= n < a@.len() ==> if a.has(v, n) && !a.leaf_at(n) {
            (#[trigger] b@[n]).same_but(a@[n], true, false, true)
        } else {
            b@[n] == a@[n]
        }
    &&& forall|n: int| a.has(v, n) && !a.leaf_at(n) ==> #[trigger] centre_at(a, b, n)
}

/// In `b`, node `n` stands halfway between its two children, and its
/// modifier is that of its right child and the distance it moved from where
/// it stood in `a`.
pub open spec fn centre_at(a: &ArenaTree<String>, b: &ArenaTree<String>, n: int) -> bool {
    &&& b@[n].x == half(b@[a.left_of(n)].x + b@[a.right_of(n)].x)
    &&& b@[n].xmod == b@[a.right_of(n)].xmod + b@[n].x - a@[n].x
}

/// How far horizontal modifiers, alone or summed along a path, may lead.
pub open spec fn wide() -> int {
    0x1000_0000_0000_0000
}

/// The modifiers of the subtree rooted at `v` can be applied, after a move
/// by `dx`: the tree has at most `NODE_LIMIT` nodes; each node of the
/// subtree stands within `COORD_LIMIT` of zero and has a vertical modifier
/// within `COORD_LIMIT` of zero; and `dx` and the horizontal modifiers on
/// the path from `v` down to it, summed, lie within `wide()` of zero.
pub open spec fn shiftable(t: &ArenaTree<String>, v: int, dx: int) -> bool {
    &&& t@.len() <= NODE_LIMIT
    &&& forall|n: int| #[trigger]
        t.has(v, n) ==> {
            &&& -COORD_LIMIT <= t@[n].x <= COORD_LIMIT
            &&& -COORD_LIMIT <= t@[n].y <= COORD_LIMIT
            &&& -COORD_LIMIT <= t@[n].ymod <= COORD_LIMIT
            &&& -wide() <= dx + offset(t, v, n) <= wide()
        }
}

/// The modifiers of a bounded tree can be applied, after a move within
/// `COORD_LIMIT`.
pub proof fn lemma_bounded_shiftable(t: &ArenaTree<String>, v: int, dx: int)
    requires
        t.wf(),
        t.bounded(),
        -COORD_LIMIT <= dx <= COORD_LIMIT,
    ensures
        shiftable(t, v, dx),
{
    assert forall|n: int| #[trigger] t.has(v, n) implies {
        &&& -COORD_LIMIT <= t@[n].x <= COORD_LIMIT
        &&& -COORD_LIMIT <= t@[n].y <= COORD_LIMIT
        &&& -COORD_LIMIT <= t@[n].ymod <= COORD_LIMIT
        &&& -wide() <= dx + offset(t, v, n) <= wide()
    } by {
        assert(t@[n].bounded());
        lemma_depth_bound(t.links(), n);
        assert forall|i: int| 0 <= i < t.xmods().len() implies -0x4000_0000 <= #[trigger] t.xmods()[i]
            <= 0x4000_0000 by {
            assert(t@[i].bounded());
        }
        lemma_path_sum_bound(
            t.links(),
            t.xmods(),
            n,
            (t.spec_depth(n) - t.spec_depth(v)) as nat,
        );
    }
}

fn shift_place(tree: &mut ArenaTree<String>, index: usize, xmod: i64, ymod: i64)
    requires
        old(tree).wf(),
        index < old(tree)@.len(),
        old(tree).binary_from(index as int),
        shiftable(old(tree), index as int, xmod as int),
        -reach(1 + old(tree).spec_depth(index as int)) <= ymod <= reach(
            1 + old(tree).spec_depth(index as int),
        ),
    ensures
        shifted(old(tree), final(tree), index as int, xmod as int, ymod as int),
        final(tree).links() == old(tree).links(),
    decreases old(tree)@.len() - old(tree).spec_depth(index as int),
{
    let ghost t0 = *tree;
    let ghost ls = tree.links();
    proof {
        lemma_depth_bound(ls, index as int);
        tree.lemma_binary_here(index as int);
        assert(t0.has(index as int, index as int));
        assert(offset(&t0, index as int, index as int) == t0@[index as int].xmod);
    }
    let xmod_here: i64 = xmod + tree.arena[index].xmod;
    let ymod_here: i64 = ymod + tree.arena[index].ymod;
    let x: i64 = tree.arena[index].x + xmod_here;
    let y: i64 = tree.arena[index].y + ymod_here;
    tree.arena[index].x = x;
    tree.arena[index].y = y;
    let ghost t1 = *tree;
    proof {
        assert(same_shape(t0@, t1@));
        lemma_same_links(t0@, t1@);
        assert(t1.xmods() =~= t0.xmods());
        assert(t1.ymods() =~= t0.ymods());
    }
    if tree.arena[index].children.len() > 0 {
        let son_left = tree.arena[index].children[0];
        let son_right = tree.arena[index].children[1];
        proof {
            t0.lemma_two_children(index as int);
            assert forall|n: int| #[trigger] t1.has(son_left as int, n) implies {
                &&& -COORD_LIMIT <= t1@[n].x <= COORD_LIMIT
                &&& -COORD_LIMIT <= t1@[n].y <= COORD_LIMIT
                &&& -COORD_LIMIT <= t1@[n].ymod <= COORD_LIMIT
                &&& -wide() <= xmod_here + offset(&t1, son_left as int, n) <= wide()
            } by {
                assert(t0.has(son_left as int, n));
                lemma_subtree_split(ls, index as int, n);
                lemma_path_sum_child(ls, t0.xmods(), index as int, son_left as int, n);
                assert(t0.has(index as int, n));
            }
        }
        shift_place(tree, son_left, xmod_here, ymod_here);
        let ghost t2 = *tree;
        proof {
            assert(t2.xmods() =~= t0.xmods());
            assert(t2.ymods() =~= t0.ymods());
            assert forall|n: int| #[trigger] t2.has(son_right as int, n) implies {
                &&& -COORD_LIMIT <= t2@[n].x <= COORD_LIMIT
                &&& -COORD_LIMIT <= t2@[n].y <= COORD_LIMIT
                &&& -COORD_LIMIT <= t2@[n].ymod <= COORD_LIMIT
                &&& -wide() <= xmod_here + offset(&t2, son_right as int, n) <= wide()
            } by {
                assert(t0.has(son_right as int, n));
                lemma_subtree_split(ls, index as int, n);
                lemma_path_sum_child(ls, t0.xmods(), index as int, son_right as int, n);
                assert(t0.has(index as int, n));
            }
        }
        shift_place(tree, son_right, xmod_here, ymod_here);
        proof {
            assert forall|n: int| 0 <= n < t0@.len() implies if t0.has(index as int, n) {
                &&& (#[trigger] tree@[n]).same_but(t0@[n], true, true, false)
                &&& tree@[n].x == t0@[n].x + xmod + path_sum(
                    ls,
                    t0.xmods(),
                    n,
                    (t0.spec_depth(n) - t0.spec_depth(index as int)) as nat,
                )
                &&& tree@[n].y == t0@[n].y + ymod + path_sum(
                    ls,
                    t0.ymods(),
                    n,
                    (t0.spec_depth(n) - t0.spec_depth(index as int)) as nat,
                )
            } else {
                tree@[n] == t0@[n]
            } by {
                lemma_subtree_split(ls, index as int, n);
                assert(t2@[n].same_fixed(t1@[n]));
                assert(t1@[n].same_fixed(t0@[n]));
                if t0.has(son_left as int, n) {
                    lemma_path_sum_child(ls, t0.xmods(), index as int, son_left as int, n);
                    lemma_path_sum_child(ls, t0.ymods(), index as int, son_left as int, n);
                } else if t0.has(son_right as int, n) {
                    lemma_path_sum_child(ls, t0.xmods(), index as int, son_right as int, n);
                    lemma_path_sum_child(ls, t0.ymods(), index as int, son_right as int, n);
                }
            }
            assert(same_shape(t0@, tree@));
        }
    } else {
        proof {
            assert forall|n: int| 0 <= n < t0@.len() && t0.has(index as int, n) implies n
                == index by {
                lemma_subtree_leaf(ls, index as int, n);
            }
        }
    }
}

/// Applies the modifiers of the subtree rooted at `index`: each of its nodes
/// moves by `(xmod, ymod)` and by the modifiers of the nodes on the path
/// from `index` down to it. The modifiers themselves stay as they are.
///
/// The modifiers of a bounded tree can be applied, and so can those of a
/// subtree that has just been resolved.
///
/// Fails, and changes nothing, where a node of the subtree has one child or
/// more than two, whatever the size of the tree: the limits are asked only
/// of a subtree that is accepted.
pub fn shift_mod_xy(tree: &mut ArenaTree<String>, index: usize, xmod: &mut i64, ymod: &mut i64) -> (r:
    Result<(), LayoutError>)
    requires
        old(tree).wf(),
        index < old(tree)@.len(),
        old(tree).binary_from(index as int) ==> shiftable(
            old(tree),
            index as int,
            *old(xmod) as int,
        ) && -COORD_LIMIT <= *old(ymod) <= COORD_LIMIT,
    ensures
        *final(xmod) == *old(xmod),
        *final(ymod) == *old(ymod),
        match r {
            Ok(()) => old(tree).binary_from(index as int) && shifted(
                old(tree),
                final(tree),
                index as int,
                *old(xmod) as int,
                *old(ymod) as int,
            ),
            Err(LayoutError::NonBinaryNode(n)) => old(tree).first_odd(index as int, n as int) && *final(tree) == *old(tree),
            Err(_) => false,
        },
{
    match tree.find_odd(index) {
        Some(n) => {
            return Err(LayoutError::NonBinaryNode(n));
        },
        None => {},
    }
    shift_place(tree, index, *xmod, *ymod);
    Ok(())
}

/// The parents of the tree can be centred: it has at most `NODE_LIMIT`
/// nodes, each within `COORD_LIMIT` of zero horizontally and with a
/// horizontal modifier within `wide()` of zero.
pub open spec fn centrable(t: &ArenaTree<String>) -> bool {
    &&& t@.len() <= NODE_LIMIT
    &&& forall|n: int|
        0 <= n < t@.len() ==> -COORD_LIMIT <= (#[trigger] t@[n]).x <= COORD_LIMIT && -wide()
            <= t@[n].xmod <= wide()
}

fn center_place(tree: &mut ArenaTree<String>, index: usize, Ghost(cap): Ghost<int>)
    requires
        old(tree).wf(),
        index < old(tree)@.len(),
        old(tree).binary_from(index as int),
        old(tree)@.len() <= NODE_LIMIT,
        0 <= cap <= wide(),
        forall|n: int| #[trigger]
            old(tree).has(index as int, n) ==> -COORD_LIMIT <= old(tree)@[n].x <= COORD_LIMIT
                && -cap <= old(tree)@[n].xmod <= cap,
    ensures
        centered(old(tree), final(tree), index as int),
        final(tree).links() == old(tree).links(),
        forall|n: int| #[trigger]
            old(tree).has(index as int, n) ==> -COORD_LIMIT <= final(tree)@[n].x <= COORD_LIMIT
                && -cap - reach(2 * (old(tree)@.len() - old(tree).spec_depth(n)))
                <= final(tree)@[n].xmod <= cap + reach(
                2 * (old(tree)@.len() - old(tree).spec_depth(n)),
            ),
    decreases old(tree)@.len() - old(tree).spec_depth(index as int),
{
    let ghost t0 = *tree;
    let ghost ls = tree.links();
    proof {
        lemma_depth_bound(ls, index as int);
        tree.lemma_binary_here(index as int);
        assert(t0.has(index as int, index as int));
    }
    if tree.arena[index].children.len() > 0 {
        let left = tree.arena[index].children[0];
        let right = tree.arena[index].children[1];
        proof {
            t0.lemma_two_children(index as int);
            assert forall|n: int| #[trigger] t0.has(left as int, n) implies -COORD_LIMIT
                <= t0@[n].x <= COORD_LIMIT && -cap <= t0@[n].xmod <= cap by {
                lemma_subtree_split(ls, index as int, n);
                assert(t0.has(index as int, n));
            }
        }
        center_place(tree, left, Ghost(cap));
        let ghost t1 = *tree;
        proof {
            assert forall|n: int| #[trigger] t1.has(right as int, n) implies -COORD_LIMIT
                <= t1@[n].x <= COORD_LIMIT && -cap <= t1@[n].xmod <= cap by {
                assert(t0.has(right as int, n));
                lemma_subtree_split(ls, index as int, n);
                assert(t0.has(index as int, n));
            }
        }
        center_place(tree, right, Ghost(cap));
        let ghost t2 = *tree;
        proof {
            lemma_subtree_split(ls, index as int, left as int);
            lemma_subtree_split(ls, index as int, right as int);
            lemma_subtree_split(ls, index as int, index as int);
            lemma_depth_bound(ls, right as int);
            assert(t1.has(right as int, right as int));
            assert(t0.has(left as int, left as int));
        }
        let x_left: i64 = tree.arena[left].x;
        let x_right: i64 = tree.arena[right].x;
        let x: i64 = tree.arena[index].x;
        let x_middle: i64 = half_of(x_right + x_left);
        let x_mod: i64 = tree.arena[right].xmod + x_middle - x;
        tree.arena[index].x = x_middle;
        tree.arena[index].xmod = x_mod;
        proof {
            assert(same_shape(t0@, tree@)) by {
                assert forall|i: int| 0 <= i < t0@.len() implies (#[trigger] t0@[i]).same_fixed(
                    tree@[i],
                ) by {
                    assert(t2@[i].same_fixed(t1@[i]));
                    assert(t1@[i].same_fixed(t0@[i]));
                }
            }
            lemma_same_links(t0@, tree@);
            assert forall|n: int| 0 <= n < t0@.len() implies if t0.has(index as int, n)
                && !t0.leaf_at(n) {
                (#[trigger] tree@[n]).same_but(t0@[n], true, false, true)
            } else {
                tree@[n] == t0@[n]
            } by {
                lemma_subtree_split(ls, index as int, n);
                assert(t2@[n].same_fixed(t1@[n]));
                assert(t1@[n].same_fixed(t0@[n]));
            }
            assert forall|n: int| t0.has(index as int, n) && !t0.leaf_at(n) implies #[trigger] centre_at(
                &t0,
                tree,
                n,
            ) by {
                lemma_subtree_split(ls, index as int, n);
                if n != index {
                    t0.lemma_binary_here_in(index as int, n);
                    t0.lemma_two_children(n);
                    let c = if t0.has(left as int, n) {
                        left as int
                    } else {
                        right as int
                    };
                    lemma_subtree_child(ls, c, n, t0.left_of(n));
                    lemma_subtree_child(ls, c, n, t0.right_of(n));
                    lemma_subtree_split(ls, index as int, t0.left_of(n));
                    lemma_subtree_split(ls, index as int, t0.right_of(n));
                    if c == left {
                        assert(centre_at(&t0, &t1, n));
                    } else {
                        assert(t1.has(right as int, n));
                        assert(centre_at(&t1, &t2, n));
                    }
                }
            }
            assert forall|n: int| #[trigger] t0.has(index as int, n) implies -COORD_LIMIT
                <= tree@[n].x <= COORD_LIMIT && -cap - reach(2 * (t0@.len() - t0.spec_depth(n)))
                <= tree@[n].xmod <= cap + reach(2 * (t0@.len() - t0.spec_depth(n))) by {
                lemma_subtree_split(ls, index as int, n);
                lemma_depth_bound(ls, n);
                if n == index {
                    assert(-COORD_LIMIT <= x_left <= COORD_LIMIT);
                    assert(-COORD_LIMIT <= x_right <= COORD_LIMIT);
                    assert(-COORD_LIMIT <= x <= COORD_LIMIT);
                    assert(t0.spec_depth(right as int) == t0.spec_depth(index as int) + 1);
                } else if t0.has(left as int, n) {
                    assert(!t1.has(right as int, n));
                    assert(t2@[n] == t1@[n]);
                    assert(tree@[n] == t2@[n]);
                } else {
                    assert(t1.has(right as int, n));
                    assert(tree@[n] == t2@[n]);
                }
            }
        }
    } else {
        proof {
            assert forall|n: int| 0 <= n < t0@.len() && t0.has(index as int, n) implies n
                == index by {
                lemma_subtree_leaf(ls, index as int, n);
            }
            assert(same_shape(t0@, tree@));
        }
    }
}

/// Centres each parent of the subtree rooted at `index` over its children,
/// from the leaves up: a node with children is put halfway between their
/// horizontal coordinates, and its modifier becomes that of its right child
/// and the distance it moved. Leaves stay as they are.
///
/// A tree that is bounded can be centred, and once centred it can be centred
/// again.
///
/// Fails, and changes nothing, where a node of the subtree has one child or
/// more than two.
pub fn set_middle_postorder(tree: &mut ArenaTree<String>, index: usize) -> (r: Result<
    (),
    LayoutError,
>)
    requires
        old(tree).wf(),
        old(tree).binary_from(index as int) ==> centrable(old(tree)),
        index < old(tree)@.len(),
    ensures
        match r {
            Ok(()) => old(tree).binary_from(index as int) && centered(
                old(tree),
                final(tree),
                index as int,
            ) && (old(tree).bounded() ==> centrable(final(tree))),
            Err(LayoutError::NonBinaryNode(n)) => old(tree).first_odd(index as int, n as int) && *final(tree) == *old(tree),
            Err(_) => false,
        },
{
    match tree.find_odd(index) {
        Some(n) => {
            return Err(LayoutError::NonBinaryNode(n));
        },
        None => {},
    }
    let ghost t0 = *tree;
    let ghost cap = if tree.bounded() {
        COORD_LIMIT as int
    } else {
        wide()
    };
    proof {
        assert forall|n: int| #[trigger] t0.has(index as int, n) implies -COORD_LIMIT <= t0@[n].x
            <= COORD_LIMIT && -cap <= t0@[n].xmod <= cap by {
            if t0.bounded() {
                assert(t0@[n].bounded());
            }
        }
    }
    center_place(tree, index, Ghost(cap));
    proof {
        if t0.bounded() {
            assert forall|n: int| 0 <= n < tree@.len() implies -COORD_LIMIT <= (#[trigger] tree@[n]).x
                <= COORD_LIMIT && -wide() <= tree@[n].xmod <= wide() by {
                assert(t0@[n].bounded());
                if t0.has(index as int, n) {
                    lemma_depth_bound(t0.links(), n);
                }
            }
        }
    }
    Ok(())
}

} // verus!
