//! The phylogram: heights that follow the lengths of the branches.

use vstd::prelude::*;
use crate::arena::{lemma_same_links, same_shape, ArenaTree};
use crate::event::LayoutError;
use crate::node::{reach, BLOCK, COORD_LIMIT, NODE_LIMIT};
use crate::shape::{
    lemma_depth_bound, lemma_path_sum_child, lemma_subtree_leaf, lemma_subtree_split, path_sum,
};

verus! {

/// What the user asked for.
#[derive(Debug)]
pub struct Options {
    /// Whether the inner nodes of gene trees are labelled.
    pub gene_internal: bool,
    /// Whether the inner nodes of the species tree are labelled.
    pub species_internal: bool,
    /// By how much branch lengths are stretched, in thousandths.
    pub scale: i64,
}

impl Options {
    /// No labels on inner nodes, branch lengths as they are.
    pub fn new() -> (o: Self)
        ensures
            !o.gene_internal,
            !o.species_internal,
            o.scale == 1000,
    {
        Self { gene_internal: false, species_internal: false, scale: 1000 }
    }
}

/// `a` divided by one million, rounded towards zero.
pub open spec fn millionth(a: int) -> int {
    if a >= 0 {
        a / 1000000
    } else {
        -((-a) / 1000000)
    }
}

/// The height of a node that lies `total` thousandths of a unit of length
/// below the top, where lengths are stretched by `scale` thousandths: one
/// block, and one block for each unit of stretched length.
pub open spec fn height_at(total: int, scale: int) -> int {
    60 + millionth(total * 60 * scale)
}

/// The length of the branch above each node, in thousandths.
pub open spec fn lengths(t: &ArenaTree<String>) -> Seq<int> {
    Seq::new(t@.len(), |i: int| t@[i].l as int)
}

/// The subtree rooted at `v` is drawn to scale, from the nodes `a` to the
/// nodes `b`: each of its nodes lies at the height that the lengths of the
/// branches on the path from `v` down to it give, that of the branch above
/// `v` included, after a length of `dist`; nothing else changes.
pub open spec fn to_scale(a: &ArenaTree<String>, b: &ArenaTree<String>, v: int, dist: int, scale: int) -> bool {
    &&& same_shape(a@, b@)
    &&& forall|n: int|
        0 <= n < a@.len() ==> if a.has(v, n) {
            &&& (#[trigger] b@[n]).same_but(a@[n], false, true, false)
            &&& b@[n].y == height_at(
                dist + path_sum(
                    a.links(),
                    lengths(a),
                    n,
                    (a.spec_depth(n) - a.spec_depth(v)) as nat,
                ),
                scale,
            )
        } else {
            b@[n] == a@[n]
        }
}

/// The branch above each node of the tree is no longer than `COORD_LIMIT`
/// thousandths, either way.
pub open spec fn lengths_bounded(t: &ArenaTree<String>) -> bool {
    forall|i: int| 0 <= i < t@.len() ==> -COORD_LIMIT <= (#[trigger] t@[i]).l <= COORD_LIMIT
}

fn height_of(total: i64, scale: i64) -> (y: i64)
    requires
        -0x80_0000_0000_0000 <= total <= 0x80_0000_0000_0000,
        -0x10_0000 <= scale <= 0x10_0000,
    ensures
        y == height_at(total as int, scale as int),
{
    let wide: i128 = (total as i128) * 60;
    assert(-0x2_0000_0000_0000_0000_0000 <= wide * (scale as i128)
        <= 0x2_0000_0000_0000_0000_0000) by (nonlinear_arith)
        requires
            -0x2000_0000_0000_0000 <= wide <= 0x2000_0000_0000_0000,
            -0x10_0000 <= scale <= 0x10_0000,
    ;
    let stretched: i128 = wide * (scale as i128);
    assert(total * 60 * scale == stretched) by (nonlinear_arith)
        requires
            wide == total * 60,
            stretched == wide * scale,
    ;
    let part: i128 = stretched / 1000000;
    (BLOCK as i128 + part) as i64
}

fn scale_below(tree: &mut ArenaTree<String>, index: usize, dist: i64, scale: i64)
    requires
        old(tree).wf(),
        index < old(tree)@.len(),
        old(tree).binary_from(index as int),
        old(tree)@.len() <= NODE_LIMIT,
        lengths_bounded(old(tree)),
        -0x10_0000 <= scale <= 0x10_0000,
        -reach(1 + old(tree).spec_depth(index as int)) <= dist <= reach(
            1 + old(tree).spec_depth(index as int),
        ),
    ensures
        to_scale(old(tree), final(tree), index as int, dist as int, scale as int),
        final(tree).links() == old(tree).links(),
    decreases old(tree)@.len() - old(tree).spec_depth(index as int),
{
    let ghost t0 = *tree;
    let ghost ls = tree.links();
    proof {
        lemma_depth_bound(ls, index as int);
        tree.lemma_binary_here(index as int);
        assert(t0.has(index as int, index as int));
        assert(-COORD_LIMIT <= t0@[index as int].l <= COORD_LIMIT);
    }
    let dist_father: i64 = tree.arena[index].l;
    let dist_here: i64 = dist + dist_father;
    tree.arena[index].y = height_of(dist_here, scale);
    let ghost t1 = *tree;
    proof {
        assert(same_shape(t0@, t1@));
        lemma_same_links(t0@, t1@);
        assert(lengths(&t1) =~= lengths(&t0));
    }
    if tree.arena[index].children.len() > 0 {
        let son_left = tree.arena[index].children[0];
        let son_right = tree.arena[index].children[1];
        proof {
            t0.lemma_two_children(index as int);
        }
        scale_below(tree, son_left, dist_here, scale);
        let ghost t2 = *tree;
        proof {
            assert(lengths(&t2) =~= lengths(&t0));
        }
        scale_below(tree, son_right, dist_here, scale);
        proof {
            assert forall|n: int| 0 <= n < t0@.len() implies if t0.has(index as int, n) {
                &&& (#[trigger] tree@[n]).same_but(t0@[n], false, true, false)
                &&& tree@[n].y == height_at(
                    dist + path_sum(
                        ls,
                        lengths(&t0),
                        n,
                        (t0.spec_depth(n) - t0.spec_depth(index as int)) as nat,
                    ),
                    scale as int,
                )
            } else {
                tree@[n] == t0@[n]
            } by {
                lemma_subtree_split(ls, index as int, n);
                assert(t2@[n].same_fixed(t1@[n]));
                assert(t1@[n].same_fixed(t0@[n]));
                if t0.has(son_left as int, n) {
                    lemma_path_sum_child(ls, lengths(&t0), index as int, son_left as int, n);
                } else if t0.has(son_right as int, n) {
                    lemma_path_sum_child(ls, lengths(&t0), index as int, son_right as int, n);
                }
            }
            assert(same_shape(t0@, tree@));
        }
    } else {
        proof {
            assert forall|n: int| 0 <= n < t0@.len() && t0.has(index as int, n) implies n
                == index by {
                lemma_subtree_leaf(ls, index as int, n);
            }
        }
    }
}

/// Draws the subtree rooted at `index` to scale: each node is put at the
/// height that the lengths of the branches above it give, from `index` down
/// and after a length of `dist`, stretched by the scale of `options`.
///
/// Fails, and changes nothing, where a node of the subtree has one child or
/// more than two.
pub fn real_length(
    tree: &mut ArenaTree<String>,
    index: usize,
    dist: &mut i64,
    options: &Options,
) -> (r: Result<(), LayoutError>)
    requires
        old(tree).wf(),
        index < old(tree)@.len(),
        old(tree).binary_from(index as int) ==> old(tree)@.len() <= NODE_LIMIT && lengths_bounded(
            old(tree),
        ) && -COORD_LIMIT <= *old(dist) <= COORD_LIMIT && -0x10_0000 <= options.scale <= 0x10_0000,
    ensures
        *final(dist) == *old(dist),
        match r {
            Ok(()) => old(tree).binary_from(index as int) && to_scale(
                old(tree),
                final(tree),
                index as int,
                *old(dist) as int,
                options.scale as int,
            ),
            Err(LayoutError::NonBinaryNode(n)) => old(tree).first_odd(index as int, n as int)
                && *final(tree) == *old(tree),
            Err(_) => false,
        },
{
    match tree.find_odd(index) {
        Some(n) => {
            return Err(LayoutError::NonBinaryNode(n));
        },
        None => {},
    }
    scale_below(tree, index, *dist, options.scale);
    Ok(())
}

/// Whether the branch above each node is no longer than `COORD_LIMIT`
/// thousandths, either way.
pub fn are_lengths_bounded(tree: &ArenaTree<String>) -> (r: bool)
    ensures
        r == lengths_bounded(tree),
{
    let mut i: usize = 0;
    while i < tree.arena.len()
        invariant
            i <= tree@.len(),
            forall|j: int| 0 <= j < i ==> -COORD_LIMIT <= (#[trigger] tree@[j]).l <= COORD_LIMIT,
        decreases tree@.len() - i,
    {
        if tree.arena[i].l < -COORD_LIMIT || tree.arena[i].l > COORD_LIMIT {
            return false;
        }
        i += 1;
    }
    true
}

} // verus!
