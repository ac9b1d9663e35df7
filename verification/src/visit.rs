//! The nodes of a tree in the order of a walk.

use vstd::prelude::*;
use crate::arena::ArenaTree;
use crate::event::LayoutError;
use crate::layout::{is_only_root, odd_under_root};
use crate::shape::lemma_depth_bound;

verus! {

/// The nodes of the subtree rooted at `v`, children before parents: those of
/// the left subtree, those of the right subtree, then `v`.
pub open spec fn post_order(t: &ArenaTree<String>, v: int) -> Seq<usize>
    decreases t@.len() - t.spec_depth(v),
    when t.wf() && 0 <= v < t@.len()
{
    if t@[v].children@.len() == 2 {
        proof {
            t.lemma_two_children(v);
        }
        post_order(t, t.left_of(v)) + post_order(t, t.right_of(v)) + seq![v as usize]
    } else {
        seq![v as usize]
    }
}

fn walk(tree: &ArenaTree<String>, index: usize, out: &mut Vec<usize>)
    requires
        tree.wf(),
        index < tree@.len(),
        tree.binary_from(index as int),
    ensures
        final(out)@ == old(out)@ + post_order(tree, index as int),
    decreases tree@.len() - tree.spec_depth(index as int),
{
    let ghost before = out@;
    proof {
        lemma_depth_bound(tree.links(), index as int);
        tree.lemma_binary_here(index as int);
    }
    if tree.arena[index].children.len() > 0 {
        let left = tree.arena[index].children[0];
        let right = tree.arena[index].children[1];
        proof {
            tree.lemma_two_children(index as int);
        }
        walk(tree, left, out);
        walk(tree, right, out);
        out.push(index);
        assert(out@ =~= before + post_order(tree, index as int));
    } else {
        out.push(index);
        assert(out@ =~= before + post_order(tree, index as int));
    }
}

/// The nodes of the subtree rooted at `index`, children before parents.
///
/// Fails where a node of the subtree has one child or more than two.
pub fn explore_postorder(tree: &mut ArenaTree<String>, index: usize) -> (r: Result<
    Vec<usize>,
    LayoutError,
>)
    requires
        old(tree).wf(),
        index < old(tree)@.len(),
    ensures
        *final(tree) == *old(tree),
        match r {
            Ok(order) => old(tree).binary_from(index as int) && order@ == post_order(
                old(tree),
                index as int,
            ),
            Err(LayoutError::NonBinaryNode(n)) => old(tree).first_odd(index as int, n as int),
            Err(_) => false,
        },
{
    match tree.find_odd(index) {
        Some(n) => {
            return Err(LayoutError::NonBinaryNode(n));
        },
        None => {},
    }
    let mut order: Vec<usize> = Vec::new();
    walk(tree, index, &mut order);
    assert(order@ =~= post_order(tree, index as int));
    Ok(order)
}

/// The nodes under the only root of `t`, children before parents, are
/// `order`.
pub open spec fn walked_from_root(t: &ArenaTree<String>, order: Seq<usize>) -> bool {
    exists|root: int|
        is_only_root(t, root) && t.binary_from(root) && order == #[trigger] post_order(t, root)
}

/// The nodes of the tree, children before parents, from its root.
///
/// Fails where the tree has no root or several, or where a node under the
/// root has one child or more than two.
pub fn postorder(tree: &mut ArenaTree<String>) -> (r: Result<Vec<usize>, LayoutError>)
    requires
        old(tree).wf(),
    ensures
        *final(tree) == *old(tree),
        match r {
            Ok(order) => walked_from_root(old(tree), order@),
            Err(LayoutError::NoRoot) => forall|j: int|
                0 <= j < old(tree)@.len() ==> (#[trigger] old(tree)@[j]).parent.is_some(),
            Err(LayoutError::MultipleRoots) => exists|j: int, k: int|
                0 <= j < k < old(tree)@.len() && (#[trigger] old(tree)@[j]).parent.is_none() && (
                #[trigger] old(tree)@[k]).parent.is_none(),
            Err(LayoutError::NonBinaryNode(n)) => odd_under_root(old(tree), n as int),
            Err(_) => false,
        },
{
    let ghost t0 = *tree;
    let root = match tree.get_root() {
        Ok(root) => root,
        Err(e) => {
            return Err(e);
        },
    };
    assert(is_only_root(&t0, root as int));
    match explore_postorder(tree, root) {
        Ok(order) => {
            assert(is_only_root(&t0, root as int) && t0.binary_from(root as int) && order@
                == post_order(&t0, root as int));
            Ok(order)
        },
        Err(e) => {
            match e {
                LayoutError::NonBinaryNode(n) => {
                    assert(is_only_root(&t0, root as int) && t0.first_odd(root as int, n as int));
                },
                _ => {},
            }
            Err(e)
        },
    }
}

} // verus!
