//! Whether gene trees and the lists of a species tree can be handed to the
//! passes that place gene nodes.

use vstd::prelude::*;
use crate::anchor::{entries_valid, nodes_of};
use crate::arena::ArenaTree;
use crate::centre::{calm, distinct_lists, within};
use crate::mapping::{forest_hits, tree_hits};
use crate::listing::{trees_formed, trees_small};
use crate::node::{Noeud, COORD_LIMIT, NODE_LIMIT};

verus! {

/// Each gene node that names a parent names a node of its tree.
pub open spec fn parents_valid(f: Seq<Seq<Noeud<String>>>) -> bool {
    forall|g: int, i: int|
        0 <= g < f.len() && 0 <= i < f[g].len() && (#[trigger] f[g][i]).parent.is_some()
            ==> f[g][i].parent.unwrap() < f[g].len()
}

/// Every gene node listed by a node of the species tree is a node of the
/// gene trees `f`.
pub open spec fn lists_valid(sp: &ArenaTree<String>, f: Seq<Seq<Noeud<String>>>) -> bool {
    forall|s: int, j: int|
        0 <= s < sp@.len() && 0 <= j < sp@[s].nodes@.len() ==> (#[trigger] sp@[s].nodes@[j]).0
            < f.len() && sp@[s].nodes@[j].1 < f[sp@[s].nodes@[j].0 as int].len()
}

/// No node of the species tree lists a gene node twice.
pub open spec fn lists_distinct(sp: &ArenaTree<String>) -> bool {
    forall|s: int, j: int, k: int|
        0 <= s < sp@.len() && 0 <= j < k < sp@[s].nodes@.len() ==> #[trigger] sp@[s].nodes@[j]
            != #[trigger] sp@[s].nodes@[k]
}

/// No gene node listed by a node of the species tree has a vertical
/// modifier above zero.
pub open spec fn lists_settled(sp: &ArenaTree<String>, f: Seq<Seq<Noeud<String>>>) -> bool {
    forall|s: int, j: int|
        0 <= s < sp@.len() && 0 <= j < sp@[s].nodes@.len() ==> f[(#[trigger] sp@[s].nodes@[j]).0 as int][sp@[s].nodes@[j].1 as int].ymod
            <= 0
}

/// What holds of the lists of the whole species tree holds of those of each
/// of its subtrees.
pub proof fn lemma_lists(sp: &ArenaTree<String>, f: Seq<Seq<Noeud<String>>>, v: int)
    ensures
        lists_valid(sp, f) ==> entries_valid(sp, f, v),
        lists_distinct(sp) ==> distinct_lists(sp, v),
        lists_settled(sp, f) ==> calm(sp, f, v),
{
    if lists_settled(sp, f) {
        assert forall|s: int, j: int|
            sp.has(v, s) && 0 <= j < sp@[s].nodes@.len() implies f[(
        #[trigger] sp@[s].nodes@[j]).0 as int][sp@[s].nodes@[j].1 as int].ymod <= 0 by {}
    }
}

/// Whether every gene node listed by a node of the species tree is a node
/// of the gene trees.
pub fn are_lists_valid(sp_tree: &ArenaTree<String>, gene_trees: &Vec<ArenaTree<String>>) -> (r: bool)
    ensures
        r == lists_valid(sp_tree, nodes_of(gene_trees@)),
{
    let ghost f = nodes_of(gene_trees@);
    let mut s: usize = 0;
    while s < sp_tree.arena.len()
        invariant
            s <= sp_tree@.len(),
            f == nodes_of(gene_trees@),
            forall|t: int, j: int|
                0 <= t < s && 0 <= j < sp_tree@[t].nodes@.len() ==> (
                #[trigger] sp_tree@[t].nodes@[j]).0 < f.len() && sp_tree@[t].nodes@[j].1
                    < f[sp_tree@[t].nodes@[j].0 as int].len(),
        decreases sp_tree@.len() - s,
    {
        let mut j: usize = 0;
        while j < sp_tree.arena[s].nodes.len()
            invariant
                s < sp_tree@.len(),
                j <= sp_tree@[s as int].nodes@.len(),
                f == nodes_of(gene_trees@),
                forall|t: int, j: int|
                    0 <= t < s && 0 <= j < sp_tree@[t].nodes@.len() ==> (
                    #[trigger] sp_tree@[t].nodes@[j]).0 < f.len() && sp_tree@[t].nodes@[j].1
                        < f[sp_tree@[t].nodes@[j].0 as int].len(),
                forall|k: int|
                    0 <= k < j ==> (#[trigger] sp_tree@[s as int].nodes@[k]).0 < f.len()
                        && sp_tree@[s as int].nodes@[k].1
                        < f[sp_tree@[s as int].nodes@[k].0 as int].len(),
            decreases sp_tree@[s as int].nodes@.len() - j,
        {
            let (g, i) = sp_tree.arena[s].nodes[j];
            if g >= gene_trees.len() {
                assert(!(sp_tree@[s as int].nodes@[j as int].0 < f.len()));
                return false;
            }
            if i >= gene_trees[g].arena.len() {
                assert(f[g as int] == gene_trees@[g as int]@);
                assert(!(sp_tree@[s as int].nodes@[j as int].1 < f[g as int].len()));
                return false;
            }
            assert(f[g as int] == gene_trees@[g as int]@);
            j += 1;
        }
        s += 1;
    }
    true
}

/// Whether no node of the species tree lists a gene node twice.
pub fn are_lists_distinct(sp_tree: &ArenaTree<String>) -> (r: bool)
    ensures
        r == lists_distinct(sp_tree),
{
    let mut s: usize = 0;
    while s < sp_tree.arena.len()
        invariant
            s <= sp_tree@.len(),
            forall|t: int, j: int, k: int|
                0 <= t < s && 0 <= j < k < sp_tree@[t].nodes@.len()
                    ==> #[trigger] sp_tree@[t].nodes@[j] != #[trigger] sp_tree@[t].nodes@[k],
        decreases sp_tree@.len() - s,
    {
        let count = sp_tree.arena[s].nodes.len();
        let mut k: usize = 0;
        while k < count
            invariant
                s < sp_tree@.len(),
                count == sp_tree@[s as int].nodes@.len(),
                k <= count,
                forall|t: int, j: int, k: int|
                    0 <= t < s && 0 <= j < k < sp_tree@[t].nodes@.len()
                        ==> #[trigger] sp_tree@[t].nodes@[j] != #[trigger] sp_tree@[t].nodes@[k],
                forall|j: int, m: int|
                    0 <= j < m < k ==> #[trigger] sp_tree@[s as int].nodes@[j]
                        != #[trigger] sp_tree@[s as int].nodes@[m],
            decreases count - k,
        {
            let (g, i) = sp_tree.arena[s].nodes[k];
            let mut j: usize = 0;
            while j < k
                invariant
                    s < sp_tree@.len(),
                    count == sp_tree@[s as int].nodes@.len(),
                    k < count,
                    j <= k,
                    (g, i) == sp_tree@[s as int].nodes@[k as int],
                    forall|m: int|
                        0 <= m < j ==> #[trigger] sp_tree@[s as int].nodes@[m]
                            != sp_tree@[s as int].nodes@[k as int],
                decreases k - j,
            {
                let (h, m) = sp_tree.arena[s].nodes[j];
                if h == g && m == i {
                    assert(sp_tree@[s as int].nodes@[j as int] == sp_tree@[s as int].nodes@[k as int]);
                    return false;
                }
                j += 1;
            }
            k += 1;
        }
        s += 1;
    }
    true
}

/// Whether no gene node listed by a node of the species tree has a vertical
/// modifier above zero.
pub fn are_lists_settled(sp_tree: &ArenaTree<String>, gene_trees: &Vec<ArenaTree<String>>) -> (r:
    bool)
    requires
        lists_valid(sp_tree, nodes_of(gene_trees@)),
    ensures
        r == lists_settled(sp_tree, nodes_of(gene_trees@)),
{
    let ghost f = nodes_of(gene_trees@);
    let mut s: usize = 0;
    while s < sp_tree.arena.len()
        invariant
            s <= sp_tree@.len(),
            f == nodes_of(gene_trees@),
            lists_valid(sp_tree, f),
            forall|t: int, j: int|
                0 <= t < s && 0 <= j < sp_tree@[t].nodes@.len() ==> f[(
                #[trigger] sp_tree@[t].nodes@[j]).0 as int][sp_tree@[t].nodes@[j].1 as int].ymod
                    <= 0,
        decreases sp_tree@.len() - s,
    {
        let mut j: usize = 0;
        while j < sp_tree.arena[s].nodes.len()
            invariant
                s < sp_tree@.len(),
                j <= sp_tree@[s as int].nodes@.len(),
                f == nodes_of(gene_trees@),
                lists_valid(sp_tree, f),
                forall|t: int, j: int|
                    0 <= t < s && 0 <= j < sp_tree@[t].nodes@.len() ==> f[(
                    #[trigger] sp_tree@[t].nodes@[j]).0 as int][sp_tree@[t].nodes@[j].1 as int].ymod
                        <= 0,
                forall|k: int|
                    0 <= k < j ==> f[(
                    #[trigger] sp_tree@[s as int].nodes@[k]).0 as int][sp_tree@[s as int].nodes@[k].1 as int].ymod
                        <= 0,
            decreases sp_tree@[s as int].nodes@.len() - j,
        {
            let (g, i) = sp_tree.arena[s].nodes[j];
            proof {
                let e = sp_tree@[s as int].nodes@[j as int];
                assert(e.0 < f.len() && e.1 < f[e.0 as int].len());
                assert(f[g as int] == gene_trees@[g as int]@);
            }
            let n = &gene_trees[g].arena[i];
            if n.ymod > 0 {
                return false;
            }
            j += 1;
        }
        s += 1;
    }
    true
}

/// Whether every node of the gene trees stands within `COORD_LIMIT` of
/// zero, and names as its parent, where it names one, a node of its tree.
pub fn are_genes_bounded(gene_trees: &Vec<ArenaTree<String>>) -> (r: bool)
    ensures
        r == (within(nodes_of(gene_trees@), COORD_LIMIT as int) && parents_valid(
            nodes_of(gene_trees@),
        )),
{
    let ghost f = nodes_of(gene_trees@);
    let mut g: usize = 0;
    while g < gene_trees.len()
        invariant
            g <= gene_trees@.len(),
            f == nodes_of(gene_trees@),
            forall|h: int, i: int|
                0 <= h < g && 0 <= i < f[h].len() ==> -COORD_LIMIT <= (#[trigger] f[h][i]).x
                    <= COORD_LIMIT && -COORD_LIMIT <= f[h][i].y <= COORD_LIMIT && (
                f[h][i].parent.is_some() ==> f[h][i].parent.unwrap() < f[h].len()),
        decreases gene_trees@.len() - g,
    {
        assert(f[g as int] == gene_trees@[g as int]@);
        let mut i: usize = 0;
        while i < gene_trees[g].arena.len()
            invariant
                g < gene_trees@.len(),
                f == nodes_of(gene_trees@),
                f[g as int] == gene_trees@[g as int]@,
                i <= f[g as int].len(),
                forall|h: int, i: int|
                    0 <= h < g && 0 <= i < f[h].len() ==> -COORD_LIMIT <= (#[trigger] f[h][i]).x
                        <= COORD_LIMIT && -COORD_LIMIT <= f[h][i].y <= COORD_LIMIT && (
                    f[h][i].parent.is_some() ==> f[h][i].parent.unwrap() < f[h].len()),
                forall|k: int|
                    0 <= k < i ==> -COORD_LIMIT <= (#[trigger] f[g as int][k]).x <= COORD_LIMIT
                        && -COORD_LIMIT <= f[g as int][k].y <= COORD_LIMIT && (
                    f[g as int][k].parent.is_some() ==> f[g as int][k].parent.unwrap()
                        < f[g as int].len()),
            decreases f[g as int].len() - i,
        {
            let n = &gene_trees[g].arena[i];
            let mut ok = -COORD_LIMIT <= n.x && n.x <= COORD_LIMIT && -COORD_LIMIT <= n.y && n.y
                <= COORD_LIMIT;
            match n.parent {
                Some(p) => {
                    if p >= gene_trees[g].arena.len() {
                        ok = false;
                    }
                },
                None => {},
            }
            if !ok {
                assert(!(-COORD_LIMIT <= f[g as int][i as int].x <= COORD_LIMIT && -COORD_LIMIT
                    <= f[g as int][i as int].y <= COORD_LIMIT && (
                f[g as int][i as int].parent.is_some() ==> f[g as int][i as int].parent.unwrap()
                    < f[g as int].len())));
                return false;
            }
            i += 1;
        }
        g += 1;
    }
    true
}

/// Whether each gene tree is well formed and holds at most `NODE_LIMIT`
/// nodes.
pub fn are_trees_sound(gene_trees: &Vec<ArenaTree<String>>) -> (r: bool)
    ensures
        r == (trees_formed(gene_trees@) && trees_small(gene_trees@)),
{
    let mut g: usize = 0;
    while g < gene_trees.len()
        invariant
            g <= gene_trees@.len(),
            forall|h: int|
                0 <= h < g ==> (#[trigger] gene_trees@[h]).wf() && gene_trees@[h]@.len()
                    <= NODE_LIMIT,
        decreases gene_trees@.len() - g,
    {
        if gene_trees[g].arena.len() > NODE_LIMIT || !gene_trees[g].is_well_formed() {
            assert(!(gene_trees@[g as int].wf() && gene_trees@[g as int]@.len() <= NODE_LIMIT));
            return false;
        }
        g += 1;
    }
    true
}

/// The number of nodes of the first `m` gene trees.
pub open spec fn total_nodes(genes: Seq<ArenaTree<String>>, m: nat) -> nat
    decreases m,
{
    if m == 0 {
        0
    } else {
        total_nodes(genes, (m - 1) as nat) + genes[m - 1]@.len()
    }
}

/// No species node holds so many gene nodes that it could not take every
/// node of the gene trees as well.
pub open spec fn room_for(sp: &ArenaTree<String>, genes: Seq<ArenaTree<String>>) -> bool {
    forall|s: int|
        0 <= s < sp@.len() ==> (#[trigger] sp@[s]).nbg + total_nodes(genes, genes.len())
            <= usize::MAX
}

/// No more nodes of a gene tree have a location than the tree has nodes.
pub proof fn lemma_tree_hits_bound(name: Seq<char>, t: Seq<Noeud<String>>, g: usize, k: nat)
    ensures
        tree_hits(name, t, g, k).len() <= k,
    decreases k,
{
    if k > 0 {
        lemma_tree_hits_bound(name, t, g, (k - 1) as nat);
    }
}

/// No more nodes of the gene trees have a location than the trees have
/// nodes.
pub proof fn lemma_forest_hits_bound(name: Seq<char>, genes: Seq<ArenaTree<String>>, m: nat)
    ensures
        forest_hits(name, genes, m).len() <= total_nodes(genes, m),
    decreases m,
{
    if m > 0 {
        lemma_forest_hits_bound(name, genes, (m - 1) as nat);
        lemma_tree_hits_bound(name, genes[m - 1]@, (m - 1) as usize, genes[m - 1]@.len());
    }
}

/// Where the species nodes have room for every node of the gene trees, they
/// have room for those that are mapped to them.
pub proof fn lemma_room(sp: &ArenaTree<String>, genes: Seq<ArenaTree<String>>)
    requires
        room_for(sp, genes),
    ensures
        forall|s: int|
            0 <= s < sp@.len() ==> (#[trigger] sp@[s]).nbg + forest_hits(
                sp@[s].name@,
                genes,
                genes.len(),
            ).len() <= usize::MAX,
{
    assert forall|s: int| 0 <= s < sp@.len() implies (#[trigger] sp@[s]).nbg + forest_hits(
        sp@[s].name@,
        genes,
        genes.len(),
    ).len() <= usize::MAX by {
        lemma_forest_hits_bound(sp@[s].name@, genes, genes.len());
    }
}

/// Whether no species node holds so many gene nodes that it could not take
/// every node of the gene trees as well.
pub fn have_room(sp_tree: &ArenaTree<String>, gene_trees: &Vec<ArenaTree<String>>) -> (r: bool)
    ensures
        r == room_for(sp_tree, gene_trees@),
{
    let ghost genes = gene_trees@;
    let mut total: usize = 0;
    let mut g: usize = 0;
    let mut fits = true;
    while g < gene_trees.len()
        invariant
            g <= genes.len(),
            genes == gene_trees@,
            fits ==> total == total_nodes(genes, g as nat),
            !fits ==> total_nodes(genes, g as nat) > usize::MAX,
        decreases genes.len() - g,
    {
        let n = gene_trees[g].arena.len();
        if fits && n <= usize::MAX - total {
            total = total + n;
        } else {
            fits = false;
        }
        g += 1;
    }
    let mut s: usize = 0;
    while s < sp_tree.arena.len()
        invariant
            s <= sp_tree@.len(),
            genes == gene_trees@,
            fits ==> total == total_nodes(genes, genes.len()),
            !fits ==> total_nodes(genes, genes.len()) > usize::MAX,
            forall|t: int|
                0 <= t < s ==> (#[trigger] sp_tree@[t]).nbg + total_nodes(genes, genes.len())
                    <= usize::MAX,
        decreases sp_tree@.len() - s,
    {
        if !fits || sp_tree.arena[s].nbg > usize::MAX - total {
            assert(!(sp_tree@[s as int].nbg + total_nodes(genes, genes.len()) <= usize::MAX));
            return false;
        }
        s += 1;
    }
    true
}

} // verus!
