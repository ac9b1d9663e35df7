//! Which gene nodes the species nodes of a subtree list.

use vstd::prelude::*;
use crate::anchor::{entries_valid, nodes_of};
use crate::apart::{listed, names};
use crate::arena::ArenaTree;
use crate::node::{Noeud, NODE_LIMIT};
use crate::shape::{child, lemma_depth_step, parent_is};

verus! {

/// Each gene tree is well formed.
pub open spec fn trees_formed(genes: Seq<ArenaTree<String>>) -> bool {
    forall|g: int| 0 <= g < genes.len() ==> (#[trigger] genes[g]).wf()
}

/// Each gene tree holds at most `NODE_LIMIT` nodes.
pub open spec fn trees_small(genes: Seq<ArenaTree<String>>) -> bool {
    forall|g: int| 0 <= g < genes.len() ==> (#[trigger] genes[g])@.len() <= NODE_LIMIT
}

/// The first child of a node of a well-formed tree is a node of the tree,
/// one level below it.
pub proof fn lemma_first_child(t: ArenaTree<String>, i: int)
    requires
        t.wf(),
        0 <= i < t@.len(),
        t@[i].children@.len() >= 1,
    ensures
        0 <= t@[i].children@[0] < t@.len(),
        t@[i].children@[0] != i,
        t@[t@[i].children@[0] as int].parent == Some(i as usize),
        t.spec_depth(t@[i].children@[0] as int) == t.spec_depth(i) + 1,
        t.spec_depth(t@[i].children@[0] as int) <= t@.len(),
{
    let ls = t.links();
    let c = child(ls, i, 0);
    assert(0 <= c < ls.len() && parent_is(ls, c, i));
    lemma_depth_step(ls, c);
}

/// Some species node of the subtree rooted at `v` lists node `i` of gene
/// tree `g`, either a node before `s` or `s` among its first `k` entries.
pub open spec fn listed_before(sp: &ArenaTree<String>, v: int, s: int, k: int, g: int, i: int) -> bool {
    exists|t: int, j: int|
        sp.has(v, t) && 0 <= j < sp@[t].nodes@.len() && (t < s || (t == s && j < k)) && names(
            #[trigger] sp@[t].nodes@[j],
            g,
            i,
        )
}

/// The marks `m` hold one mark for each node of the gene trees `f`.
pub open spec fn fits(f: Seq<Seq<Noeud<String>>>, m: Seq<Vec<bool>>) -> bool {
    &&& m.len() == f.len()
    &&& forall|g: int| 0 <= g < f.len() ==> (#[trigger] m[g])@.len() == f[g].len()
}

/// The marks `m` show which nodes of the gene trees `f` the species nodes
/// of the subtree rooted at `v` list.
pub open spec fn shows(sp: &ArenaTree<String>, v: int, f: Seq<Seq<Noeud<String>>>, m: Seq<Vec<bool>>) -> bool {
    &&& fits(f, m)
    &&& forall|g: int, i: int|
        0 <= g < f.len() && 0 <= i < f[g].len() ==> #[trigger] m[g]@[i] == listed(sp, v, g, i)
}

/// The marks `m` show which nodes of the gene trees `f` are listed before
/// entry `k` of species node `s`.
spec fn shows_before(
    sp: &ArenaTree<String>,
    v: int,
    s: int,
    k: int,
    f: Seq<Seq<Noeud<String>>>,
    m: Seq<Vec<bool>>,
) -> bool {
    &&& fits(f, m)
    &&& forall|g: int, i: int|
        0 <= g < f.len() && 0 <= i < f[g].len() ==> #[trigger] m[g]@[i] == listed_before(
            sp,
            v,
            s,
            k,
            g,
            i,
        )
}

/// One more entry of `s` counted lists what was listed before, and that
/// entry.
pub proof fn lemma_listed_step(sp: &ArenaTree<String>, v: int, s: int, k: int, g: int, i: int)
    requires
        sp.has(v, s),
        0 <= k < sp@[s].nodes@.len(),
    ensures
        listed_before(sp, v, s, k + 1, g, i) == (listed_before(sp, v, s, k, g, i) || names(
            sp@[s].nodes@[k],
            g,
            i,
        )),
{
    if listed_before(sp, v, s, k + 1, g, i) {
        let (t, j) = choose|t: int, j: int|
            sp.has(v, t) && 0 <= j < sp@[t].nodes@.len() && (t < s || (t == s && j < k + 1))
                && names(#[trigger] sp@[t].nodes@[j], g, i);
        if !(t == s && j == k) {
            assert(names(sp@[t].nodes@[j], g, i));
            assert(listed_before(sp, v, s, k, g, i));
        }
    }
    if listed_before(sp, v, s, k, g, i) {
        let (t, j) = choose|t: int, j: int|
            sp.has(v, t) && 0 <= j < sp@[t].nodes@.len() && (t < s || (t == s && j < k)) && names(
                #[trigger] sp@[t].nodes@[j],
                g,
                i,
            );
        assert(names(sp@[t].nodes@[j], g, i));
        assert(listed_before(sp, v, s, k + 1, g, i));
    }
    if names(sp@[s].nodes@[k], g, i) {
        assert(listed_before(sp, v, s, k + 1, g, i));
    }
}

/// Once the entries of `s` are counted, or where `s` is no node of the
/// subtree, what is listed is what is listed before the next node.
pub proof fn lemma_listed_next(sp: &ArenaTree<String>, v: int, s: int, k: int, g: int, i: int)
    requires
        !sp.has(v, s) || k >= sp@[s].nodes@.len(),
        k >= 0,
    ensures
        listed_before(sp, v, s, k, g, i) == listed_before(sp, v, s + 1, 0, g, i),
{
    if listed_before(sp, v, s, k, g, i) {
        let (t, j) = choose|t: int, j: int|
            sp.has(v, t) && 0 <= j < sp@[t].nodes@.len() && (t < s || (t == s && j < k)) && names(
                #[trigger] sp@[t].nodes@[j],
                g,
                i,
            );
        assert(names(sp@[t].nodes@[j], g, i));
        assert(listed_before(sp, v, s + 1, 0, g, i));
    }
    if listed_before(sp, v, s + 1, 0, g, i) {
        let (t, j) = choose|t: int, j: int|
            sp.has(v, t) && 0 <= j < sp@[t].nodes@.len() && (t < s + 1 || (t == s + 1 && j < 0))
                && names(#[trigger] sp@[t].nodes@[j], g, i);
        assert(names(sp@[t].nodes@[j], g, i));
        assert(listed_before(sp, v, s, k, g, i));
    }
}

/// Before the first node nothing is listed, and before the end all that
/// the subtree lists.
pub proof fn lemma_listed_all(sp: &ArenaTree<String>, v: int, g: int, i: int)
    ensures
        listed_before(sp, v, sp@.len() as int, 0, g, i) == listed(sp, v, g, i),
        !listed_before(sp, v, 0, 0, g, i),
{
    if listed(sp, v, g, i) {
        let (t, j) = choose|t: int, j: int|
            sp.has(v, t) && 0 <= j < sp@[t].nodes@.len() && names(#[trigger] sp@[t].nodes@[j], g, i);
        assert(names(sp@[t].nodes@[j], g, i));
        assert(listed_before(sp, v, sp@.len() as int, 0, g, i));
    }
    if listed_before(sp, v, sp@.len() as int, 0, g, i) {
        let (t, j) = choose|t: int, j: int|
            sp.has(v, t) && 0 <= j < sp@[t].nodes@.len() && (t < sp@.len() || (t == sp@.len() && j
                < 0)) && names(#[trigger] sp@[t].nodes@[j], g, i);
        assert(names(sp@[t].nodes@[j], g, i));
    }
}

/// One mark for each node of the gene trees, none set.
fn blank_marks(gene_trees: &Vec<ArenaTree<String>>) -> (marks: Vec<Vec<bool>>)
    ensures
        fits(nodes_of(gene_trees@), marks@),
        forall|g: int, i: int|
            0 <= g < marks@.len() && 0 <= i < marks@[g]@.len() ==> !(#[trigger] marks@[g]@[i]),
{
    let mut marks: Vec<Vec<bool>> = Vec::new();
    let mut g: usize = 0;
    while g < gene_trees.len()
        invariant
            g <= gene_trees@.len(),
            marks@.len() == g,
            forall|h: int| 0 <= h < g ==> (#[trigger] marks@[h])@.len() == gene_trees@[h]@.len(),
            forall|h: int, i: int|
                0 <= h < marks@.len() && 0 <= i < marks@[h]@.len() ==> !(#[trigger] marks@[h]@[i]),
        decreases gene_trees@.len() - g,
    {
        let count = gene_trees[g].arena.len();
        let mut row: Vec<bool> = Vec::new();
        let mut i: usize = 0;
        while i < count
            invariant
                i <= count,
                row@.len() == i,
                forall|j: int| 0 <= j < i ==> !(#[trigger] row@[j]),
            decreases count - i,
        {
            row.push(false);
            i += 1;
        }
        marks.push(row);
        g += 1;
    }
    marks
}

/// Marks the gene nodes that the species nodes of the subtree rooted at
/// `index` list.
pub fn listed_nodes(sp_tree: &ArenaTree<String>, gene_trees: &Vec<ArenaTree<String>>, index: usize) -> (marks:
    Vec<Vec<bool>>)
    requires
        sp_tree.wf(),
        index < sp_tree@.len(),
        entries_valid(sp_tree, nodes_of(gene_trees@), index as int),
    ensures
        shows(sp_tree, index as int, nodes_of(gene_trees@), marks@),
{
    let ghost f = nodes_of(gene_trees@);
    let ghost v = index as int;
    let mut marks = blank_marks(gene_trees);
    proof {
        assert forall|g: int, i: int| 0 <= g < f.len() && 0 <= i < f[g].len() implies #[trigger] marks@[g]@[i]
            == listed_before(sp_tree, v, 0, 0, g, i) by {
            lemma_listed_all(sp_tree, v, g, i);
        }
    }
    let mut s: usize = 0;
    while s < sp_tree.arena.len()
        invariant
            sp_tree.wf(),
            index < sp_tree@.len(),
            v == index as int,
            s <= sp_tree@.len(),
            f == nodes_of(gene_trees@),
            entries_valid(sp_tree, f, v),
            shows_before(sp_tree, v, s as int, 0, f, marks@),
        decreases sp_tree@.len() - s,
    {
        let mut k: usize = 0;
        if sp_tree.is_under(index, s) {
            let count = sp_tree.arena[s].nodes.len();
            while k < count
                invariant
                    k <= count,
                    s < sp_tree@.len(),
                    count == sp_tree@[s as int].nodes@.len(),
                    sp_tree.has(v, s as int),
                    f == nodes_of(gene_trees@),
                    entries_valid(sp_tree, f, v),
                    shows_before(sp_tree, v, s as int, k as int, f, marks@),
                decreases count - k,
            {
                let (g, i) = sp_tree.arena[s].nodes[k];
                let ghost before = marks@;
                proof {
                    let e = sp_tree@[s as int].nodes@[k as int];
                    assert(e.0 < f.len() && e.1 < f[e.0 as int].len());
                }
                marks[g][i] = true;
                proof {
                    assert(fits(f, marks@)) by {
                        assert forall|h: int| 0 <= h < f.len() implies (#[trigger] marks@[h])@.len()
                            == f[h].len() by {
                            assert(before[h]@.len() == f[h].len());
                        }
                    }
                    assert forall|h: int, m: int| 0 <= h < f.len() && 0 <= m < f[h].len() implies #[trigger] marks@[h]@[m]
                        == listed_before(sp_tree, v, s as int, k + 1, h, m) by {
                        lemma_listed_step(sp_tree, v, s as int, k as int, h, m);
                        assert(before[h]@[m] == listed_before(sp_tree, v, s as int, k as int, h, m));
                    }
                }
                k += 1;
            }
        }
        proof {
            assert forall|h: int, m: int| 0 <= h < f.len() && 0 <= m < f[h].len() implies #[trigger] marks@[h]@[m]
                == listed_before(sp_tree, v, s + 1, 0, h, m) by {
                lemma_listed_next(sp_tree, v, s as int, k as int, h, m);
            }
        }
        s += 1;
    }
    proof {
        assert forall|g: int, i: int| 0 <= g < f.len() && 0 <= i < f[g].len() implies #[trigger] marks@[g]@[i]
            == listed(sp_tree, v, g, i) by {
            lemma_listed_all(sp_tree, v, g, i);
        }
    }
    marks
}

} // verus!
