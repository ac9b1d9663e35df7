//! Gene trees on a species tree: which species node each gene node belongs
//! to, and which gene nodes each species node holds.

use vstd::prelude::*;
use crate::arena::ArenaTree;
use crate::event::LayoutError;
use crate::node::Noeud;

verus! {

/// Every node of every gene tree has a location that names a node of the
/// species tree.
pub open spec fn all_mapped(sp: &ArenaTree<String>, genes: Seq<ArenaTree<String>>) -> bool {
    forall|g: int, i: int|
        0 <= g < genes.len() && 0 <= i < genes[g]@.len() ==> sp.names(
            (#[trigger] genes[g]@[i]).location@,
        )
}

/// The node `n` stands where the last species node named `name` stands.
pub open spec fn sits_on(sp: &ArenaTree<String>, name: Seq<char>, n: Noeud<String>) -> bool {
    exists|s: int| #[trigger] sp.last_named(s, name) && n.x == sp@[s].x && n.y == sp@[s].y
}

/// The gene trees `b` are the gene trees `a` with each node put where the
/// species node that its location names stands, the last one where several
/// bear the name; nothing else changes.
pub open spec fn genes_mapped(
    sp: &ArenaTree<String>,
    a: Seq<ArenaTree<String>>,
    b: Seq<ArenaTree<String>>,
) -> bool {
    &&& a.len() == b.len()
    &&& forall|g: int| 0 <= g < a.len() ==> (#[trigger] b[g])@.len() == a[g]@.len()
    &&& forall|g: int, i: int|
        0 <= g < a.len() && 0 <= i < a[g]@.len() ==> {
            &&& (#[trigger] b[g]@[i]).same_but(a[g]@[i], true, true, false)
            &&& sits_on(sp, a[g]@[i].location@, b[g]@[i])
        }
}

/// Node `i` of gene tree `g` is the first, tree by tree and in order, whose
/// location names no node of the species tree.
pub open spec fn first_unmapped(
    sp: &ArenaTree<String>,
    genes: Seq<ArenaTree<String>>,
    g: int,
    i: int,
) -> bool {
    &&& 0 <= g < genes.len()
    &&& 0 <= i < genes[g]@.len()
    &&& !sp.names(genes[g]@[i].location@)
    &&& forall|k: int| 0 <= k < i ==> sp.names((#[trigger] genes[g]@[k]).location@)
    &&& forall|h: int, k: int|
        0 <= h < g && 0 <= k < genes[h]@.len() ==> sp.names((#[trigger] genes[h]@[k]).location@)
}

fn find_unmapped(sp_tree: &ArenaTree<String>, gene_trees: &Vec<ArenaTree<String>>) -> (r: Option<
    (usize, usize),
>)
    ensures
        match r {
            Some((g, i)) => first_unmapped(sp_tree, gene_trees@, g as int, i as int),
            None => all_mapped(sp_tree, gene_trees@),
        },
        r.is_some() ==> !all_mapped(sp_tree, gene_trees@),
{
    let mut g: usize = 0;
    while g < gene_trees.len()
        invariant
            g <= gene_trees@.len(),
            forall|h: int, i: int|
                0 <= h < g && 0 <= i < gene_trees@[h]@.len() ==> sp_tree.names(
                    (#[trigger] gene_trees@[h]@[i]).location@,
                ),
        decreases gene_trees@.len() - g,
    {
        let mut i: usize = 0;
        while i < gene_trees[g].arena.len()
            invariant
                g < gene_trees@.len(),
                i <= gene_trees@[g as int]@.len(),
                forall|h: int, i: int|
                    0 <= h < g && 0 <= i < gene_trees@[h]@.len() ==> sp_tree.names(
                        (#[trigger] gene_trees@[h]@[i]).location@,
                    ),
                forall|k: int|
                    0 <= k < i ==> sp_tree.names((#[trigger] gene_trees@[g as int]@[k]).location@),
            decreases gene_trees@[g as int]@.len() - i,
        {
            match sp_tree.find_last_index(&gene_trees[g].arena[i].location) {
                Some(_s) => {},
                None => {
                    assert(!sp_tree.names(gene_trees@[g as int]@[i as int].location@));
                    return Some((g, i));
                },
            }
            i += 1;
        }
        g += 1;
    }
    None
}

/// Puts every node of every gene tree where the species node stands that its
/// location names.
///
/// Fails, and changes nothing, where the location of a gene node names no
/// node of the species tree.
pub fn map_gene_trees(sp_tree: &mut ArenaTree<String>, gene_trees: &mut Vec<ArenaTree<String>>) -> (r:
    Result<(), LayoutError>)
    ensures
        *final(sp_tree) == *old(sp_tree),
        match r {
            Ok(()) => all_mapped(old(sp_tree), old(gene_trees)@) && genes_mapped(
                old(sp_tree),
                old(gene_trees)@,
                final(gene_trees)@,
            ),
            Err(LayoutError::UnmappedGeneNode(g, i)) => first_unmapped(
                old(sp_tree),
                old(gene_trees)@,
                g as int,
                i as int,
            ) && *final(gene_trees) == *old(gene_trees),
            Err(_) => false,
        },
{
    match find_unmapped(sp_tree, gene_trees) {
        Some((g, i)) => {
            return Err(LayoutError::UnmappedGeneNode(g, i));
        },
        None => {},
    }
    let ghost a = gene_trees@;
    let mut g: usize = 0;
    while g < gene_trees.len()
        invariant
            g <= a.len(),
            gene_trees@.len() == a.len(),
            all_mapped(sp_tree, a),
            forall|h: int| 0 <= h < a.len() ==> (#[trigger] gene_trees@[h])@.len() == a[h]@.len(),
            forall|h: int| g <= h < a.len() ==> #[trigger] gene_trees@[h] == a[h],
            forall|h: int, i: int|
                0 <= h < g && 0 <= i < a[h]@.len() ==> {
                    &&& (#[trigger] gene_trees@[h]@[i]).same_but(a[h]@[i], true, true, false)
                    &&& sits_on(sp_tree, a[h]@[i].location@, gene_trees@[h]@[i])
                },
        decreases a.len() - g,
    {
        let mut i: usize = 0;
        while i < gene_trees[g].arena.len()
            invariant
                g < a.len(),
                gene_trees@.len() == a.len(),
                all_mapped(sp_tree, a),
                i <= a[g as int]@.len(),
                forall|h: int|
                    0 <= h < a.len() ==> (#[trigger] gene_trees@[h])@.len() == a[h]@.len(),
                forall|h: int| g < h < a.len() ==> #[trigger] gene_trees@[h] == a[h],
                forall|h: int, i: int|
                    0 <= h < g && 0 <= i < a[h]@.len() ==> {
                        &&& (#[trigger] gene_trees@[h]@[i]).same_but(a[h]@[i], true, true, false)
                        &&& sits_on(sp_tree, a[h]@[i].location@, gene_trees@[h]@[i])
                    },
                forall|k: int|
                    i <= k < a[g as int]@.len() ==> #[trigger] gene_trees@[g as int]@[k]
                        == a[g as int]@[k],
                forall|k: int|
                    0 <= k < i ==> {
                        &&& (#[trigger] gene_trees@[g as int]@[k]).same_but(
                            a[g as int]@[k],
                            true,
                            true,
                            false,
                        )
                        &&& sits_on(sp_tree, a[g as int]@[k].location@, gene_trees@[g as int]@[k])
                    },
            decreases a[g as int]@.len() - i,
        {
            let found = sp_tree.find_last_index(&gene_trees[g].arena[i].location);
            assert(sp_tree.names(a[g as int]@[i as int].location@));
            match found {
                Some(s) => {
                    let x: i64 = sp_tree.arena[s].x;
                    let y: i64 = sp_tree.arena[s].y;
                    gene_trees[g].arena[i].x = x;
                    gene_trees[g].arena[i].y = y;
                    assert(sp_tree.last_named(s as int, a[g as int]@[i as int].location@));
                    assert(sits_on(
                        sp_tree,
                        a[g as int]@[i as int].location@,
                        gene_trees@[g as int]@[i as int],
                    ));
                },
                None => {},
            }
            i += 1;
        }
        proof {
            assert forall|h: int, i: int| 0 <= h < g + 1 && 0 <= i < a[h]@.len() implies {
                &&& (#[trigger] gene_trees@[h]@[i]).same_but(a[h]@[i], true, true, false)
                &&& sits_on(sp_tree, a[h]@[i].location@, gene_trees@[h]@[i])
            } by {
                if h == g {
                    assert(gene_trees@[g as int]@[i].same_but(a[g as int]@[i], true, true, false));
                }
            }
        }
        g += 1;
    }
    Ok(())
}

/// Among the first `k` nodes of the gene tree `t`, which is the `g`-th, those
/// whose location is `name`, in order, each as the pair of `g` and its index.
pub open spec fn tree_hits(name: Seq<char>, t: Seq<Noeud<String>>, g: usize, k: nat) -> Seq<
    (usize, usize),
>
    decreases k,
{
    if k == 0 {
        Seq::empty()
    } else {
        let before = tree_hits(name, t, g, (k - 1) as nat);
        if t[k - 1].location@ == name {
            before.push((g, t[k - 1].idx))
        } else {
            before
        }
    }
}

/// Among the nodes of the first `m` gene trees, those whose location is
/// `name`, tree by tree and in order.
pub open spec fn forest_hits(name: Seq<char>, genes: Seq<ArenaTree<String>>, m: nat) -> Seq<
    (usize, usize),
>
    decreases m,
{
    if m == 0 {
        Seq::empty()
    } else {
        forest_hits(name, genes, (m - 1) as nat) + tree_hits(
            name,
            genes[m - 1]@,
            (m - 1) as usize,
            genes[m - 1]@.len(),
        )
    }
}

/// The species tree `b` is the species tree `a` where each node has taken
/// up, after the gene nodes it held, every gene node whose location is its
/// name, and counts them; nothing else changes.
pub open spec fn species_mapped(
    a: &ArenaTree<String>,
    b: &ArenaTree<String>,
    genes: Seq<ArenaTree<String>>,
) -> bool {
    &&& a@.len() == b@.len()
    &&& forall|s: int|
        0 <= s < a@.len() ==> {
            &&& (#[trigger] b@[s]).same_but_genes(a@[s])
            &&& b@[s].nodes@ == a@[s].nodes@ + forest_hits(a@[s].name@, genes, genes.len())
            &&& b@[s].nbg == a@[s].nbg + forest_hits(a@[s].name@, genes, genes.len()).len()
        }
}

/// The first nodes of a gene tree hold no more hits than all of them.
pub proof fn lemma_tree_hits_grow(name: Seq<char>, t: Seq<Noeud<String>>, g: usize, k: nat, n: nat)
    requires
        k <= n,
    ensures
        tree_hits(name, t, g, k).len() <= tree_hits(name, t, g, n).len(),
    decreases n - k,
{
    if k < n {
        lemma_tree_hits_grow(name, t, g, k, (n - 1) as nat);
    }
}

/// The first gene trees hold no more hits than all of them.
pub proof fn lemma_forest_hits_grow(name: Seq<char>, genes: Seq<ArenaTree<String>>, m: nat, n: nat)
    requires
        m <= n,
    ensures
        forest_hits(name, genes, m).len() <= forest_hits(name, genes, n).len(),
    decreases n - m,
{
    if m < n {
        lemma_forest_hits_grow(name, genes, m, (n - 1) as nat);
    }
}

/// Gives every node of the species tree the gene nodes whose location is
/// its name, gene tree by gene tree and in order, after those it holds, and
/// raises its count of gene nodes by their number.
///
/// Fails, and changes nothing, where the location of a gene node names no
/// node of the species tree.
pub fn map_species_trees(sp_tree: &mut ArenaTree<String>, gene_trees: &mut Vec<ArenaTree<String>>) -> (r:
    Result<(), LayoutError>)
    requires
        old(gene_trees)@.len() <= usize::MAX,
        forall|s: int|
            0 <= s < old(sp_tree)@.len() ==> (#[trigger] old(sp_tree)@[s]).nbg + forest_hits(
                old(sp_tree)@[s].name@,
                old(gene_trees)@,
                old(gene_trees)@.len(),
            ).len() <= usize::MAX,
    ensures
        *final(gene_trees) == *old(gene_trees),
        match r {
            Ok(()) => all_mapped(old(sp_tree), old(gene_trees)@) && species_mapped(
                old(sp_tree),
                final(sp_tree),
                old(gene_trees)@,
            ),
            Err(LayoutError::UnmappedGeneNode(g, i)) => first_unmapped(
                old(sp_tree),
                old(gene_trees)@,
                g as int,
                i as int,
            ) && *final(sp_tree) == *old(sp_tree),
            Err(_) => false,
        },
{
    match find_unmapped(sp_tree, gene_trees) {
        Some((g, i)) => {
            return Err(LayoutError::UnmappedGeneNode(g, i));
        },
        None => {},
    }
    let ghost a = *sp_tree;
    let ghost genes = gene_trees@;
    let mut s: usize = 0;
    while s < sp_tree.arena.len()
        invariant
            s <= a@.len(),
            sp_tree@.len() == a@.len(),
            gene_trees@ == genes,
            forall|t: int|
                0 <= t < a@.len() ==> (#[trigger] a@[t]).nbg + forest_hits(
                    a@[t].name@,
                    genes,
                    genes.len(),
                ).len() <= usize::MAX,
            forall|t: int| s <= t < a@.len() ==> #[trigger] sp_tree@[t] == a@[t],
            forall|t: int|
                0 <= t < s ==> {
                    &&& (#[trigger] sp_tree@[t]).same_but_genes(a@[t])
                    &&& sp_tree@[t].nodes@ == a@[t].nodes@ + forest_hits(
                        a@[t].name@,
                        genes,
                        genes.len(),
                    )
                    &&& sp_tree@[t].nbg == a@[t].nbg + forest_hits(
                        a@[t].name@,
                        genes,
                        genes.len(),
                    ).len()
                },
        decreases a@.len() - s,
    {
        let ghost name = a@[s as int].name@;
        let mut g: usize = 0;
        assert(a@[s as int].nodes@ + forest_hits(name, genes, 0) =~= a@[s as int].nodes@);
        while g < gene_trees.len()
            invariant
                s < a@.len(),
                sp_tree@.len() == a@.len(),
                gene_trees@ == genes,
                g <= genes.len(),
                name == a@[s as int].name@,
                a@[s as int].nbg + forest_hits(name, genes, genes.len()).len() <= usize::MAX,
                forall|t: int| s < t < a@.len() ==> #[trigger] sp_tree@[t] == a@[t],
                forall|t: int|
                    0 <= t < s ==> {
                        &&& (#[trigger] sp_tree@[t]).same_but_genes(a@[t])
                        &&& sp_tree@[t].nodes@ == a@[t].nodes@ + forest_hits(
                            a@[t].name@,
                            genes,
                            genes.len(),
                        )
                        &&& sp_tree@[t].nbg == a@[t].nbg + forest_hits(
                            a@[t].name@,
                            genes,
                            genes.len(),
                        ).len()
                    },
                sp_tree@[s as int].same_but_genes(a@[s as int]),
                sp_tree@[s as int].nodes@ == a@[s as int].nodes@ + forest_hits(name, genes, g as nat),
                sp_tree@[s as int].nbg == a@[s as int].nbg + forest_hits(name, genes, g as nat).len(),
            decreases genes.len() - g,
        {
            let ghost before = forest_hits(name, genes, g as nat);
            let ghost t = genes[g as int]@;
            let mut i: usize = 0;
            proof {
                lemma_forest_hits_grow(name, genes, (g + 1) as nat, genes.len());
                assert(a@[s as int].nodes@ + before + tree_hits(name, t, g, 0) =~= a@[s as int].nodes@
                    + before);
            }
            while i < gene_trees[g].arena.len()
                invariant
                    s < a@.len(),
                    sp_tree@.len() == a@.len(),
                    gene_trees@ == genes,
                    g < genes.len(),
                    t == genes[g as int]@,
                    i <= t.len(),
                    name == a@[s as int].name@,
                    before == forest_hits(name, genes, g as nat),
                    a@[s as int].nbg + forest_hits(name, genes, (g + 1) as nat).len() <= usize::MAX,
                    forall|t: int| s < t < a@.len() ==> #[trigger] sp_tree@[t] == a@[t],
                    forall|t: int|
                        0 <= t < s ==> {
                            &&& (#[trigger] sp_tree@[t]).same_but_genes(a@[t])
                            &&& sp_tree@[t].nodes@ == a@[t].nodes@ + forest_hits(
                                a@[t].name@,
                                genes,
                                genes.len(),
                            )
                            &&& sp_tree@[t].nbg == a@[t].nbg + forest_hits(
                                a@[t].name@,
                                genes,
                                genes.len(),
                            ).len()
                        },
                    sp_tree@[s as int].same_but_genes(a@[s as int]),
                    sp_tree@[s as int].nodes@ == a@[s as int].nodes@ + before + tree_hits(
                        name,
                        t,
                        g,
                        i as nat,
                    ),
                    sp_tree@[s as int].nbg == a@[s as int].nbg + before.len() + tree_hits(
                        name,
                        t,
                        g,
                        i as nat,
                    ).len(),
                decreases t.len() - i,
            {
                proof {
                    lemma_tree_hits_grow(name, t, g, (i + 1) as nat, t.len());
                }
                if gene_trees[g].arena[i].location == sp_tree.arena[s].name {
                    let idx = gene_trees[g].arena[i].idx;
                    let nbg = sp_tree.arena[s].nbg;
                    sp_tree.arena[s].nbg = nbg + 1;
                    sp_tree.arena[s].nodes.push((g, idx));
                    assert(sp_tree@[s as int].nodes@ =~= a@[s as int].nodes@ + before + tree_hits(
                        name,
                        t,
                        g,
                        (i + 1) as nat,
                    ));
                }
                i += 1;
            }
            proof {
                assert(a@[s as int].nodes@ + before + tree_hits(name, t, g, t.len()) =~= a@[s as int].nodes@
                    + forest_hits(name, genes, (g + 1) as nat));
            }
            g += 1;
        }
        s += 1;
    }
    Ok(())
}

} // verus!
