//! The last touch of the mapping: duplications are anchored to their left
//! branch, leaves are brought back to the pipe of their species.

use vstd::prelude::*;
use crate::apart::{listed, listed_once, names};
use crate::arena::{same_shape, ArenaTree};
use crate::event::{Event, LayoutError};
use crate::listing::{
    lemma_first_child, lemma_listed_all, lemma_listed_next, lemma_listed_step, listed_before,
    listed_nodes, shows, trees_formed,
};
use crate::node::{half, half_of, Noeud};
use crate::shape::lemma_depth_bound;

verus! {

/// The nodes of each gene tree.
pub open spec fn nodes_of(genes: Seq<ArenaTree<String>>) -> Seq<Seq<Noeud<String>>> {
    Seq::new(genes.len(), |g: int| genes[g]@)
}

/// The gene nodes mapped to the species nodes of the subtree rooted at `v`
/// are nodes of the gene trees `f`.
pub open spec fn entries_valid(sp: &ArenaTree<String>, f: Seq<Seq<Noeud<String>>>, v: int) -> bool {
    forall|s: int, j: int|
        sp.has(v, s) && 0 <= j < sp@[s].nodes@.len() ==> (#[trigger] sp@[s].nodes@[j]).0 < f.len()
            && sp@[s].nodes@[j].1 < f[sp@[s].nodes@[j].0 as int].len()
}

/// Two sets of gene trees have trees of the same sizes whose nodes agree on
/// their events and on their links.
pub open spec fn same_genes(f: Seq<Seq<Noeud<String>>>, h: Seq<Seq<Noeud<String>>>) -> bool {
    &&& f.len() == h.len()
    &&& forall|g: int| 0 <= g < f.len() ==> (#[trigger] f[g]).len() == h[g].len()
    &&& forall|g: int, i: int|
        0 <= g < f.len() && 0 <= i < f[g].len() ==> (#[trigger] f[g][i]).same_fixed(h[g][i])
}

/// The vertical centre of the pipe in which the leaves mapped to the
/// species node `at` are drawn: `y + height / 2`.
pub open spec fn pipe_centre(at: Noeud<String>) -> int {
    at.y + half(at.height as int)
}

/// In the gene trees `h`, node `d` of gene tree `g` stands at the
/// horizontal coordinate of its first child.
pub open spec fn tied(h: Seq<Seq<Noeud<String>>>, g: int, d: int) -> bool {
    h[g][d].x == h[g][h[g][d].children@[0] as int].x
}

/// Node `i` of the gene tree `t`, the `g`-th, is a duplication with a first
/// child that a species node of the subtree rooted at `v` lists: one that is
/// anchored.
pub open spec fn moves(sp: &ArenaTree<String>, v: int, t: ArenaTree<String>, g: int, i: int) -> bool {
    listed(sp, v, g, i) && t@[i].e == Event::Duplication && t@[i].children@.len() >= 1
}

/// The node on which node `i` of the gene tree `t` comes to rest: the first
/// node down the first children from `i` that is not anchored, `i` itself
/// where `i` is not.
pub open spec fn rest(sp: &ArenaTree<String>, v: int, t: ArenaTree<String>, g: int, i: int) -> int
    decreases t@.len() - t.spec_depth(i),
    when t.wf() && 0 <= i < t@.len()
{
    if moves(sp, v, t, g, i) {
        proof {
            lemma_first_child(t, i);
        }
        rest(sp, v, t, g, t@[i].children@[0] as int)
    } else {
        i
    }
}

/// Among the species nodes of the subtree rooted at `v` that list node `i`
/// of gene tree `g`, before entry `k0` of species node `s0`, `s` is the last.
pub open spec fn lists_last_before(
    sp: &ArenaTree<String>,
    v: int,
    s0: int,
    k0: int,
    g: int,
    i: int,
    s: int,
) -> bool {
    &&& sp.has(v, s)
    &&& exists|j: int|
        0 <= j < sp@[s].nodes@.len() && (s < s0 || (s == s0 && j < k0)) && names(
            #[trigger] sp@[s].nodes@[j],
            g,
            i,
        )
    &&& forall|t: int, k: int|
        sp.has(v, t) && 0 <= k < sp@[t].nodes@.len() && (t < s0 || (t == s0 && k < k0)) && names(
            #[trigger] sp@[t].nodes@[k],
            g,
            i,
        ) ==> t <= s
}

/// The leaf `n`, node `i` of gene tree `g`, has no vertical modifier and
/// stands at the vertical centre of the pipe of the last species node that
/// lists it before entry `k0` of species node `s0`.
pub open spec fn pinned_before(
    sp: &ArenaTree<String>,
    v: int,
    s0: int,
    k0: int,
    n: Noeud<String>,
    g: int,
    i: int,
) -> bool {
    &&& n.ymod == 0
    &&& exists|s: int| #[trigger] lists_last_before(sp, v, s0, k0, g, i, s) && n.y == pipe_centre(sp@[s])
}

/// The leaf `n`, node `i` of gene tree `g`, has no vertical modifier and
/// stands at the vertical centre of the pipe of the last species node of the
/// subtree rooted at `v` that lists it.
pub open spec fn pinned(sp: &ArenaTree<String>, v: int, n: Noeud<String>, g: int, i: int) -> bool {
    pinned_before(sp, v, sp@.len() as int, 0, n, g, i)
}

/// What lists a gene node last before an entry lists it last before the
/// next, unless that entry lists it; then its species node does.
proof fn lemma_last_step(sp: &ArenaTree<String>, v: int, s0: int, k0: int, g: int, i: int, s: int)
    requires
        sp.has(v, s0),
        0 <= k0 < sp@[s0].nodes@.len(),
    ensures
        names(sp@[s0].nodes@[k0], g, i) ==> lists_last_before(sp, v, s0, k0 + 1, g, i, s0),
        !names(sp@[s0].nodes@[k0], g, i) && lists_last_before(sp, v, s0, k0, g, i, s)
            ==> lists_last_before(sp, v, s0, k0 + 1, g, i, s),
{
    if !names(sp@[s0].nodes@[k0], g, i) && lists_last_before(sp, v, s0, k0, g, i, s) {
        let j = choose|j: int|
            0 <= j < sp@[s].nodes@.len() && (s < s0 || (s == s0 && j < k0)) && names(
                #[trigger] sp@[s].nodes@[j],
                g,
                i,
            );
        assert(names(sp@[s].nodes@[j], g, i));
    }
}

/// What lists a gene node last before the end of the entries of a species
/// node, or before a node outside the subtree, lists it last before the
/// next node.
proof fn lemma_last_next(sp: &ArenaTree<String>, v: int, s0: int, k0: int, g: int, i: int, s: int)
    requires
        !sp.has(v, s0) || k0 >= sp@[s0].nodes@.len(),
        k0 >= 0,
        lists_last_before(sp, v, s0, k0, g, i, s),
    ensures
        lists_last_before(sp, v, s0 + 1, 0, g, i, s),
{
    let j = choose|j: int|
        0 <= j < sp@[s].nodes@.len() && (s < s0 || (s == s0 && j < k0)) && names(
            #[trigger] sp@[s].nodes@[j],
            g,
            i,
        );
    assert(names(sp@[s].nodes@[j], g, i));
}

/// Node `i` of gene tree `g` stands in the gene trees `h` as the last touch
/// leaves it, from the gene trees `genes`: at the horizontal coordinate that
/// the node on which it comes to rest had, so that an anchored duplication
/// is tied to its first child; where it is a listed leaf, pinned, and
/// otherwise as high as it was; with everything else as it was.
pub open spec fn touched_at(
    sp: &ArenaTree<String>,
    v: int,
    genes: Seq<ArenaTree<String>>,
    h: Seq<Seq<Noeud<String>>>,
    g: int,
    i: int,
) -> bool {
    let o = genes[g]@[i];
    let n = h[g][i];
    &&& n.xmod == o.xmod
    &&& n.width == o.width
    &&& n.height == o.height
    &&& n.x == genes[g]@[rest(sp, v, genes[g], g, i)].x
    &&& moves(sp, v, genes[g], g, i) ==> tied(h, g, i)
    &&& if listed(sp, v, g, i) && o.e == Event::Leaf {
        pinned(sp, v, n, g, i)
    } else {
        n.y == o.y && n.ymod == o.ymod
    }
}

/// The gene trees `h` are the gene trees `genes` after the last touch for
/// the subtree rooted at `v`.
pub open spec fn touched(
    sp: &ArenaTree<String>,
    v: int,
    genes: Seq<ArenaTree<String>>,
    h: Seq<Seq<Noeud<String>>>,
) -> bool {
    &&& same_genes(nodes_of(genes), h)
    &&& forall|g: int, i: int|
        0 <= g < genes.len() && 0 <= i < genes[g]@.len() ==> #[trigger] touched_at(
            sp,
            v,
            genes,
            h,
            g,
            i,
        )
}

/// A node comes to rest on a node of its tree that is not anchored.
pub proof fn lemma_rest(sp: &ArenaTree<String>, v: int, t: ArenaTree<String>, g: int, i: int)
    requires
        t.wf(),
        0 <= i < t@.len(),
    ensures
        0 <= rest(sp, v, t, g, i) < t@.len(),
        !moves(sp, v, t, g, rest(sp, v, t, g, i)),
    decreases t@.len() - t.spec_depth(i),
{
    if moves(sp, v, t, g, i) {
        lemma_first_child(t, i);
        lemma_rest(sp, v, t, g, t@[i].children@[0] as int);
    }
}

/// Node `i` of gene tree `g` stands in `h` as pinning leaves it once the
/// lists are walked as far as entry `k` of species node `s`: pinned where it
/// is a leaf listed so far, and else as it stood in `f`.
spec fn pin_at(
    sp: &ArenaTree<String>,
    v: int,
    f: Seq<Seq<Noeud<String>>>,
    h: Seq<Seq<Noeud<String>>>,
    s: int,
    k: int,
    g: int,
    i: int,
) -> bool {
    let o = f[g][i];
    let n = h[g][i];
    &&& n.x == o.x
    &&& n.xmod == o.xmod
    &&& n.width == o.width
    &&& n.height == o.height
    &&& if listed_before(sp, v, s, k, g, i) && o.e == Event::Leaf {
        pinned_before(sp, v, s, k, n, g, i)
    } else {
        n.y == o.y && n.ymod == o.ymod
    }
}

/// The gene trees `h` are the gene trees `f` with the leaves pinned that
/// are listed before entry `k` of species node `s`.
spec fn pins(
    sp: &ArenaTree<String>,
    v: int,
    f: Seq<Seq<Noeud<String>>>,
    h: Seq<Seq<Noeud<String>>>,
    s: int,
    k: int,
) -> bool {
    &&& same_genes(f, h)
    &&& forall|g: int, i: int|
        0 <= g < f.len() && 0 <= i < f[g].len() ==> #[trigger] pin_at(sp, v, f, h, s, k, g, i)
}

/// Pins the leaves that the species nodes of the subtree rooted at `index`
/// list, species node by species node.
fn pin_leaves(sp_tree: &ArenaTree<String>, gene_trees: &mut Vec<ArenaTree<String>>, index: usize)
    requires
        sp_tree.wf(),
        sp_tree.bounded(),
        index < sp_tree@.len(),
        entries_valid(sp_tree, nodes_of(old(gene_trees)@), index as int),
    ensures
        pins(
            sp_tree,
            index as int,
            nodes_of(old(gene_trees)@),
            nodes_of(final(gene_trees)@),
            sp_tree@.len() as int,
            0,
        ),
{
    let ghost f0 = nodes_of(gene_trees@);
    let ghost v = index as int;
    proof {
        assert forall|g: int, i: int| 0 <= g < f0.len() && 0 <= i < f0[g].len() implies #[trigger] pin_at(
            sp_tree,
            v,
            f0,
            f0,
            0,
            0,
            g,
            i,
        ) by {
            lemma_listed_all(sp_tree, v, g, i);
        }
    }
    let mut s: usize = 0;
    while s < sp_tree.arena.len()
        invariant
            sp_tree.wf(),
            sp_tree.bounded(),
            index < sp_tree@.len(),
            v == index as int,
            s <= sp_tree@.len(),
            entries_valid(sp_tree, f0, v),
            pins(sp_tree, v, f0, nodes_of(gene_trees@), s as int, 0),
        decreases sp_tree@.len() - s,
    {
        let mut k: usize = 0;
        if sp_tree.is_under(index, s) {
            let count = sp_tree.arena[s].nodes.len();
            while k < count
                invariant
                    k <= count,
                    s < sp_tree@.len(),
                    count == sp_tree@[s as int].nodes@.len(),
                    sp_tree.has(v, s as int),
                    sp_tree.bounded(),
                    entries_valid(sp_tree, f0, v),
                    pins(sp_tree, v, f0, nodes_of(gene_trees@), s as int, k as int),
                decreases count - k,
            {
                let (g, i) = sp_tree.arena[s].nodes[k];
                let ghost cur = nodes_of(gene_trees@);
                proof {
                    let e = sp_tree@[s as int].nodes@[k as int];
                    assert(e.0 < f0.len() && e.1 < f0[e.0 as int].len());
                    assert(cur[g as int] == gene_trees@[g as int]@);
                    assert(f0[g as int].len() == cur[g as int].len());
                    assert(f0[g as int][i as int].same_fixed(cur[g as int][i as int]));
                    assert(sp_tree@[s as int].bounded());
                }
                match gene_trees[g].arena[i].e {
                    Event::Leaf => {
                        let y: i64 = sp_tree.arena[s].y + half_of(sp_tree.arena[s].height);
                        gene_trees[g].arena[i].y = y;
                        gene_trees[g].arena[i].ymod = 0;
                    },
                    _ => {},
                }
                proof {
                    let next = nodes_of(gene_trees@);
                    assert(same_genes(f0, next)) by {
                        assert forall|h: int| 0 <= h < f0.len() implies (#[trigger] f0[h]).len()
                            == next[h].len() by {
                            assert(f0[h].len() == cur[h].len());
                        }
                        assert forall|h: int, m: int| 0 <= h < f0.len() && 0 <= m < f0[h].len() implies (
                        #[trigger] f0[h][m]).same_fixed(next[h][m]) by {
                            assert(f0[h].len() == cur[h].len());
                            assert(f0[h][m].same_fixed(cur[h][m]));
                        }
                    }
                    assert forall|h: int, m: int| 0 <= h < f0.len() && 0 <= m < f0[h].len() implies #[trigger] pin_at(
                        sp_tree,
                        v,
                        f0,
                        next,
                        s as int,
                        k + 1,
                        h,
                        m,
                    ) by {
                        lemma_listed_step(sp_tree, v, s as int, k as int, h, m);
                        assert(pin_at(sp_tree, v, f0, cur, s as int, k as int, h, m));
                        assert(f0[h].len() == cur[h].len());
                        if h == g && m == i {
                            assert(names(sp_tree@[s as int].nodes@[k as int], h, m));
                            lemma_last_step(sp_tree, v, s as int, k as int, h, m, s as int);
                        } else {
                            assert(next[h][m] == cur[h][m]);
                            assert(!names(sp_tree@[s as int].nodes@[k as int], h, m));
                            if listed_before(sp_tree, v, s as int, k as int, h, m) && f0[h][m].e
                                == Event::Leaf {
                                let t = choose|t: int| #[trigger]
                                    lists_last_before(sp_tree, v, s as int, k as int, h, m, t)
                                        && cur[h][m].y == pipe_centre(sp_tree@[t]);
                                lemma_last_step(sp_tree, v, s as int, k as int, h, m, t);
                            }
                        }
                    }
                }
                k += 1;
            }
        }
        proof {
            let cur = nodes_of(gene_trees@);
            assert forall|h: int, m: int| 0 <= h < f0.len() && 0 <= m < f0[h].len() implies #[trigger] pin_at(
                sp_tree,
                v,
                f0,
                cur,
                s + 1,
                0,
                h,
                m,
            ) by {
                lemma_listed_next(sp_tree, v, s as int, k as int, h, m);
                assert(pin_at(sp_tree, v, f0, cur, s as int, k as int, h, m));
                if listed_before(sp_tree, v, s as int, k as int, h, m) && f0[h][m].e == Event::Leaf {
                    let t = choose|t: int| #[trigger]
                        lists_last_before(sp_tree, v, s as int, k as int, h, m, t) && cur[h][m].y
                            == pipe_centre(sp_tree@[t]);
                    lemma_last_next(sp_tree, v, s as int, k as int, h, m, t);
                }
            }
        }
        s += 1;
    }
}

/// The node on which node `i` of `tree` comes to rest, found by walking down
/// the first children.
fn rest_of(
    sp_tree: &ArenaTree<String>,
    tree: &ArenaTree<String>,
    row: &Vec<bool>,
    i: usize,
    Ghost(v): Ghost<int>,
    Ghost(g): Ghost<int>,
    Ghost(t0): Ghost<ArenaTree<String>>,
) -> (c: usize)
    requires
        t0.wf(),
        same_shape(t0@, tree@),
        i < tree@.len(),
        row@.len() == tree@.len(),
        forall|m: int| 0 <= m < row@.len() ==> #[trigger] row@[m] == listed(sp_tree, v, g, m),
    ensures
        c < tree@.len(),
        c == rest(sp_tree, v, t0, g, i as int),
        !moves(sp_tree, v, t0, g, c as int),
{
    let mut c = i;
    loop
        invariant
            t0.wf(),
            same_shape(t0@, tree@),
            c < tree@.len(),
            row@.len() == tree@.len(),
            forall|m: int| 0 <= m < row@.len() ==> #[trigger] row@[m] == listed(sp_tree, v, g, m),
            rest(sp_tree, v, t0, g, c as int) == rest(sp_tree, v, t0, g, i as int),
        decreases t0@.len() - t0.spec_depth(c as int),
    {
        proof {
            assert(t0@[c as int].same_fixed(tree@[c as int]));
            lemma_depth_bound(t0.links(), c as int);
        }
        let dupli = match tree.arena[c].e {
            Event::Duplication => true,
            _ => false,
        };
        if !(row[c] && dupli && tree.arena[c].children.len() >= 1) {
            return c;
        }
        proof {
            lemma_first_child(t0, c as int);
        }
        c = tree.arena[c].children[0];
    }
}

/// Node `i` of gene tree `g` stands in `h` as anchoring leaves it once the
/// gene trees are walked as far as node `id` of tree `gd`: at the horizontal
/// coordinate of the node on which it comes to rest where its turn has come,
/// and else where it stood; with everything else as in `f`.
spec fn drawn_at(
    sp: &ArenaTree<String>,
    v: int,
    genes: Seq<ArenaTree<String>>,
    f: Seq<Seq<Noeud<String>>>,
    h: Seq<Seq<Noeud<String>>>,
    gd: int,
    id: int,
    g: int,
    i: int,
) -> bool {
    &&& h[g][i].same_but(f[g][i], true, false, false)
    &&& h[g][i].x == if g < gd || (g == gd && i < id) {
        genes[g]@[rest(sp, v, genes[g], g, i)].x
    } else {
        genes[g]@[i].x
    }
}

/// The gene trees `h` are the gene trees `f` with the nodes anchored that
/// come before node `id` of tree `gd`.
spec fn drawn(
    sp: &ArenaTree<String>,
    v: int,
    genes: Seq<ArenaTree<String>>,
    f: Seq<Seq<Noeud<String>>>,
    h: Seq<Seq<Noeud<String>>>,
    gd: int,
    id: int,
) -> bool {
    &&& same_genes(nodes_of(genes), f)
    &&& same_genes(nodes_of(genes), h)
    &&& forall|g: int, i: int|
        0 <= g < genes.len() && 0 <= i < genes[g]@.len() ==> #[trigger] drawn_at(
            sp,
            v,
            genes,
            f,
            h,
            gd,
            id,
            g,
            i,
        )
}

/// Puts every node of every gene tree at the horizontal coordinate of the
/// node on which it comes to rest.
fn anchor_all(
    sp_tree: &ArenaTree<String>,
    gene_trees: &mut Vec<ArenaTree<String>>,
    marks: &Vec<Vec<bool>>,
    Ghost(v): Ghost<int>,
    Ghost(genes): Ghost<Seq<ArenaTree<String>>>,
)
    requires
        trees_formed(genes),
        shows(sp_tree, v, nodes_of(genes), marks@),
        drawn(sp_tree, v, genes, nodes_of(old(gene_trees)@), nodes_of(old(gene_trees)@), 0, 0),
    ensures
        drawn(
            sp_tree,
            v,
            genes,
            nodes_of(old(gene_trees)@),
            nodes_of(final(gene_trees)@),
            genes.len() as int,
            0,
        ),
{
    let ghost f0 = nodes_of(genes);
    let ghost f1 = nodes_of(gene_trees@);
    let mut g: usize = 0;
    while g < gene_trees.len()
        invariant
            g <= genes.len(),
            gene_trees@.len() == genes.len(),
            f0 == nodes_of(genes),
            trees_formed(genes),
            shows(sp_tree, v, f0, marks@),
            drawn(sp_tree, v, genes, f1, nodes_of(gene_trees@), g as int, 0),
        decreases genes.len() - g,
    {
        let count = gene_trees[g].arena.len();
        proof {
            assert(nodes_of(gene_trees@)[g as int] == gene_trees@[g as int]@);
            assert(f0[g as int].len() == nodes_of(gene_trees@)[g as int].len());
        }
        let mut i: usize = 0;
        while i < count
            invariant
                i <= count,
                g < genes.len(),
                gene_trees@.len() == genes.len(),
                count == genes[g as int]@.len(),
                f0 == nodes_of(genes),
                trees_formed(genes),
                shows(sp_tree, v, f0, marks@),
                drawn(sp_tree, v, genes, f1, nodes_of(gene_trees@), g as int, i as int),
            decreases count - i,
        {
            let ghost cur = nodes_of(gene_trees@);
            let ghost t0 = genes[g as int];
            proof {
                assert(cur[g as int] == gene_trees@[g as int]@);
                assert(f0[g as int] == t0@);
                assert(f0[g as int].len() == cur[g as int].len());
                assert(f0[g as int][i as int].same_fixed(cur[g as int][i as int]));
                assert(same_shape(t0@, gene_trees@[g as int]@)) by {
                    assert forall|m: int| 0 <= m < t0@.len() implies (#[trigger] t0@[m]).same_fixed(
                        gene_trees@[g as int]@[m],
                    ) by {
                        assert(f0[g as int][m].same_fixed(cur[g as int][m]));
                    }
                }
                assert(marks@[g as int]@.len() == f0[g as int].len());
                assert forall|m: int| 0 <= m < marks@[g as int]@.len() implies #[trigger] marks@[g as int]@[m]
                    == listed(sp_tree, v, g as int, m) by {}
                lemma_rest(sp_tree, v, t0, g as int, i as int);
            }
            let dupli = match gene_trees[g].arena[i].e {
                Event::Duplication => true,
                _ => false,
            };
            if marks[g][i] && dupli && gene_trees[g].arena[i].children.len() >= 1 {
                let c = rest_of(
                    sp_tree,
                    &gene_trees[g],
                    &marks[g],
                    i,
                    Ghost(v),
                    Ghost(g as int),
                    Ghost(t0),
                );
                let x: i64 = gene_trees[g].arena[c].x;
                proof {
                    assert(drawn_at(sp_tree, v, genes, f1, cur, g as int, i as int, g as int, c as int));
                    assert(x == t0@[c as int].x);
                }
                gene_trees[g].arena[i].x = x;
            }
            proof {
                let next = nodes_of(gene_trees@);
                assert(same_genes(f0, next)) by {
                    assert forall|h: int| 0 <= h < f0.len() implies (#[trigger] f0[h]).len()
                        == next[h].len() by {
                        assert(f0[h].len() == cur[h].len());
                    }
                    assert forall|h: int, m: int| 0 <= h < f0.len() && 0 <= m < f0[h].len() implies (
                    #[trigger] f0[h][m]).same_fixed(next[h][m]) by {
                        assert(f0[h].len() == cur[h].len());
                        assert(f0[h][m].same_fixed(cur[h][m]));
                    }
                }
                assert forall|h: int, m: int| 0 <= h < genes.len() && 0 <= m < genes[h]@.len() implies #[trigger] drawn_at(
                    sp_tree,
                    v,
                    genes,
                    f1,
                    next,
                    g as int,
                    i + 1,
                    h,
                    m,
                ) by {
                    assert(drawn_at(sp_tree, v, genes, f1, cur, g as int, i as int, h, m));
                    assert(f0[h] == genes[h]@);
                    assert(f0[h].len() == cur[h].len());
                    if h == g && m == i {
                    } else {
                        assert(next[h][m] == cur[h][m]);
                    }
                }
            }
            i += 1;
        }
        proof {
            let cur = nodes_of(gene_trees@);
            assert forall|h: int, m: int| 0 <= h < genes.len() && 0 <= m < genes[h]@.len() implies #[trigger] drawn_at(
                sp_tree,
                v,
                genes,
                f1,
                cur,
                g + 1,
                0,
                h,
                m,
            ) by {
                assert(drawn_at(sp_tree, v, genes, f1, cur, g as int, count as int, h, m));
            }
        }
        g += 1;
    }
}

/// Touches up the gene nodes that the species nodes of the subtree rooted
/// at `index` list. A duplication with a first child is anchored to its left
/// branch: it takes the horizontal coordinate on which its first child ends,
/// which is that of the first node down the first children that is not
/// itself anchored. A leaf is pinned to the vertical centre of the pipe of
/// the species node that lists it, the last of them where several do, and
/// loses its vertical modifier. Everything else stays.
///
/// Fails, and changes nothing, where a node of the subtree has one child or
/// more than two.
pub fn move_dupli_mappings(
    sp_tree: &mut ArenaTree<String>,
    gene_trees: &mut Vec<ArenaTree<String>>,
    index: usize,
) -> (r: Result<(), LayoutError>)
    requires
        old(sp_tree).wf(),
        old(sp_tree).binary_from(index as int) ==> old(sp_tree).bounded(),
        index < old(sp_tree)@.len(),
        old(sp_tree).binary_from(index as int) ==> entries_valid(
            old(sp_tree),
            nodes_of(old(gene_trees)@),
            index as int,
        ),
        old(sp_tree).binary_from(index as int) ==> trees_formed(old(gene_trees)@),
    ensures
        *final(sp_tree) == *old(sp_tree),
        match r {
            Ok(()) => old(sp_tree).binary_from(index as int) && touched(
                old(sp_tree),
                index as int,
                old(gene_trees)@,
                nodes_of(final(gene_trees)@),
            ),
            Err(LayoutError::NonBinaryNode(n)) => old(sp_tree).first_odd(index as int, n as int) && *final(gene_trees) == *old(gene_trees),
            Err(_) => false,
        },
{
    match sp_tree.find_odd(index) {
        Some(n) => {
            return Err(LayoutError::NonBinaryNode(n));
        },
        None => {},
    }
    let ghost genes = gene_trees@;
    let ghost v = index as int;
    let marks = listed_nodes(sp_tree, gene_trees, index);
    pin_leaves(sp_tree, gene_trees, index);
    let ghost f1 = nodes_of(gene_trees@);
    proof {
        let f0 = nodes_of(genes);
        assert forall|g: int, i: int| 0 <= g < genes.len() && 0 <= i < genes[g]@.len() implies #[trigger] drawn_at(
            sp_tree,
            v,
            genes,
            f1,
            f1,
            0,
            0,
            g,
            i,
        ) by {
            assert(f0[g] == genes[g]@);
            assert(pin_at(sp_tree, v, f0, f1, sp_tree@.len() as int, 0, g, i));
        }
    }
    anchor_all(sp_tree, gene_trees, &marks, Ghost(v), Ghost(genes));
    proof {
        let f0 = nodes_of(genes);
        let f2 = nodes_of(gene_trees@);
        assert forall|g: int, i: int| 0 <= g < genes.len() && 0 <= i < genes[g]@.len() implies #[trigger] touched_at(
            sp_tree,
            v,
            genes,
            f2,
            g,
            i,
        ) by {
            let t = genes[g];
            assert(f0[g] == t@);
            assert(f0[g].len() == f1[g].len() && f0[g].len() == f2[g].len());
            assert(pin_at(sp_tree, v, f0, f1, sp_tree@.len() as int, 0, g, i));
            assert(drawn_at(sp_tree, v, genes, f1, f2, genes.len() as int, 0, g, i));
            lemma_listed_all(sp_tree, v, g, i);
            assert(f0[g][i].same_fixed(f2[g][i]));
            if moves(sp_tree, v, t, g, i) {
                lemma_first_child(t, i);
                let c = t@[i].children@[0] as int;
                assert(drawn_at(sp_tree, v, genes, f1, f2, genes.len() as int, 0, g, c));
                assert(rest(sp_tree, v, t, g, i) == rest(sp_tree, v, t, g, c));
            }
        }
    }
    Ok(())
}

/// A duplication is anchored to its left branch: after the last touch for
/// the subtree rooted at `v`, a duplication with a first child that a
/// species node of the subtree lists stands at the horizontal coordinate at
/// which that child stands.
pub proof fn lemma_duplication_anchored(
    sp: &ArenaTree<String>,
    genes: Seq<ArenaTree<String>>,
    h: Seq<Seq<Noeud<String>>>,
    v: int,
    s: int,
    j: int,
)
    requires
        touched(sp, v, genes, h),
        entries_valid(sp, nodes_of(genes), v),
        sp.has(v, s),
        0 <= j < sp@[s].nodes@.len(),
        genes[sp@[s].nodes@[j].0 as int]@[sp@[s].nodes@[j].1 as int].e == Event::Duplication,
        genes[sp@[s].nodes@[j].0 as int]@[sp@[s].nodes@[j].1 as int].children@.len() >= 1,
    ensures
        tied(h, sp@[s].nodes@[j].0 as int, sp@[s].nodes@[j].1 as int),
{
    let e = sp@[s].nodes@[j];
    let g = e.0 as int;
    let i = e.1 as int;
    assert(nodes_of(genes)[g] == genes[g]@);
    assert(names(sp@[s].nodes@[j], g, i));
    assert(listed(sp, v, g, i));
    assert(touched_at(sp, v, genes, h, g, i));
}

/// A leaf is brought back to its pipe: after the last touch for the subtree
/// rooted at `v`, where no gene node is listed twice, a leaf that a species
/// node of the subtree lists stands at the vertical centre of the pipe of
/// that species node, without a vertical modifier.
pub proof fn lemma_leaf_pinned(
    sp: &ArenaTree<String>,
    genes: Seq<ArenaTree<String>>,
    h: Seq<Seq<Noeud<String>>>,
    v: int,
    s: int,
    j: int,
)
    requires
        touched(sp, v, genes, h),
        entries_valid(sp, nodes_of(genes), v),
        listed_once(sp, v),
        sp.has(v, s),
        0 <= j < sp@[s].nodes@.len(),
        genes[sp@[s].nodes@[j].0 as int]@[sp@[s].nodes@[j].1 as int].e == Event::Leaf,
    ensures
        h[sp@[s].nodes@[j].0 as int][sp@[s].nodes@[j].1 as int].y == pipe_centre(sp@[s]),
        h[sp@[s].nodes@[j].0 as int][sp@[s].nodes@[j].1 as int].ymod == 0,
{
    let e = sp@[s].nodes@[j];
    let g = e.0 as int;
    let i = e.1 as int;
    assert(nodes_of(genes)[g] == genes[g]@);
    assert(names(sp@[s].nodes@[j], g, i));
    assert(listed(sp, v, g, i));
    assert(touched_at(sp, v, genes, h, g, i));
    let n = h[g][i];
    let t = choose|t: int| #[trigger]
        lists_last_before(sp, v, sp@.len() as int, 0, g, i, t) && n.y == pipe_centre(sp@[t]);
    let k = choose|k: int|
        0 <= k < sp@[t].nodes@.len() && (t < sp@.len() || (t == sp@.len() && k < 0)) && names(
            #[trigger] sp@[t].nodes@[k],
            g,
            i,
        );
    if t != s || k != j {
        assert(sp@[t].nodes@[k] != sp@[s].nodes@[j]);
    }
}

} // verus!
