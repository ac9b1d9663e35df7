//! Gene nodes that share a species node, spread apart inside its pipe.

use vstd::prelude::*;
use crate::anchor::{entries_valid, nodes_of};
use crate::apart::{listed, names};
use crate::arena::{same_shape, ArenaTree};
use crate::listing::{listed_nodes, shows, trees_formed, trees_small};
use crate::centre::{afar, distinct_lists, room, same_but_place, within};
use crate::event::{Event, LayoutError};
use crate::node::{reach, Noeud, COORD_LIMIT, DUPLICATION_DROP, LOSS_DROP, NODE_LIMIT, PIPEBLOCK};
use crate::shape::{
    lemma_count_split, lemma_depth_bound, lemma_depth_step, lemma_size, lemma_subtree_trans,
};

verus! {

/// The gene node `e` has a parent where its event places it below its
/// parent.
pub open spec fn not_orphan(f: Seq<Seq<Noeud<String>>>, e: (usize, usize)) -> bool {
    let n = f[e.0 as int][e.1 as int];
    n.e.hangs_from_parent() ==> n.parent.is_some()
}

/// Each gene node mapped to a species node of the subtree rooted at `v` has
/// a parent where its event places it below its parent.
pub open spec fn no_orphan(sp: &ArenaTree<String>, f: Seq<Seq<Noeud<String>>>, v: int) -> bool {
    forall|s: int, j: int|
        sp.has(v, s) && 0 <= j < sp@[s].nodes@.len() ==> not_orphan(f, #[trigger] sp@[s].nodes@[j])
}

/// How far below its parent a gene node with the event `e` is put.
pub open spec fn drop_below(e: Event) -> int {
    if e == Event::Duplication || e == Event::BifurcationOut {
        DUPLICATION_DROP as int
    } else {
        LOSS_DROP as int
    }
}

/// How many of the first `k` gene nodes mapped to the species node `at` are
/// spread.
pub open spec fn rank(f: Seq<Seq<Noeud<String>>>, at: Noeud<String>, k: nat) -> int
    decreases k,
{
    if k == 0 {
        0
    } else {
        let e = at.nodes@[k - 1];
        rank(f, at, (k - 1) as nat) + if f[e.0 as int][e.1 as int].e.spreads() {
            1int
        } else {
            0int
        }
    }
}

/// The gene trees `f` once the gene node `e` has been spread, as the one
/// after `shift` others of its species node `at`, which is a left child or
/// not: its horizontal coordinate grows by `shift` pipe units under a left
/// child, and otherwise by as many as the genes of `at` that are left to
/// come; unless its event places it below its parent, it goes down by
/// `shift` pipe units. A node whose event is not one that spreads stays.
pub open spec fn spread_one(
    f: Seq<Seq<Noeud<String>>>,
    at: Noeud<String>,
    left: bool,
    e: (usize, usize),
    shift: int,
) -> Seq<Seq<Noeud<String>>> {
    let g = e.0 as int;
    let i = e.1 as int;
    let n = f[g][i];
    if n.e.spreads() {
        let along = if left {
            shift
        } else {
            at.nbg - 1 - shift
        };
        let y = if n.e.hangs_from_parent() {
            n.y as int
        } else {
            n.y + 15 * shift
        };
        f.update(g, f[g].update(i, (Noeud { x: (n.x + 15 * along) as i64, y: y as i64, ..n })))
    } else {
        f
    }
}

/// The gene trees `f` once the first `k` gene nodes mapped to the species
/// node `at` have been spread, one after the other.
pub open spec fn spread_list(f: Seq<Seq<Noeud<String>>>, at: Noeud<String>, left: bool, k: nat) -> Seq<
    Seq<Noeud<String>>,
>
    decreases k,
{
    if k == 0 {
        f
    } else {
        spread_one(
            spread_list(f, at, left, (k - 1) as nat),
            at,
            left,
            at.nodes@[k - 1],
            rank(f, at, (k - 1) as nat),
        )
    }
}

/// The gene trees `f` once the gene nodes mapped to the species nodes of the
/// subtree rooted at `v` have been spread: those of `v`, then those of its
/// left subtree, then those of its right subtree.
pub open spec fn spread_sweep(sp: &ArenaTree<String>, f: Seq<Seq<Noeud<String>>>, v: int) -> Seq<
    Seq<Noeud<String>>,
>
    decreases sp@.len() - sp.spec_depth(v),
    when sp.wf() && 0 <= v < sp@.len()
{
    let here = spread_list(f, sp@[v], sp.left_child(v), sp@[v].nodes@.len());
    if sp@[v].children@.len() == 2 {
        proof {
            sp.lemma_two_children(v);
        }
        spread_sweep(sp, spread_sweep(sp, here, sp.left_of(v)), sp.right_of(v))
    } else {
        here
    }
}

/// The hypotheses on the lists of the subtree rooted at `v` hold within the
/// subtree of each node `w` of it, and for gene trees that differ only by
/// where their nodes stand.
pub proof fn lemma_spread_frame(
    sp: &ArenaTree<String>,
    f: Seq<Seq<Noeud<String>>>,
    h: Seq<Seq<Noeud<String>>>,
    v: int,
    w: int,
)
    requires
        sp.wf(),
        same_but_place(f, h),
        entries_valid(sp, f, v),
        distinct_lists(sp, v),
        sp.has(v, w),
    ensures
        entries_valid(sp, h, w),
        distinct_lists(sp, w),
{
    assert forall|s: int| #[trigger] sp.has(w, s) implies sp.has(v, s) by {
        lemma_subtree_trans(sp.links(), v, w, s);
    }
    assert forall|s: int, j: int| sp.has(w, s) && 0 <= j < sp@[s].nodes@.len() implies (
    #[trigger] sp@[s].nodes@[j]).0 < h.len() && sp@[s].nodes@[j].1
        < h[sp@[s].nodes@[j].0 as int].len() by {
        assert(sp.has(v, s));
        let e = sp@[s].nodes@[j];
        assert(f[e.0 as int].len() == h[e.0 as int].len());
    }
    assert forall|s: int, j: int, k: int|
        sp.has(w, s) && 0 <= j < k < sp@[s].nodes@.len() implies #[trigger] sp@[s].nodes@[j]
        != #[trigger] sp@[s].nodes@[k] by {
        assert(sp.has(v, s));
    }
}

/// The `j`-th gene node listed by the species node `s` is, among the gene
/// nodes listed within the subtree rooted at `v` that are placed below their
/// parent and have none, the first: no species node of the subtree with a
/// lesser index lists one, and `s` lists none before it.
pub open spec fn first_orphan(
    sp: &ArenaTree<String>,
    f: Seq<Seq<Noeud<String>>>,
    v: int,
    s: int,
    j: int,
) -> bool {
    &&& sp.has(v, s)
    &&& 0 <= j < sp@[s].nodes@.len()
    &&& !not_orphan(f, sp@[s].nodes@[j])
    &&& forall|k: int| 0 <= k < j ==> not_orphan(f, #[trigger] sp@[s].nodes@[k])
    &&& forall|t: int, k: int|
        0 <= t < s && sp.has(v, t) && 0 <= k < sp@[t].nodes@.len() ==> not_orphan(
            f,
            #[trigger] sp@[t].nodes@[k],
        )
}

fn find_orphan(sp_tree: &ArenaTree<String>, gene_trees: &Vec<ArenaTree<String>>, index: usize) -> (r:
    Option<(usize, usize)>)
    requires
        sp_tree.wf(),
        index < sp_tree@.len(),
        entries_valid(sp_tree, nodes_of(gene_trees@), index as int),
    ensures
        match r {
            Some((s, j)) => first_orphan(
                sp_tree,
                nodes_of(gene_trees@),
                index as int,
                s as int,
                j as int,
            ),
            None => no_orphan(sp_tree, nodes_of(gene_trees@), index as int),
        },
        r.is_some() ==> !no_orphan(sp_tree, nodes_of(gene_trees@), index as int),
{
    let ghost f = nodes_of(gene_trees@);
    let mut s: usize = 0;
    while s < sp_tree.arena.len()
        invariant
            sp_tree.wf(),
            index < sp_tree@.len(),
            s <= sp_tree@.len(),
            f == nodes_of(gene_trees@),
            entries_valid(sp_tree, f, index as int),
            forall|t: int, k: int|
                0 <= t < s && sp_tree.has(index as int, t) && 0 <= k < sp_tree@[t].nodes@.len()
                    ==> not_orphan(f, #[trigger] sp_tree@[t].nodes@[k]),
        decreases sp_tree@.len() - s,
    {
        if sp_tree.is_under(index, s) {
            let count = sp_tree.arena[s].nodes.len();
            let mut k: usize = 0;
            while k < count
                invariant
                    k <= count,
                    s < sp_tree@.len(),
                    count == sp_tree@[s as int].nodes@.len(),
                    sp_tree.has(index as int, s as int),
                    f == nodes_of(gene_trees@),
                    entries_valid(sp_tree, f, index as int),
                    forall|t: int, k: int|
                        0 <= t < s && sp_tree.has(index as int, t) && 0 <= k
                            < sp_tree@[t].nodes@.len() ==> not_orphan(
                            f,
                            #[trigger] sp_tree@[t].nodes@[k],
                        ),
                    forall|j: int|
                        0 <= j < k ==> not_orphan(f, #[trigger] sp_tree@[s as int].nodes@[j]),
                decreases count - k,
            {
                let (g, i) = sp_tree.arena[s].nodes[k];
                proof {
                    let e = sp_tree@[s as int].nodes@[k as int];
                    assert(e.0 < f.len() && e.1 < f[e.0 as int].len());
                    assert(f[g as int] == gene_trees@[g as int]@);
                }
                if gene_trees[g].arena[i].e.is_hung_from_parent()
                    && gene_trees[g].arena[i].parent.is_none() {
                    assert(!not_orphan(f, sp_tree@[s as int].nodes@[k as int]));
                    return Some((s, k));
                }
                k += 1;
            }
        }
        s += 1;
    }
    None
}

fn spread_below(
    sp_tree: &ArenaTree<String>,
    gene_trees: &mut Vec<ArenaTree<String>>,
    index: usize,
    Ghost(cap): Ghost<int>,
)
    requires
        sp_tree.wf(),
        index < sp_tree@.len(),
        sp_tree@.len() <= NODE_LIMIT,
        sp_tree.binary_from(index as int),
        sp_tree.bounded_from(index as int),
        entries_valid(sp_tree, nodes_of(old(gene_trees)@), index as int),
        distinct_lists(sp_tree, index as int),
        within(nodes_of(old(gene_trees)@), cap),
        cap >= COORD_LIMIT,
        cap + room(sp_tree, index as int) <= 0x1000_0000_0000_0000,
    ensures
        nodes_of(final(gene_trees)@) == spread_sweep(
            sp_tree,
            nodes_of(old(gene_trees)@),
            index as int,
        ),
        same_but_place(nodes_of(old(gene_trees)@), nodes_of(final(gene_trees)@)),
        within(nodes_of(final(gene_trees)@), cap + room(sp_tree, index as int)),
    decreases sp_tree@.len() - sp_tree.spec_depth(index as int),
{
    let ghost f0 = nodes_of(gene_trees@);
    let ghost ls = sp_tree.links();
    let ghost at = sp_tree@[index as int];
    proof {
        lemma_depth_bound(ls, index as int);
        sp_tree.lemma_binary_here(index as int);
        assert(sp_tree.has(index as int, index as int));
        assert(at.bounded());
        lemma_size(ls, index as int, ls.len());
        assert(ls.len() == sp_tree@.len());
        assert forall|j: int| 0 <= j < at.nodes@.len() implies (#[trigger] at.nodes@[j]).0
            < f0.len() && at.nodes@[j].1 < f0[at.nodes@[j].0 as int].len() by {
            assert(sp_tree@[index as int].nodes@[j] == at.nodes@[j]);
        }
    }
    let bool_left = sp_tree.is_left(index);
    let mut shift: i64 = 0;
    let mut shift_x: i64 = sp_tree.arena[index].nbg as i64 - 1;
    let count = sp_tree.arena[index].nodes.len();
    let mut k: usize = 0;
    while k < count
        invariant
            k <= count,
            count == at.nodes@.len(),
            count <= NODE_LIMIT,
            at == sp_tree@[index as int],
            at.nbg <= NODE_LIMIT,
            index < sp_tree@.len(),
            bool_left == sp_tree.left_child(index as int),
            sp_tree.has(index as int, index as int),
            distinct_lists(sp_tree, index as int),
            cap >= COORD_LIMIT,
            cap + 0x2000_0000 <= 0x1000_0000_0000_0000,
            within(f0, cap),
            forall|j: int|
                0 <= j < at.nodes@.len() ==> (#[trigger] at.nodes@[j]).0 < f0.len()
                    && at.nodes@[j].1 < f0[at.nodes@[j].0 as int].len(),
            shift == rank(f0, at, k as nat),
            0 <= shift <= k,
            shift_x == at.nbg - 1 - shift,
            same_but_place(f0, nodes_of(gene_trees@)),
            within(nodes_of(gene_trees@), cap + 0x1000_0000 + 15 * k),
            nodes_of(gene_trees@) == spread_list(f0, at, bool_left, k as nat),
            forall|j: int|
                k <= j < count ==> nodes_of(gene_trees@)[(#[trigger] at.nodes@[j]).0 as int][at.nodes@[j].1 as int]
                    == f0[at.nodes@[j].0 as int][at.nodes@[j].1 as int],
        decreases count - k,
    {
        let (g, i) = sp_tree.arena[index].nodes[k];
        let ghost cur = nodes_of(gene_trees@);
        let ghost capk = cap + 0x1000_0000 + 15 * k;
        proof {
            let e = at.nodes@[k as int];
            assert(e.0 < f0.len() && e.1 < f0[e.0 as int].len());
            assert(cur[g as int] == gene_trees@[g as int]@);
            assert(cur[g as int][i as int] == f0[g as int][i as int]);
            assert(-cap <= f0[g as int][i as int].x <= cap);
        }
        if gene_trees[g].arena[i].e.is_spread() {
            let along: i64 = if bool_left {
                shift
            } else {
                shift_x
            };
            let x: i64 = gene_trees[g].arena[i].x;
            let x: i64 = x + PIPEBLOCK * along;
            let y: i64 = if gene_trees[g].arena[i].e.is_hung_from_parent() {
                gene_trees[g].arena[i].y
            } else {
                gene_trees[g].arena[i].y + PIPEBLOCK * shift
            };
            gene_trees[g].arena[i].x = x;
            gene_trees[g].arena[i].y = y;
            shift = shift + 1;
            shift_x = shift_x - 1;
        }
        proof {
            let next = nodes_of(gene_trees@);
            let want = spread_one(cur, at, bool_left, (g, i), rank(f0, at, k as nat));
            assert(next =~= want) by {
                assert forall|h: int| 0 <= h < next.len() implies #[trigger] next[h] =~= want[h] by {}
            }
            assert(same_but_place(f0, next)) by {
                assert forall|h: int, m: int| 0 <= h < f0.len() && 0 <= m < f0[h].len() implies (
                #[trigger] next[h][m]).same_but(f0[h][m], true, true, false) by {
                    assert(cur[h][m].same_but(f0[h][m], true, true, false));
                }
            }
            assert(within(next, capk + 15)) by {
                assert forall|h: int, m: int| 0 <= h < next.len() && 0 <= m
                    < next[h].len() implies -(capk + 15) <= (#[trigger] next[h][m]).x <= capk + 15
                    && -(capk + 15) <= next[h][m].y <= capk + 15 by {
                    assert(-capk <= cur[h][m].x <= capk);
                }
            }
            assert forall|j: int| k + 1 <= j < count implies next[(#[trigger] at.nodes@[j]).0 as int][at.nodes@[j].1 as int]
                == f0[at.nodes@[j].0 as int][at.nodes@[j].1 as int] by {
                assert(sp_tree@[index as int].nodes@[k as int] != sp_tree@[index as int].nodes@[j]);
                assert(cur[at.nodes@[j].0 as int][at.nodes@[j].1 as int]
                    == f0[at.nodes@[j].0 as int][at.nodes@[j].1 as int]);
            }
        }
        k += 1;
    }
    let ghost f1 = nodes_of(gene_trees@);
    let ghost cap1 = cap + reach(2);
    proof {
        assert(within(f1, cap1)) by {
            assert forall|h: int, m: int| 0 <= h < f1.len() && 0 <= m < f1[h].len() implies -cap1
                <= (#[trigger] f1[h][m]).x <= cap1 && -cap1 <= f1[h][m].y <= cap1 by {
                assert(-(cap + 0x1000_0000 + 15 * count) <= f1[h][m].x <= cap + 0x1000_0000 + 15
                    * count);
            }
        }
    }
    if sp_tree.arena[index].children.len() > 0 {
        let son_left = sp_tree.arena[index].children[0];
        let son_right = sp_tree.arena[index].children[1];
        proof {
            sp_tree.lemma_two_children(index as int);
            lemma_count_split(ls, index as int, ls.len());
            lemma_size(ls, son_left as int, ls.len());
            lemma_size(ls, son_right as int, ls.len());
            lemma_spread_frame(sp_tree, f0, f1, index as int, son_left as int);
        }
        spread_below(sp_tree, gene_trees, son_left, Ghost(cap1));
        let ghost f2 = nodes_of(gene_trees@);
        let ghost cap2 = cap1 + room(sp_tree, son_left as int);
        proof {
            assert(same_but_place(f0, f2)) by {
                assert forall|h: int, m: int| 0 <= h < f0.len() && 0 <= m < f0[h].len() implies (
                #[trigger] f2[h][m]).same_but(f0[h][m], true, true, false) by {
                    assert(f1[h][m].same_but(f0[h][m], true, true, false));
                    assert(f2[h][m].same_but(f1[h][m], true, true, false));
                }
            }
            lemma_spread_frame(sp_tree, f0, f2, index as int, son_right as int);
        }
        spread_below(sp_tree, gene_trees, son_right, Ghost(cap2));
        proof {
            let f3 = nodes_of(gene_trees@);
            assert(same_but_place(f0, f3)) by {
                assert forall|h: int, m: int| 0 <= h < f0.len() && 0 <= m < f0[h].len() implies (
                #[trigger] f3[h][m]).same_but(f0[h][m], true, true, false) by {
                    assert(f2[h][m].same_but(f0[h][m], true, true, false));
                    assert(f3[h][m].same_but(f2[h][m], true, true, false));
                }
            }
        }
    } else {
        proof {
            assert(within(f1, cap + room(sp_tree, index as int))) by {
                assert forall|h: int, m: int| 0 <= h < f1.len() && 0 <= m < f1[h].len() implies -(
                cap + room(sp_tree, index as int)) <= (#[trigger] f1[h][m]).x <= cap + room(
                    sp_tree,
                    index as int,
                ) && -(cap + room(sp_tree, index as int)) <= f1[h][m].y <= cap + room(
                    sp_tree,
                    index as int,
                ) by {
                    assert(-cap1 <= f1[h][m].x <= cap1);
                }
            }
        }
    }
}

/// Node `i` of the gene tree `t`, the `g`-th, is listed by a species node of
/// the subtree rooted at `v`, has an event that places it below its parent,
/// and has a parent: one that hangs.
pub open spec fn hangs(sp: &ArenaTree<String>, v: int, t: ArenaTree<String>, g: int, i: int) -> bool {
    listed(sp, v, g, i) && t@[i].e.hangs_from_parent() && t@[i].parent.is_some()
}

/// How low node `i` of the gene tree `t` ends, where `a` holds the nodes of
/// the tree once they are spread: a node that hangs ends below where its
/// parent ends, by what its event asks; any other node where it stands in
/// `a`.
pub open spec fn low(
    sp: &ArenaTree<String>,
    v: int,
    t: ArenaTree<String>,
    a: Seq<Noeud<String>>,
    g: int,
    i: int,
) -> int
    decreases t.spec_depth(i),
    when t.wf() && 0 <= i < t@.len()
{
    if hangs(sp, v, t, g, i) {
        proof {
            lemma_depth_step(t.links(), i);
        }
        low(sp, v, t, a, g, t@[i].parent.unwrap() as int) + drop_below(t@[i].e)
    } else {
        a[i].y as int
    }
}

/// Node `i` of gene tree `g` stands in the gene trees `h` as hanging leaves
/// it, from the spread gene trees `a`: as low as it ends, so that a node that
/// hangs stands below its parent by what its event asks, with everything
/// else as in `a`.
pub open spec fn hung_at(
    sp: &ArenaTree<String>,
    v: int,
    genes: Seq<ArenaTree<String>>,
    a: Seq<Seq<Noeud<String>>>,
    h: Seq<Seq<Noeud<String>>>,
    g: int,
    i: int,
) -> bool {
    &&& h[g][i].same_but(a[g][i], false, true, false)
    &&& h[g][i].y == low(sp, v, genes[g], a[g], g, i)
    &&& hangs(sp, v, genes[g], g, i) ==> h[g][i].y == h[g][genes[g]@[i].parent.unwrap() as int].y
        + drop_below(genes[g]@[i].e)
}

/// The gene trees `h` are the spread gene trees `a` with each node that
/// hangs put below its parent, for the subtree rooted at `v`; `genes` are
/// the gene trees before they were spread.
pub open spec fn hung(
    sp: &ArenaTree<String>,
    v: int,
    genes: Seq<ArenaTree<String>>,
    a: Seq<Seq<Noeud<String>>>,
    h: Seq<Seq<Noeud<String>>>,
) -> bool {
    &&& same_but_place(nodes_of(genes), a)
    &&& same_but_place(nodes_of(genes), h)
    &&& forall|g: int, i: int|
        0 <= g < genes.len() && 0 <= i < genes[g]@.len() ==> #[trigger] hung_at(
            sp,
            v,
            genes,
            a,
            h,
            g,
            i,
        )
}

/// A node ends no further from where the nodes of its tree stand once
/// spread than one pipe unit for each of its ancestors.
pub proof fn lemma_low_bound(
    sp: &ArenaTree<String>,
    v: int,
    t: ArenaTree<String>,
    a: Seq<Noeud<String>>,
    g: int,
    i: int,
    cap: int,
)
    requires
        t.wf(),
        0 <= i < t@.len(),
        a.len() == t@.len(),
        forall|m: int| 0 <= m < a.len() ==> -cap <= (#[trigger] a[m]).y <= cap,
    ensures
        -cap - 15 * t.spec_depth(i) <= low(sp, v, t, a, g, i) <= cap + 15 * t.spec_depth(i),
    decreases t.spec_depth(i),
{
    if hangs(sp, v, t, g, i) {
        lemma_depth_step(t.links(), i);
        lemma_low_bound(sp, v, t, a, g, t@[i].parent.unwrap() as int, cap);
    }
}

/// How low node `i` of `tree` ends, found by walking up the parents.
fn low_of(
    sp_tree: &ArenaTree<String>,
    tree: &ArenaTree<String>,
    row: &Vec<bool>,
    i: usize,
    Ghost(v): Ghost<int>,
    Ghost(g): Ghost<int>,
    Ghost(t0): Ghost<ArenaTree<String>>,
    Ghost(a): Ghost<Seq<Noeud<String>>>,
) -> (y: i64)
    requires
        t0.wf(),
        same_shape(t0@, tree@),
        i < tree@.len(),
        tree@.len() <= NODE_LIMIT,
        row@.len() == tree@.len(),
        a.len() == tree@.len(),
        forall|m: int| 0 <= m < row@.len() ==> #[trigger] row@[m] == listed(sp_tree, v, g, m),
        forall|m: int|
            0 <= m < a.len() ==> -0x1000_0000_0000_0000 <= (#[trigger] a[m]).y
                <= 0x1000_0000_0000_0000,
        forall|m: int|
            0 <= m < tree@.len() && !hangs(sp_tree, v, t0, g, m) ==> (#[trigger] tree@[m]).y
                == a[m].y,
    ensures
        y == low(sp_tree, v, t0, a, g, i as int),
{
    let mut c = i;
    let mut acc: i64 = 0;
    proof {
        lemma_depth_bound(t0.links(), i as int);
    }
    loop
        invariant
            t0.wf(),
            same_shape(t0@, tree@),
            c < tree@.len(),
            tree@.len() <= NODE_LIMIT,
            row@.len() == tree@.len(),
            a.len() == tree@.len(),
            forall|m: int| 0 <= m < row@.len() ==> #[trigger] row@[m] == listed(sp_tree, v, g, m),
            forall|m: int|
                0 <= m < a.len() ==> -0x1000_0000_0000_0000 <= (#[trigger] a[m]).y
                    <= 0x1000_0000_0000_0000,
            forall|m: int|
                0 <= m < tree@.len() && !hangs(sp_tree, v, t0, g, m) ==> (#[trigger] tree@[m]).y
                    == a[m].y,
            t0.spec_depth(c as int) <= t0.spec_depth(i as int) <= tree@.len(),
            0 <= acc <= 15 * (t0.spec_depth(i as int) - t0.spec_depth(c as int)),
            low(sp_tree, v, t0, a, g, i as int) == low(sp_tree, v, t0, a, g, c as int) + acc,
        decreases t0.spec_depth(c as int),
    {
        proof {
            assert(t0@[c as int].same_fixed(tree@[c as int]));
        }
        let up: Option<usize> = if row[c] && tree.arena[c].e.is_hung_from_parent() {
            tree.arena[c].parent
        } else {
            None
        };
        match up {
            Some(p) => {
                let drop: i64 = match tree.arena[c].e {
                    Event::Duplication => DUPLICATION_DROP,
                    Event::BifurcationOut => DUPLICATION_DROP,
                    _ => LOSS_DROP,
                };
                proof {
                    lemma_depth_step(t0.links(), c as int);
                }
                acc = acc + drop;
                c = p;
            },
            None => {
                proof {
                    assert(-0x1000_0000_0000_0000 <= a[c as int].y <= 0x1000_0000_0000_0000);
                }
                return tree.arena[c].y + acc;
            },
        }
    }
}

/// Node `i` of gene tree `g` stands in `h` as hanging leaves it once the
/// gene trees are walked as far as node `id` of tree `gd`: as low as it ends
/// where its turn has come, and else as high as in `a`; with everything else
/// as in `a`.
spec fn hang_at(
    sp: &ArenaTree<String>,
    v: int,
    genes: Seq<ArenaTree<String>>,
    a: Seq<Seq<Noeud<String>>>,
    h: Seq<Seq<Noeud<String>>>,
    gd: int,
    id: int,
    g: int,
    i: int,
) -> bool {
    &&& h[g][i].same_but(a[g][i], false, true, false)
    &&& h[g][i].y == if g < gd || (g == gd && i < id) {
        low(sp, v, genes[g], a[g], g, i)
    } else {
        a[g][i].y as int
    }
}

/// The gene trees `h` are the spread gene trees `a` with the nodes put in
/// their place that come before node `id` of tree `gd`.
spec fn hanging(
    sp: &ArenaTree<String>,
    v: int,
    genes: Seq<ArenaTree<String>>,
    a: Seq<Seq<Noeud<String>>>,
    h: Seq<Seq<Noeud<String>>>,
    gd: int,
    id: int,
) -> bool {
    &&& same_but_place(nodes_of(genes), a)
    &&& same_but_place(nodes_of(genes), h)
    &&& forall|g: int, i: int|
        0 <= g < genes.len() && 0 <= i < genes[g]@.len() ==> #[trigger] hang_at(
            sp,
            v,
            genes,
            a,
            h,
            gd,
            id,
            g,
            i,
        )
}

/// Puts every node of every gene tree as low as it ends.
fn hang_all(
    sp_tree: &ArenaTree<String>,
    gene_trees: &mut Vec<ArenaTree<String>>,
    marks: &Vec<Vec<bool>>,
    Ghost(v): Ghost<int>,
    Ghost(genes): Ghost<Seq<ArenaTree<String>>>,
)
    requires
        trees_formed(genes),
        trees_small(genes),
        shows(sp_tree, v, nodes_of(genes), marks@),
        same_but_place(nodes_of(genes), nodes_of(old(gene_trees)@)),
        within(nodes_of(old(gene_trees)@), 0x1000_0000_0000_0000),
    ensures
        hanging(
            sp_tree,
            v,
            genes,
            nodes_of(old(gene_trees)@),
            nodes_of(final(gene_trees)@),
            genes.len() as int,
            0,
        ),
{
    let ghost f0 = nodes_of(genes);
    let ghost a = nodes_of(gene_trees@);
    let mut g: usize = 0;
    proof {
        assert forall|h: int, m: int| 0 <= h < genes.len() && 0 <= m < genes[h]@.len() implies #[trigger] hang_at(
            sp_tree,
            v,
            genes,
            a,
            a,
            0,
            0,
            h,
            m,
        ) by {
            assert(f0[h] == genes[h]@);
            assert(f0[h].len() == a[h].len());
        }
    }
    while g < gene_trees.len()
        invariant
            g <= genes.len(),
            gene_trees@.len() == genes.len(),
            f0 == nodes_of(genes),
            trees_formed(genes),
            trees_small(genes),
            shows(sp_tree, v, f0, marks@),
            within(a, 0x1000_0000_0000_0000),
            hanging(sp_tree, v, genes, a, nodes_of(gene_trees@), g as int, 0),
        decreases genes.len() - g,
    {
        let count = gene_trees[g].arena.len();
        proof {
            assert(nodes_of(gene_trees@)[g as int] == gene_trees@[g as int]@);
            assert(f0[g as int] == genes[g as int]@);
            assert(f0[g as int].len() == nodes_of(gene_trees@)[g as int].len());
        }
        let mut i: usize = 0;
        while i < count
            invariant
                i <= count,
                g < genes.len(),
                gene_trees@.len() == genes.len(),
                count == genes[g as int]@.len(),
                f0 == nodes_of(genes),
                trees_formed(genes),
                trees_small(genes),
                shows(sp_tree, v, f0, marks@),
                within(a, 0x1000_0000_0000_0000),
                hanging(sp_tree, v, genes, a, nodes_of(gene_trees@), g as int, i as int),
            decreases count - i,
        {
            let ghost cur = nodes_of(gene_trees@);
            let ghost t0 = genes[g as int];
            proof {
                assert(cur[g as int] == gene_trees@[g as int]@);
                assert(f0[g as int] == t0@);
                assert(f0[g as int].len() == cur[g as int].len());
                assert(f0[g as int].len() == a[g as int].len());
                assert(same_shape(t0@, gene_trees@[g as int]@)) by {
                    assert forall|m: int| 0 <= m < t0@.len() implies (#[trigger] t0@[m]).same_fixed(
                        gene_trees@[g as int]@[m],
                    ) by {
                        assert(cur[g as int][m].same_but(f0[g as int][m], true, true, false));
                    }
                }
                assert(marks@[g as int]@.len() == f0[g as int].len());
                assert forall|m: int| 0 <= m < marks@[g as int]@.len() implies #[trigger] marks@[g as int]@[m]
                    == listed(sp_tree, v, g as int, m) by {}
                assert forall|m: int| 0 <= m < a[g as int].len() implies -0x1000_0000_0000_0000 <= (
                #[trigger] a[g as int][m]).y <= 0x1000_0000_0000_0000 by {}
                assert forall|m: int|
                    0 <= m < t0@.len() && !hangs(sp_tree, v, t0, g as int, m) implies (
                #[trigger] gene_trees@[g as int]@[m]).y == a[g as int][m].y by {
                    assert(hang_at(sp_tree, v, genes, a, cur, g as int, i as int, g as int, m));
                }
                lemma_low_bound(
                    sp_tree,
                    v,
                    t0,
                    a[g as int],
                    g as int,
                    i as int,
                    0x1000_0000_0000_0000,
                );
                lemma_depth_bound(t0.links(), i as int);
            }
            let y: i64 = low_of(
                sp_tree,
                &gene_trees[g],
                &marks[g],
                i,
                Ghost(v),
                Ghost(g as int),
                Ghost(t0),
                Ghost(a[g as int]),
            );
            gene_trees[g].arena[i].y = y;
            proof {
                let next = nodes_of(gene_trees@);
                assert(same_but_place(f0, next)) by {
                    assert forall|h: int| 0 <= h < f0.len() implies (#[trigger] f0[h]).len()
                        == next[h].len() by {
                        assert(f0[h].len() == cur[h].len());
                    }
                    assert forall|h: int, m: int| 0 <= h < f0.len() && 0 <= m < f0[h].len() implies (
                    #[trigger] next[h][m]).same_but(f0[h][m], true, true, false) by {
                        assert(f0[h].len() == cur[h].len());
                        assert(cur[h][m].same_but(f0[h][m], true, true, false));
                    }
                }
                assert forall|h: int, m: int| 0 <= h < genes.len() && 0 <= m < genes[h]@.len() implies #[trigger] hang_at(
                    sp_tree,
                    v,
                    genes,
                    a,
                    next,
                    g as int,
                    i + 1,
                    h,
                    m,
                ) by {
                    assert(hang_at(sp_tree, v, genes, a, cur, g as int, i as int, h, m));
                    assert(f0[h] == genes[h]@);
                    assert(f0[h].len() == cur[h].len());
                    if h == g && m == i {
                    } else {
                        assert(next[h][m] == cur[h][m]);
                    }
                }
            }
            i += 1;
        }
        proof {
            let cur = nodes_of(gene_trees@);
            assert forall|h: int, m: int| 0 <= h < genes.len() && 0 <= m < genes[h]@.len() implies #[trigger] hang_at(
                sp_tree,
                v,
                genes,
                a,
                cur,
                g + 1,
                0,
                h,
                m,
            ) by {
                assert(hang_at(sp_tree, v, genes, a, cur, g as int, count as int, h, m));
            }
        }
        g += 1;
    }
}

/// Spreads the gene nodes mapped to each species node of the subtree rooted
/// at `index`, species node by species node from the root down and, for
/// each, in the order in which its gene nodes are listed. The first gene
/// node that is spread keeps its place, each one after it is put one pipe
/// unit further: to the right under a species node that is a left child,
/// and otherwise from the far end back; unless its event places it below its
/// parent, it is put one pipe unit further down than the one before. Then
/// each listed node whose event places it below its parent is put there,
/// below where its parent ends: a duplication or a bifurcation out just
/// above the bottom of the pipe of its parent, a loss or a branching out one
/// pipe unit below its parent. Nodes whose event is a transfer or undefined
/// are left alone.
///
/// The gene nodes end within `afar()` of zero, where they can be centred.
///
/// Fails, and changes nothing, where a node of the subtree has one child or
/// more than two, or where a gene node that is placed below its parent has
/// no parent.
pub fn bilan_mappings(
    sp_tree: &mut ArenaTree<String>,
    gene_trees: &mut Vec<ArenaTree<String>>,
    index: usize,
) -> (r: Result<(), LayoutError>)
    requires
        old(sp_tree).wf(),
        old(sp_tree).binary_from(index as int) ==> old(sp_tree).bounded(),
        index < old(sp_tree)@.len(),
        old(sp_tree).binary_from(index as int) ==> entries_valid(
            old(sp_tree),
            nodes_of(old(gene_trees)@),
            index as int,
        ),
        old(sp_tree).binary_from(index as int) ==> distinct_lists(old(sp_tree), index as int),
        old(sp_tree).binary_from(index as int) ==> trees_formed(old(gene_trees)@),
        old(sp_tree).binary_from(index as int) ==> trees_small(old(gene_trees)@),
        old(sp_tree).binary_from(index as int) ==> within(
            nodes_of(old(gene_trees)@),
            COORD_LIMIT as int,
        ),
    ensures
        *final(sp_tree) == *old(sp_tree),
        match r {
            Ok(()) => {
                &&& old(sp_tree).binary_from(index as int)
                &&& no_orphan(old(sp_tree), nodes_of(old(gene_trees)@), index as int)
                &&& hung(
                    old(sp_tree),
                    index as int,
                    old(gene_trees)@,
                    spread_sweep(old(sp_tree), nodes_of(old(gene_trees)@), index as int),
                    nodes_of(final(gene_trees)@),
                )
                &&& within(nodes_of(final(gene_trees)@), afar())
            },
            Err(LayoutError::NonBinaryNode(n)) => old(sp_tree).first_odd(index as int, n as int)
                && *final(gene_trees) == *old(gene_trees),
            Err(LayoutError::MissingParentForEventNode(g, i)) => old(sp_tree).binary_from(
                index as int,
            ) && *final(gene_trees) == *old(gene_trees) && exists|s: int, j: int| #[trigger]
                first_orphan(old(sp_tree), nodes_of(old(gene_trees)@), index as int, s, j) && old(sp_tree)@[s].nodes@[j] == (g, i),
            Err(_) => false,
        },
{
    match sp_tree.find_odd(index) {
        Some(n) => {
            return Err(LayoutError::NonBinaryNode(n));
        },
        None => {},
    }
    match find_orphan(sp_tree, gene_trees, index) {
        Some((s, j)) => {
            let (g, i) = sp_tree.arena[s].nodes[j];
            assert(first_orphan(
                sp_tree,
                nodes_of(gene_trees@),
                index as int,
                s as int,
                j as int,
            ));
            return Err(LayoutError::MissingParentForEventNode(g, i));
        },
        None => {},
    }
    let ghost genes = gene_trees@;
    let ghost v = index as int;
    let ghost f0 = nodes_of(genes);
    proof {
        sp_tree.lemma_bounded_from(index as int);
        lemma_size(sp_tree.links(), index as int, sp_tree.links().len());
        assert(sp_tree.links().len() == sp_tree@.len());
    }
    let marks = listed_nodes(sp_tree, gene_trees, index);
    spread_below(sp_tree, gene_trees, index, Ghost(COORD_LIMIT as int));
    let ghost a = nodes_of(gene_trees@);
    proof {
        assert(within(a, 0x1000_0000_0000_0000)) by {
            assert forall|g: int, i: int| 0 <= g < a.len() && 0 <= i < a[g].len() implies -0x1000_0000_0000_0000
                <= (#[trigger] a[g][i]).x <= 0x1000_0000_0000_0000 && -0x1000_0000_0000_0000
                <= a[g][i].y <= 0x1000_0000_0000_0000 by {
                assert(-(COORD_LIMIT + room(sp_tree, v)) <= a[g][i].x <= COORD_LIMIT + room(
                    sp_tree,
                    v,
                ));
            }
        }
    }
    hang_all(sp_tree, gene_trees, &marks, Ghost(v), Ghost(genes));
    proof {
        let h = nodes_of(gene_trees@);
        assert forall|g: int, i: int| 0 <= g < genes.len() && 0 <= i < genes[g]@.len() implies #[trigger] hung_at(
            sp_tree,
            v,
            genes,
            a,
            h,
            g,
            i,
        ) by {
            let t = genes[g];
            assert(f0[g] == t@);
            assert(f0[g].len() == h[g].len());
            assert(hang_at(sp_tree, v, genes, a, h, genes.len() as int, 0, g, i));
            if hangs(sp_tree, v, t, g, i) {
                lemma_depth_step(t.links(), i);
                let p = t@[i].parent.unwrap() as int;
                assert(hang_at(sp_tree, v, genes, a, h, genes.len() as int, 0, g, p));
            }
        }
        assert forall|g: int, i: int| 0 <= g < h.len() && 0 <= i < h[g].len() implies -afar() <= (
        #[trigger] h[g][i]).x <= afar() && -afar() <= h[g][i].y <= afar() by {
            let t = genes[g];
            let cap = COORD_LIMIT + room(sp_tree, v);
            assert(f0[g] == t@);
            assert(f0[g].len() == h[g].len() && f0[g].len() == a[g].len());
            assert(hang_at(sp_tree, v, genes, a, h, genes.len() as int, 0, g, i));
            assert(-cap <= a[g][i].x <= cap);
            assert forall|m: int| 0 <= m < a[g].len() implies -cap <= (#[trigger] a[g][m]).y
                <= cap by {
                assert(-cap <= a[g][m].x <= cap);
            }
            lemma_low_bound(sp_tree, v, t, a[g], g, i, cap);
            lemma_depth_bound(t.links(), i);
        }
    }
    Ok(())
}

/// A node that hangs ends below its parent: once the gene nodes listed
/// within the subtree rooted at `v` are spread, a listed node with a parent
/// whose event places it below its parent stands below where that parent
/// stands, by what its event asks.
pub proof fn lemma_hangs_below(
    sp: &ArenaTree<String>,
    genes: Seq<ArenaTree<String>>,
    a: Seq<Seq<Noeud<String>>>,
    h: Seq<Seq<Noeud<String>>>,
    v: int,
    s: int,
    j: int,
)
    requires
        hung(sp, v, genes, a, h),
        entries_valid(sp, nodes_of(genes), v),
        sp.has(v, s),
        0 <= j < sp@[s].nodes@.len(),
        genes[sp@[s].nodes@[j].0 as int]@[sp@[s].nodes@[j].1 as int].e.hangs_from_parent(),
        genes[sp@[s].nodes@[j].0 as int]@[sp@[s].nodes@[j].1 as int].parent.is_some(),
    ensures
        h[sp@[s].nodes@[j].0 as int][sp@[s].nodes@[j].1 as int].y == h[sp@[s].nodes@[j].0 as int][genes[sp@[s].nodes@[j].0 as int]@[sp@[s].nodes@[j].1 as int].parent.unwrap() as int].y
            + drop_below(genes[sp@[s].nodes@[j].0 as int]@[sp@[s].nodes@[j].1 as int].e),
        h[sp@[s].nodes@[j].0 as int][sp@[s].nodes@[j].1 as int].y
            > h[sp@[s].nodes@[j].0 as int][genes[sp@[s].nodes@[j].0 as int]@[sp@[s].nodes@[j].1 as int].parent.unwrap() as int].y,
{
    let e = sp@[s].nodes@[j];
    let g = e.0 as int;
    let i = e.1 as int;
    assert(nodes_of(genes)[g] == genes[g]@);
    assert(names(sp@[s].nodes@[j], g, i));
    assert(listed(sp, v, g, i));
    assert(hung_at(sp, v, genes, a, h, g, i));
}

} // verus!
