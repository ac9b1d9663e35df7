//! Gene nodes centred in the pipe of their species node.

use vstd::prelude::*;
use crate::anchor::{entries_valid, nodes_of};
use crate::arena::ArenaTree;
use crate::event::LayoutError;
use crate::node::{half_down, half_down_of, reach, Noeud, COORD_LIMIT, NODE_LIMIT};
use crate::shape::{lemma_count_split, lemma_depth_bound, lemma_size, lemma_subtree_trans, size_of};

verus! {

/// No gene node is listed twice among the gene nodes mapped to one species
/// node of the subtree rooted at `v`.
pub open spec fn distinct_lists(sp: &ArenaTree<String>, v: int) -> bool {
    forall|s: int, j: int, k: int|
        sp.has(v, s) && 0 <= j < k < sp@[s].nodes@.len() ==> #[trigger] sp@[s].nodes@[j]
            != #[trigger] sp@[s].nodes@[k]
}

/// No gene node mapped to a species node of the subtree rooted at `v` has a
/// vertical modifier above zero.
pub open spec fn calm(sp: &ArenaTree<String>, f: Seq<Seq<Noeud<String>>>, v: int) -> bool {
    forall|s: int, j: int|
        sp.has(v, s) && 0 <= j < sp@[s].nodes@.len() ==> f[(#[trigger] sp@[s].nodes@[j]).0 as int][sp@[s].nodes@[j].1 as int].ymod
            <= 0
}

/// Every node of the gene trees `f` stands within `cap` of zero, both ways.
pub open spec fn within(f: Seq<Seq<Noeud<String>>>, cap: int) -> bool {
    forall|g: int, i: int|
        0 <= g < f.len() && 0 <= i < f[g].len() ==> -cap <= (#[trigger] f[g][i]).x <= cap && -cap
            <= f[g][i].y <= cap
}

/// The gene trees `h` are the gene trees `f` but for where their nodes
/// stand.
pub open spec fn same_but_place(f: Seq<Seq<Noeud<String>>>, h: Seq<Seq<Noeud<String>>>) -> bool {
    &&& f.len() == h.len()
    &&& forall|g: int| 0 <= g < f.len() ==> (#[trigger] f[g]).len() == h[g].len()
    &&& forall|g: int, i: int|
        0 <= g < f.len() && 0 <= i < f[g].len() ==> (#[trigger] h[g][i]).same_but(
            f[g][i],
            true,
            true,
            false,
        )
}

/// The coordinate of a node, horizontal or vertical.
pub open spec fn coord(n: Noeud<String>, vertical: bool) -> int {
    if vertical {
        n.y as int
    } else {
        n.x as int
    }
}

/// The farthest coordinate among the first `k` gene nodes mapped to the
/// species node `at`, the largest or the smallest; 0 where `k` is 0.
pub open spec fn far(
    f: Seq<Seq<Noeud<String>>>,
    at: Noeud<String>,
    k: nat,
    largest: bool,
    vertical: bool,
) -> int
    decreases k,
{
    if k == 0 {
        0
    } else {
        let before = far(f, at, (k - 1) as nat, largest, vertical);
        let e = at.nodes@[k - 1];
        let c = coord(f[e.0 as int][e.1 as int], vertical);
        if k == 1 {
            c
        } else if largest {
            if c > before {
                c
            } else {
                before
            }
        } else {
            if c < before {
                c
            } else {
                before
            }
        }
    }
}

/// The middle of the pipe of the species node `at`, which runs from `x -
/// width / 2` to `x + width / 2` and from `y + ymod - height / 2` to `y +
/// ymod + height / 2`.
pub open spec fn pipe_middle(at: Noeud<String>, vertical: bool) -> int {
    if vertical {
        at.y + at.ymod
    } else {
        at.x as int
    }
}

/// How far the gene nodes mapped to the species node `at` stand, as a
/// group, from the middle of its pipe: the middle between their extremes,
/// rounded downwards, less the middle of the pipe; nothing where no gene
/// node is mapped to `at`.
pub open spec fn off_centre(f: Seq<Seq<Noeud<String>>>, at: Noeud<String>, vertical: bool) -> int {
    let n = at.nodes@.len();
    if n == 0 {
        0
    } else {
        half_down(far(f, at, n, true, vertical) + far(f, at, n, false, vertical)) - pipe_middle(
            at,
            vertical,
        )
    }
}

/// The gene trees `f` once the gene node `e` has been moved back by `(dx,
/// dy)`.
pub open spec fn moved_back(f: Seq<Seq<Noeud<String>>>, e: (usize, usize), dx: int, dy: int) -> Seq<
    Seq<Noeud<String>>,
> {
    let g = e.0 as int;
    let i = e.1 as int;
    let n = f[g][i];
    f.update(g, f[g].update(i, (Noeud { x: (n.x - dx) as i64, y: (n.y - dy) as i64, ..n })))
}

/// The gene trees `f` once the first `k` gene nodes mapped to the species
/// node `at` have been moved back by `(dx, dy)`.
pub open spec fn centre_list(f: Seq<Seq<Noeud<String>>>, at: Noeud<String>, dx: int, dy: int, k: nat) -> Seq<
    Seq<Noeud<String>>,
>
    decreases k,
{
    if k == 0 {
        f
    } else {
        moved_back(centre_list(f, at, dx, dy, (k - 1) as nat), at.nodes@[k - 1], dx, dy)
    }
}

/// The gene trees `f` once the gene nodes mapped to the species node `at`
/// have been centred in its pipe: each is moved back by what the group is
/// off centre.
pub open spec fn centre_here(f: Seq<Seq<Noeud<String>>>, at: Noeud<String>) -> Seq<
    Seq<Noeud<String>>,
> {
    centre_list(f, at, off_centre(f, at, false), off_centre(f, at, true), at.nodes@.len())
}

/// The gene trees `f` once the gene nodes mapped to the species nodes of the
/// subtree rooted at `v` have been centred: those of `v`, then those of its
/// left subtree, then those of its right subtree.
pub open spec fn centre_sweep(sp: &ArenaTree<String>, f: Seq<Seq<Noeud<String>>>, v: int) -> Seq<
    Seq<Noeud<String>>,
>
    decreases sp@.len() - sp.spec_depth(v),
    when sp.wf() && 0 <= v < sp@.len()
{
    let here = centre_here(f, sp@[v]);
    if sp@[v].children@.len() == 2 {
        proof {
            sp.lemma_two_children(v);
        }
        centre_sweep(sp, centre_sweep(sp, here, sp.left_of(v)), sp.right_of(v))
    } else {
        here
    }
}

/// The hypotheses on the gene nodes mapped within the subtree rooted at `v`
/// hold within the subtree of each node `w` of it, and for gene trees that
/// differ only by where their nodes stand.
pub proof fn lemma_centre_frame(
    sp: &ArenaTree<String>,
    f: Seq<Seq<Noeud<String>>>,
    h: Seq<Seq<Noeud<String>>>,
    v: int,
    w: int,
)
    requires
        sp.wf(),
        same_but_place(f, h),
        entries_valid(sp, f, v),
        distinct_lists(sp, v),
        calm(sp, f, v),
        sp.has(v, w),
    ensures
        entries_valid(sp, h, w),
        distinct_lists(sp, w),
        calm(sp, h, w),
{
    assert forall|s: int| #[trigger] sp.has(w, s) implies sp.has(v, s) by {
        lemma_subtree_trans(sp.links(), v, w, s);
    }
    assert forall|s: int, j: int| sp.has(w, s) && 0 <= j < sp@[s].nodes@.len() implies (
    #[trigger] sp@[s].nodes@[j]).0 < h.len() && sp@[s].nodes@[j].1
        < h[sp@[s].nodes@[j].0 as int].len()
        && h[sp@[s].nodes@[j].0 as int][sp@[s].nodes@[j].1 as int].ymod <= 0 by {
        assert(sp.has(v, s));
        let e = sp@[s].nodes@[j];
        assert(h[e.0 as int][e.1 as int].same_but(f[e.0 as int][e.1 as int], true, true, false));
        assert(f[e.0 as int].len() == h[e.0 as int].len());
    }
    assert forall|s: int, j: int, k: int|
        sp.has(w, s) && 0 <= j < k < sp@[s].nodes@.len() implies #[trigger] sp@[s].nodes@[j]
        != #[trigger] sp@[s].nodes@[k] by {
        assert(sp.has(v, s));
    }
}

/// Each of the first `k` gene nodes mapped to `at` lies between the
/// extremes, and the extremes within `cap` of zero.
pub proof fn lemma_far(f: Seq<Seq<Noeud<String>>>, at: Noeud<String>, k: nat, vertical: bool, cap: int)
    requires
        k <= at.nodes@.len(),
        cap >= 0,
        within(f, cap),
        forall|j: int|
            0 <= j < at.nodes@.len() ==> (#[trigger] at.nodes@[j]).0 < f.len() && at.nodes@[j].1
                < f[at.nodes@[j].0 as int].len(),
    ensures
        -cap <= far(f, at, k, true, vertical) <= cap,
        -cap <= far(f, at, k, false, vertical) <= cap,
        forall|j: int|
            0 <= j < k ==> far(f, at, k, false, vertical) <= coord(
                f[(#[trigger] at.nodes@[j]).0 as int][at.nodes@[j].1 as int],
                vertical,
            ) <= far(f, at, k, true, vertical),
    decreases k,
{
    if k > 0 {
        lemma_far(f, at, (k - 1) as nat, vertical, cap);
        let e = at.nodes@[k - 1];
        assert(-cap <= f[e.0 as int][e.1 as int].x <= cap);
    }
}

/// The bound within which gene nodes must stand to be centred: far above
/// `COORD_LIMIT`, so that gene nodes once spread, or once centred, can be
/// centred as they are.
pub open spec fn afar() -> int {
    0x800_0000_0000_0000
}

/// The room that centring the subtree rooted at `v` may take: twice
/// `COORD_LIMIT` for each of its nodes.
pub open spec fn room(sp: &ArenaTree<String>, v: int) -> int {
    reach(2 * (size_of(sp.links(), v) as int))
}

/// Gene nodes that stand within `a` of zero stand within any `b` that is no
/// less.
pub proof fn lemma_wider(f: Seq<Seq<Noeud<String>>>, a: int, b: int)
    requires
        within(f, a),
        a <= b,
    ensures
        within(f, b),
{
    assert forall|g: int, i: int| 0 <= g < f.len() && 0 <= i < f[g].len() implies -b <= (
    #[trigger] f[g][i]).x <= b && -b <= f[g][i].y <= b by {
        assert(-a <= f[g][i].x <= a);
    }
}

fn centre_below(
    sp_tree: &ArenaTree<String>,
    gene_trees: &mut Vec<ArenaTree<String>>,
    index: usize,
    Ghost(cap): Ghost<int>,
)
    requires
        sp_tree.wf(),
        index < sp_tree@.len(),
        sp_tree@.len() <= NODE_LIMIT,
        sp_tree.binary_from(index as int),
        sp_tree.bounded_from(index as int),
        entries_valid(sp_tree, nodes_of(old(gene_trees)@), index as int),
        distinct_lists(sp_tree, index as int),
        calm(sp_tree, nodes_of(old(gene_trees)@), index as int),
        within(nodes_of(old(gene_trees)@), cap),
        cap >= COORD_LIMIT,
        cap + room(sp_tree, index as int) <= 0x1000_0000_0000_0000,
    ensures
        nodes_of(final(gene_trees)@) == centre_sweep(
            sp_tree,
            nodes_of(old(gene_trees)@),
            index as int,
        ),
        same_but_place(nodes_of(old(gene_trees)@), nodes_of(final(gene_trees)@)),
        within(
            nodes_of(final(gene_trees)@),
            cap + room(sp_tree, index as int),
        ),
    decreases sp_tree@.len() - sp_tree.spec_depth(index as int),
{
    let ghost f0 = nodes_of(gene_trees@);
    let ghost ls = sp_tree.links();
    let ghost at = sp_tree@[index as int];
    proof {
        lemma_depth_bound(ls, index as int);
        sp_tree.lemma_binary_here(index as int);
        assert(sp_tree.has(index as int, index as int));
        assert(at.bounded());
        lemma_size(ls, index as int, ls.len());
        assert(ls.len() == sp_tree@.len());
        assert forall|j: int| 0 <= j < at.nodes@.len() implies (#[trigger] at.nodes@[j]).0
            < f0.len() && at.nodes@[j].1 < f0[at.nodes@[j].0 as int].len() by {
            assert(sp_tree@[index as int].nodes@[j] == at.nodes@[j]);
        }
    }
    let middle_sp: i64 = sp_tree.arena[index].x;
    let y_middle_sp: i64 = sp_tree.arena[index].y + sp_tree.arena[index].ymod;
    let mut left_gene: i64 = 0;
    let mut right_gene: i64 = 0;
    let mut down_gene: i64 = 0;
    let mut up_gene: i64 = 0;
    let count = sp_tree.arena[index].nodes.len();
    let mut k: usize = 0;
    while k < count
        invariant
            k <= count,
            count == at.nodes@.len(),
            at == sp_tree@[index as int],
            index < sp_tree@.len(),
            nodes_of(gene_trees@) == f0,
            forall|j: int|
                0 <= j < at.nodes@.len() ==> (#[trigger] at.nodes@[j]).0 < f0.len()
                    && at.nodes@[j].1 < f0[at.nodes@[j].0 as int].len(),
            left_gene == far(f0, at, k as nat, true, false),
            right_gene == far(f0, at, k as nat, false, false),
            down_gene == far(f0, at, k as nat, true, true),
            up_gene == far(f0, at, k as nat, false, true),
        decreases count - k,
    {
        let (g, i) = sp_tree.arena[index].nodes[k];
        proof {
            let e = at.nodes@[k as int];
            assert(e.0 < f0.len() && e.1 < f0[e.0 as int].len());
            assert(f0[g as int] == gene_trees@[g as int]@);
        }
        let x: i64 = gene_trees[g].arena[i].x;
        let y: i64 = gene_trees[g].arena[i].y;
        if k == 0 || x > left_gene {
            left_gene = x;
        }
        if k == 0 || x < right_gene {
            right_gene = x;
        }
        if k == 0 || y > down_gene {
            down_gene = y;
        }
        if k == 0 || y < up_gene {
            up_gene = y;
        }
        k += 1;
    }
    proof {
        lemma_far(f0, at, count as nat, false, cap);
        lemma_far(f0, at, count as nat, true, cap);
    }
    let shift: i64 = if count == 0 {
        0
    } else {
        half_down_of(left_gene + right_gene) - middle_sp
    };
    let y_shift: i64 = if count == 0 {
        0
    } else {
        half_down_of(up_gene + down_gene) - y_middle_sp
    };
    assert(shift == off_centre(f0, at, false));
    assert(y_shift == off_centre(f0, at, true));
    let ghost cap1 = cap + reach(2);
    let mut k: usize = 0;
    while k < count
        invariant
            k <= count,
            count == at.nodes@.len(),
            at == sp_tree@[index as int],
            index < sp_tree@.len(),
            sp_tree.has(index as int, index as int),
            distinct_lists(sp_tree, index as int),
            at.bounded(),
            cap >= COORD_LIMIT,
            cap1 == cap + reach(2),
            cap1 <= 0x1000_0000_0000_0000,
            within(f0, cap),
            forall|j: int|
                0 <= j < at.nodes@.len() ==> (#[trigger] at.nodes@[j]).0 < f0.len()
                    && at.nodes@[j].1 < f0[at.nodes@[j].0 as int].len(),
            forall|j: int|
                0 <= j < count ==> far(f0, at, count as nat, false, false) <= coord(
                    f0[(#[trigger] at.nodes@[j]).0 as int][at.nodes@[j].1 as int],
                    false,
                ) <= far(f0, at, count as nat, true, false),
            forall|j: int|
                0 <= j < count ==> far(f0, at, count as nat, false, true) <= coord(
                    f0[(#[trigger] at.nodes@[j]).0 as int][at.nodes@[j].1 as int],
                    true,
                ) <= far(f0, at, count as nat, true, true),
            -cap <= far(f0, at, count as nat, true, false) <= cap,
            -cap <= far(f0, at, count as nat, false, false) <= cap,
            -cap <= far(f0, at, count as nat, true, true) <= cap,
            -cap <= far(f0, at, count as nat, false, true) <= cap,
            shift == off_centre(f0, at, false),
            y_shift == off_centre(f0, at, true),
            same_but_place(f0, nodes_of(gene_trees@)),
            within(nodes_of(gene_trees@), cap1),
            nodes_of(gene_trees@) == centre_list(f0, at, shift as int, y_shift as int, k as nat),
            forall|j: int|
                k <= j < count ==> nodes_of(gene_trees@)[(#[trigger] at.nodes@[j]).0 as int][at.nodes@[j].1 as int]
                    == f0[at.nodes@[j].0 as int][at.nodes@[j].1 as int],
        decreases count - k,
    {
        let (g, i) = sp_tree.arena[index].nodes[k];
        let ghost cur = nodes_of(gene_trees@);
        proof {
            let e = at.nodes@[k as int];
            assert(e.0 < f0.len() && e.1 < f0[e.0 as int].len());
            assert(cur[g as int] == gene_trees@[g as int]@);
            assert(cur[g as int][i as int] == f0[g as int][i as int]);
            assert(far(f0, at, count as nat, false, false) <= coord(
                f0[e.0 as int][e.1 as int],
                false,
            ) <= far(f0, at, count as nat, true, false));
            assert(far(f0, at, count as nat, false, true) <= coord(
                f0[e.0 as int][e.1 as int],
                true,
            ) <= far(f0, at, count as nat, true, true));
        }
        let x: i64 = gene_trees[g].arena[i].x;
        let x: i64 = x - shift;
        gene_trees[g].arena[i].x = x;
        let y: i64 = gene_trees[g].arena[i].y;
        let y: i64 = y - y_shift;
        gene_trees[g].arena[i].y = y;
        proof {
            let next = nodes_of(gene_trees@);
            assert(next =~= moved_back(cur, (g, i), shift as int, y_shift as int)) by {
                assert forall|h: int| 0 <= h < next.len() implies #[trigger] next[h] =~= moved_back(
                    cur,
                    (g, i),
                    shift as int,
                    y_shift as int,
                )[h] by {}
            }
            assert(same_but_place(f0, next)) by {
                assert forall|h: int, m: int| 0 <= h < f0.len() && 0 <= m < f0[h].len() implies (
                #[trigger] next[h][m]).same_but(f0[h][m], true, true, false) by {
                    assert(cur[h][m].same_but(f0[h][m], true, true, false));
                }
            }
            assert(within(next, cap1)) by {
                assert forall|h: int, m: int| 0 <= h < next.len() && 0 <= m
                    < next[h].len() implies -cap1 <= (#[trigger] next[h][m]).x <= cap1 && -cap1
                    <= next[h][m].y <= cap1 by {
                    assert(-cap1 <= cur[h][m].x <= cap1);
                }
            }
            assert forall|j: int| k + 1 <= j < count implies next[(#[trigger] at.nodes@[j]).0 as int][at.nodes@[j].1 as int]
                == f0[at.nodes@[j].0 as int][at.nodes@[j].1 as int] by {
                assert(sp_tree@[index as int].nodes@[k as int] != sp_tree@[index as int].nodes@[j]);
                assert(cur[at.nodes@[j].0 as int][at.nodes@[j].1 as int]
                    == f0[at.nodes@[j].0 as int][at.nodes@[j].1 as int]);
            }
        }
        k += 1;
    }
    let ghost f1 = nodes_of(gene_trees@);
    assert(f1 == centre_here(f0, at));
    if sp_tree.arena[index].children.len() > 0 {
        let son_left = sp_tree.arena[index].children[0];
        let son_right = sp_tree.arena[index].children[1];
        proof {
            sp_tree.lemma_two_children(index as int);
            lemma_count_split(ls, index as int, ls.len());
            lemma_size(ls, son_left as int, ls.len());
            lemma_size(ls, son_right as int, ls.len());
            lemma_centre_frame(sp_tree, f0, f1, index as int, son_left as int);
        }
        centre_below(sp_tree, gene_trees, son_left, Ghost(cap1));
        let ghost f2 = nodes_of(gene_trees@);
        let ghost cap2 = cap1 + room(sp_tree, son_left as int);
        proof {
            assert(same_but_place(f0, f2)) by {
                assert forall|h: int, m: int| 0 <= h < f0.len() && 0 <= m < f0[h].len() implies (
                #[trigger] f2[h][m]).same_but(f0[h][m], true, true, false) by {
                    assert(f1[h][m].same_but(f0[h][m], true, true, false));
                    assert(f2[h][m].same_but(f1[h][m], true, true, false));
                }
            }
            lemma_centre_frame(sp_tree, f0, f2, index as int, son_right as int);
        }
        centre_below(sp_tree, gene_trees, son_right, Ghost(cap2));
        proof {
            let f3 = nodes_of(gene_trees@);
            assert(same_but_place(f0, f3)) by {
                assert forall|h: int, m: int| 0 <= h < f0.len() && 0 <= m < f0[h].len() implies (
                #[trigger] f3[h][m]).same_but(f0[h][m], true, true, false) by {
                    assert(f2[h][m].same_but(f0[h][m], true, true, false));
                    assert(f3[h][m].same_but(f2[h][m], true, true, false));
                }
            }
        }
    } else {
        proof {
            assert(within(f1, cap + room(sp_tree, index as int))) by {
                assert forall|h: int, m: int| 0 <= h < f1.len() && 0 <= m < f1[h].len() implies -(
                cap + room(sp_tree, index as int)) <= (#[trigger] f1[h][m]).x <= cap
                    + room(sp_tree, index as int) && -(cap + room(sp_tree, index as int)) <= f1[h][m].y <= cap + room(sp_tree, index as int) by {
                    assert(-cap1 <= f1[h][m].x <= cap1);
                }
            }
        }
    }
}

/// Centres the gene nodes mapped to each species node of the subtree rooted
/// at `index` in the pipe of that node, species node by species node from
/// the root down: the group is moved as a whole so that the middle between
/// its extremes, horizontal and vertical and each rounded downwards, comes
/// to the middle of the pipe.
///
/// Gene nodes that are spread from within `COORD_LIMIT` of zero can be
/// centred, and once centred they can be centred again.
///
/// Fails, and changes nothing, where a node of the subtree has one child or
/// more than two.
pub fn center_gene_nodes(
    sp_tree: &mut ArenaTree<String>,
    gene_trees: &mut Vec<ArenaTree<String>>,
    index: usize,
) -> (r: Result<(), LayoutError>)
    requires
        old(sp_tree).wf(),
        old(sp_tree).binary_from(index as int) ==> old(sp_tree).bounded(),
        index < old(sp_tree)@.len(),
        old(sp_tree).binary_from(index as int) ==> entries_valid(
            old(sp_tree),
            nodes_of(old(gene_trees)@),
            index as int,
        ),
        old(sp_tree).binary_from(index as int) ==> distinct_lists(old(sp_tree), index as int),
        old(sp_tree).binary_from(index as int) ==> calm(
            old(sp_tree),
            nodes_of(old(gene_trees)@),
            index as int,
        ),
        old(sp_tree).binary_from(index as int) ==> within(nodes_of(old(gene_trees)@), afar()),
    ensures
        *final(sp_tree) == *old(sp_tree),
        match r {
            Ok(()) => old(sp_tree).binary_from(index as int) && nodes_of(final(gene_trees)@)
                == centre_sweep(old(sp_tree), nodes_of(old(gene_trees)@), index as int)
                && same_but_place(nodes_of(old(gene_trees)@), nodes_of(final(gene_trees)@)) && (
            within(nodes_of(old(gene_trees)@), COORD_LIMIT as int) ==> within(
                nodes_of(final(gene_trees)@),
                afar(),
            )),
            Err(LayoutError::NonBinaryNode(n)) => old(sp_tree).first_odd(index as int, n as int) && *final(gene_trees) == *old(gene_trees),
            Err(_) => false,
        },
{
    match sp_tree.find_odd(index) {
        Some(n) => {
            return Err(LayoutError::NonBinaryNode(n));
        },
        None => {},
    }
    proof {
        sp_tree.lemma_bounded_from(index as int);
        lemma_size(sp_tree.links(), index as int, sp_tree.links().len());
        assert(sp_tree.links().len() == sp_tree@.len());
    }
    let ghost cap = if within(nodes_of(gene_trees@), COORD_LIMIT as int) {
        COORD_LIMIT as int
    } else {
        afar()
    };
    centre_below(sp_tree, gene_trees, index, Ghost(cap));
    proof {
        if cap == COORD_LIMIT {
            lemma_wider(nodes_of(gene_trees@), cap + room(sp_tree, index as int), afar());
        }
    }
    Ok(())
}

} // verus!
