//! What spreading comes to where no gene node is listed twice: each gene
//! node moves once, by what its place in its list asks.

use vstd::prelude::*;
use crate::arena::ArenaTree;
use crate::centre::same_but_place;
use crate::node::{Noeud, COORD_LIMIT};
use crate::shape::{lemma_depth_bound, lemma_subtree_leaf, lemma_subtree_split, lemma_subtree_trans};
use crate::spread::{rank, spread_list, spread_one, spread_sweep};

verus! {

/// No gene node is listed twice by the species nodes of the subtree rooted
/// at `v`, be it by one of them or by two.
pub open spec fn listed_once(sp: &ArenaTree<String>, v: int) -> bool {
    forall|s: int, j: int, t: int, k: int|
        sp.has(v, s) && sp.has(v, t) && 0 <= j < sp@[s].nodes@.len() && 0 <= k
            < sp@[t].nodes@.len() && (s != t || j != k) ==> #[trigger] sp@[s].nodes@[j]
            != #[trigger] sp@[t].nodes@[k]
}

/// The entry `e` of a list names node `i` of gene tree `g`.
pub open spec fn names(e: (usize, usize), g: int, i: int) -> bool {
    e.0 == g && e.1 == i
}

/// Some species node of the subtree rooted at `v` lists node `i` of gene
/// tree `g`.
pub open spec fn listed(sp: &ArenaTree<String>, v: int, g: int, i: int) -> bool {
    exists|s: int, j: int|
        sp.has(v, s) && 0 <= j < sp@[s].nodes@.len() && names(#[trigger] sp@[s].nodes@[j], g, i)
}

/// By how many pipe units the gene node spread after `shift` others moves
/// along its species node `at`: `shift` under a left child, and otherwise as
/// many as the genes of `at` that are left to come.
pub open spec fn along(at: Noeud<String>, left: bool, shift: int) -> int {
    if left {
        shift
    } else {
        at.nbg - 1 - shift
    }
}

/// The gene node `n` is the gene node `o` spread as the one after `shift`
/// others of the species node `at`: moved along by as many pipe units as its
/// turn asks and, unless its event places it below its parent, down by
/// `shift` pipe units; a node that its event places below its parent stays
/// as high as it was.
pub open spec fn spread_as(n: Noeud<String>, o: Noeud<String>, at: Noeud<String>, left: bool, shift: int) -> bool {
    if o.e.spreads() {
        &&& n.same_but(o, true, true, false)
        &&& n.x == o.x + 15 * along(at, left, shift)
        &&& n.y == if o.e.hangs_from_parent() {
            o.y as int
        } else {
            o.y + 15 * shift
        }
    } else {
        n == o
    }
}

/// The gene node `e` is a node of the gene trees `f` that stands within
/// `COORD_LIMIT` of zero.
pub open spec fn sound(f: Seq<Seq<Noeud<String>>>, e: (usize, usize)) -> bool {
    let n = f[e.0 as int][e.1 as int];
    &&& e.0 < f.len()
    &&& e.1 < f[e.0 as int].len()
    &&& -COORD_LIMIT <= n.x <= COORD_LIMIT
    &&& -COORD_LIMIT <= n.y <= COORD_LIMIT
}

/// The first `k` gene nodes that the species node `at` lists are sound, and
/// none of them is listed twice.
pub open spec fn list_sound(f: Seq<Seq<Noeud<String>>>, at: Noeud<String>, k: nat) -> bool {
    &&& forall|j: int| 0 <= j < k ==> sound(f, #[trigger] at.nodes@[j])
    &&& forall|i: int, j: int|
        0 <= i < j < k ==> #[trigger] at.nodes@[i] != #[trigger] at.nodes@[j]
}

/// The gene nodes listed within the subtree rooted at `v` are sound, no
/// species node of the subtree holds more than `NODE_LIMIT` genes or lists
/// more than as many gene nodes, and no gene node is listed twice.
pub open spec fn sweep_sound(sp: &ArenaTree<String>, f: Seq<Seq<Noeud<String>>>, v: int) -> bool {
    &&& listed_once(sp, v)
    &&& forall|s: int| #[trigger]
        sp.has(v, s) ==> sp@[s].nbg <= 0x100_0000 && sp@[s].nodes@.len() <= 0x100_0000
    &&& forall|s: int, j: int|
        sp.has(v, s) && 0 <= j < sp@[s].nodes@.len() ==> sound(f, #[trigger] sp@[s].nodes@[j])
}

/// Node `i` of gene tree `g` is none of the first `k` gene nodes that the
/// species node `at` lists.
pub open spec fn not_among(at: Noeud<String>, k: nat, g: int, i: int) -> bool {
    forall|j: int| 0 <= j < k ==> !names(#[trigger] at.nodes@[j], g, i)
}

/// No more gene nodes are spread than are listed.
pub proof fn lemma_rank(f: Seq<Seq<Noeud<String>>>, at: Noeud<String>, k: nat)
    ensures
        0 <= rank(f, at, k) <= k,
    decreases k,
{
    if k > 0 {
        lemma_rank(f, at, (k - 1) as nat);
    }
}

/// Gene trees that differ only by where their nodes stand spread the same
/// gene nodes.
pub proof fn lemma_rank_same(
    f: Seq<Seq<Noeud<String>>>,
    h: Seq<Seq<Noeud<String>>>,
    at: Noeud<String>,
    k: nat,
)
    requires
        same_but_place(f, h),
        k <= at.nodes@.len(),
        forall|j: int|
            0 <= j < k ==> (#[trigger] at.nodes@[j]).0 < f.len() && at.nodes@[j].1
                < f[at.nodes@[j].0 as int].len(),
    ensures
        rank(f, at, k) == rank(h, at, k),
    decreases k,
{
    if k > 0 {
        lemma_rank_same(f, h, at, (k - 1) as nat);
        let e = at.nodes@[k - 1];
        assert(h[e.0 as int][e.1 as int].same_but(f[e.0 as int][e.1 as int], true, true, false));
    }
}

/// Spreading one gene node moves that node as its turn asks and leaves
/// every other gene node alone.
pub proof fn lemma_one_apart(
    b: Seq<Seq<Noeud<String>>>,
    at: Noeud<String>,
    left: bool,
    e: (usize, usize),
    shift: int,
)
    requires
        e.0 < b.len(),
        e.1 < b[e.0 as int].len(),
        -COORD_LIMIT <= b[e.0 as int][e.1 as int].x <= COORD_LIMIT,
        -COORD_LIMIT <= b[e.0 as int][e.1 as int].y <= COORD_LIMIT,
        0 <= shift <= 0x100_0000,
        at.nbg <= 0x100_0000,
    ensures
        spread_one(b, at, left, e, shift).len() == b.len(),
        forall|g: int|
            0 <= g < b.len() ==> (#[trigger] spread_one(b, at, left, e, shift)[g]).len()
                == b[g].len(),
        forall|g: int, i: int|
            0 <= g < b.len() && 0 <= i < b[g].len() && (g != e.0 || i != e.1)
                ==> #[trigger] spread_one(b, at, left, e, shift)[g][i] == b[g][i],
        spread_as(
            spread_one(b, at, left, e, shift)[e.0 as int][e.1 as int],
            b[e.0 as int][e.1 as int],
            at,
            left,
            shift,
        ),
{
}

/// Spreading the gene nodes that one species node lists, none of them twice,
/// moves each of them once and leaves every other gene node alone.
pub proof fn lemma_list_apart(f: Seq<Seq<Noeud<String>>>, at: Noeud<String>, left: bool, k: nat)
    requires
        k <= at.nodes@.len(),
        at.nodes@.len() <= 0x100_0000,
        at.nbg <= 0x100_0000,
        list_sound(f, at, k),
    ensures
        spread_list(f, at, left, k).len() == f.len(),
        forall|g: int|
            0 <= g < f.len() ==> (#[trigger] spread_list(f, at, left, k)[g]).len() == f[g].len(),
        forall|g: int, i: int|
            0 <= g < f.len() && 0 <= i < f[g].len() && not_among(at, k, g, i)
                ==> #[trigger] spread_list(f, at, left, k)[g][i] == f[g][i],
        forall|j: int|
            0 <= j < k ==> spread_as(
                spread_list(f, at, left, k)[(#[trigger] at.nodes@[j]).0 as int][at.nodes@[j].1 as int],
                f[at.nodes@[j].0 as int][at.nodes@[j].1 as int],
                at,
                left,
                rank(f, at, j as nat),
            ),
    decreases k,
{
    if k > 0 {
        let before = spread_list(f, at, left, (k - 1) as nat);
        let after = spread_list(f, at, left, k);
        let e = at.nodes@[k - 1];
        let shift = rank(f, at, (k - 1) as nat);
        lemma_list_apart(f, at, left, (k - 1) as nat);
        lemma_rank(f, at, (k - 1) as nat);
        assert(not_among(at, (k - 1) as nat, e.0 as int, e.1 as int));
        assert(before[e.0 as int].len() == f[e.0 as int].len());
        assert(before[e.0 as int][e.1 as int] == f[e.0 as int][e.1 as int]);
        assert(sound(f, e));
        lemma_one_apart(before, at, left, e, shift);
        assert forall|g: int| 0 <= g < f.len() implies (#[trigger] after[g]).len()
            == f[g].len() by {
            assert(before[g].len() == f[g].len());
        }
        assert forall|g: int, i: int|
            0 <= g < f.len() && 0 <= i < f[g].len() && not_among(at, k, g, i) implies #[trigger] after[g][i] == f[g][i] by {
            assert(!names(at.nodes@[k - 1], g, i));
            assert(not_among(at, (k - 1) as nat, g, i));
            assert(before[g].len() == f[g].len());
            assert(before[g][i] == f[g][i]);
        }
        assert forall|j: int| 0 <= j < k implies spread_as(
            after[(#[trigger] at.nodes@[j]).0 as int][at.nodes@[j].1 as int],
            f[at.nodes@[j].0 as int][at.nodes@[j].1 as int],
            at,
            left,
            rank(f, at, j as nat),
        ) by {
            let ej = at.nodes@[j];
            if j < k - 1 {
                assert(ej != e);
                assert(before[ej.0 as int].len() == f[ej.0 as int].len());
                assert(after[ej.0 as int][ej.1 as int] == before[ej.0 as int][ej.1 as int]);
            }
        }
    }
}

/// Spreading the gene nodes that one species node lists changes nothing but
/// where gene nodes stand.
pub proof fn lemma_list_place(f: Seq<Seq<Noeud<String>>>, at: Noeud<String>, left: bool)
    requires
        at.nodes@.len() <= 0x100_0000,
        at.nbg <= 0x100_0000,
        list_sound(f, at, at.nodes@.len()),
    ensures
        same_but_place(f, spread_list(f, at, left, at.nodes@.len())),
{
    let k = at.nodes@.len();
    let h = spread_list(f, at, left, k);
    lemma_list_apart(f, at, left, k);
    assert forall|g: int, i: int| 0 <= g < f.len() && 0 <= i < f[g].len() implies (
    #[trigger] h[g][i]).same_but(f[g][i], true, true, false) by {
        if not_among(at, k, g, i) {
        } else {
            let j = choose|j: int| 0 <= j < k && names(#[trigger] at.nodes@[j], g, i);
            assert(spread_as(
                h[at.nodes@[j].0 as int][at.nodes@[j].1 as int],
                f[at.nodes@[j].0 as int][at.nodes@[j].1 as int],
                at,
                left,
                rank(f, at, j as nat),
            ));
        }
    }
}

/// What is sound for the subtree rooted at `v` in the gene trees `f` is
/// sound for the subtree of a child `c` of `v` in gene trees `h` in which
/// the gene nodes listed within the subtree of `c` are as in `f`.
proof fn lemma_sound_below(
    sp: &ArenaTree<String>,
    f: Seq<Seq<Noeud<String>>>,
    h: Seq<Seq<Noeud<String>>>,
    v: int,
    c: int,
)
    requires
        sp.wf(),
        sweep_sound(sp, f, v),
        sp.has(v, c),
        f.len() == h.len(),
        forall|g: int| 0 <= g < f.len() ==> (#[trigger] h[g]).len() == f[g].len(),
        forall|s: int, j: int|
            sp.has(c, s) && 0 <= j < sp@[s].nodes@.len() ==> h[(
            #[trigger] sp@[s].nodes@[j]).0 as int][sp@[s].nodes@[j].1 as int]
                == f[sp@[s].nodes@[j].0 as int][sp@[s].nodes@[j].1 as int],
    ensures
        sweep_sound(sp, h, c),
{
    assert forall|s: int| #[trigger] sp.has(c, s) implies sp.has(v, s) by {
        lemma_subtree_trans(sp.links(), v, c, s);
    }
    assert forall|s: int, j: int|
        sp.has(c, s) && 0 <= j < sp@[s].nodes@.len() implies sound(
        h,
        #[trigger] sp@[s].nodes@[j],
    ) by {
        assert(sp.has(v, s));
        assert(sound(f, sp@[s].nodes@[j]));
    }
    assert forall|s: int, j: int, t: int, k: int|
        sp.has(c, s) && sp.has(c, t) && 0 <= j < sp@[s].nodes@.len() && 0 <= k
            < sp@[t].nodes@.len() && (s != t || j != k) implies #[trigger] sp@[s].nodes@[j]
        != #[trigger] sp@[t].nodes@[k] by {
        assert(sp.has(v, s) && sp.has(v, t));
    }
}

/// Where no gene node is listed twice within the subtree rooted at `v`,
/// spreading moves each listed gene node once, as its turn in its list asks,
/// and leaves every other gene node alone: from the gene trees `f`, the
/// `j`-th gene node of a species node `s` moves along by as many pipe units
/// as the gene nodes spread before it in that list, or as are left to come
/// where `s` is no left child, and down by as many; but a node whose event
/// places it below its parent stays as high as it was, to be put below its
/// parent once every node is spread.
pub proof fn lemma_sweep_apart(sp: &ArenaTree<String>, f: Seq<Seq<Noeud<String>>>, v: int)
    requires
        sp.wf(),
        0 <= v < sp@.len(),
        sp.binary_from(v),
        sweep_sound(sp, f, v),
    ensures
        spread_sweep(sp, f, v).len() == f.len(),
        forall|g: int|
            0 <= g < f.len() ==> (#[trigger] spread_sweep(sp, f, v)[g]).len() == f[g].len(),
        forall|g: int, i: int|
            0 <= g < f.len() && 0 <= i < f[g].len() && !listed(sp, v, g, i)
                ==> #[trigger] spread_sweep(sp, f, v)[g][i] == f[g][i],
        forall|s: int, j: int|
            sp.has(v, s) && 0 <= j < sp@[s].nodes@.len() ==> spread_as(
                spread_sweep(sp, f, v)[(
                #[trigger] sp@[s].nodes@[j]).0 as int][sp@[s].nodes@[j].1 as int],
                f[sp@[s].nodes@[j].0 as int][sp@[s].nodes@[j].1 as int],
                sp@[s],
                sp.left_child(s),
                rank(f, sp@[s], j as nat),
            ),
    decreases sp@.len() - sp.spec_depth(v),
{
    let ls = sp.links();
    lemma_depth_bound(ls, v);
    sp.lemma_binary_here(v);
    assert(sp.has(v, v));
    let at = sp@[v];
    let left = sp.left_child(v);
    let count = at.nodes@.len();
    let here = spread_list(f, at, left, count);
    assert(list_sound(f, at, count)) by {
        assert forall|j: int| 0 <= j < count implies sound(f, #[trigger] at.nodes@[j]) by {
            assert(sound(f, sp@[v].nodes@[j]));
        }
        assert forall|i: int, j: int| 0 <= i < j < count implies #[trigger] at.nodes@[i]
            != #[trigger] at.nodes@[j] by {
            assert(sp@[v].nodes@[i] != sp@[v].nodes@[j]);
        }
    }
    lemma_list_apart(f, at, left, count);
    lemma_list_place(f, at, left);
    if sp@[v].children@.len() == 2 {
        sp.lemma_two_children(v);
        let l = sp.left_of(v);
        let r = sp.right_of(v);
        assert forall|s: int| #[trigger] sp.has(l, s) implies sp.has(v, s) && s != v && !sp.has(
            r,
            s,
        ) by {
            lemma_subtree_split(ls, v, s);
        }
        assert forall|s: int| #[trigger] sp.has(r, s) implies sp.has(v, s) && s != v && !sp.has(
            l,
            s,
        ) by {
            lemma_subtree_split(ls, v, s);
        }
        // what the subtrees list is not listed by `v`
        assert forall|s: int, j: int|
            (sp.has(l, s) || sp.has(r, s)) && 0 <= j < sp@[s].nodes@.len() implies not_among(
            at,
            count,
            (#[trigger] sp@[s].nodes@[j]).0 as int,
            sp@[s].nodes@[j].1 as int,
        ) by {
            let e = sp@[s].nodes@[j];
            assert forall|k: int| 0 <= k < count implies !names(
                #[trigger] at.nodes@[k],
                e.0 as int,
                e.1 as int,
            ) by {
                assert(sp@[v].nodes@[k] != sp@[s].nodes@[j]);
            }
        }
        assert forall|s: int, j: int|
            sp.has(l, s) && 0 <= j < sp@[s].nodes@.len() implies here[(
        #[trigger] sp@[s].nodes@[j]).0 as int][sp@[s].nodes@[j].1 as int]
            == f[sp@[s].nodes@[j].0 as int][sp@[s].nodes@[j].1 as int] by {
            assert(sound(f, sp@[s].nodes@[j]));
        }
        lemma_sound_below(sp, f, here, v, l);
        lemma_sweep_apart(sp, here, l);
        let mid = spread_sweep(sp, here, l);
        assert forall|s: int, j: int|
            sp.has(r, s) && 0 <= j < sp@[s].nodes@.len() implies mid[(
        #[trigger] sp@[s].nodes@[j]).0 as int][sp@[s].nodes@[j].1 as int]
            == f[sp@[s].nodes@[j].0 as int][sp@[s].nodes@[j].1 as int] by {
            let e = sp@[s].nodes@[j];
            assert(sound(f, e));
            assert(!listed(sp, l, e.0 as int, e.1 as int)) by {
                if listed(sp, l, e.0 as int, e.1 as int) {
                    let (t, k) = choose|t: int, k: int|
                        sp.has(l, t) && 0 <= k < sp@[t].nodes@.len() && names(
                            #[trigger] sp@[t].nodes@[k],
                            e.0 as int,
                            e.1 as int,
                        );
                    assert(sp@[s].nodes@[j] != sp@[t].nodes@[k]);
                }
            }
            assert(here[e.0 as int].len() == f[e.0 as int].len());
            assert(mid[e.0 as int][e.1 as int] == here[e.0 as int][e.1 as int]);
        }
        assert forall|g: int| 0 <= g < f.len() implies (#[trigger] mid[g]).len()
            == f[g].len() by {
            assert(here[g].len() == f[g].len());
        }
        lemma_sound_below(sp, f, mid, v, r);
        lemma_sweep_apart(sp, mid, r);
        let end = spread_sweep(sp, mid, r);
        assert(end == spread_sweep(sp, f, v));
        assert forall|g: int| 0 <= g < f.len() implies (#[trigger] end[g]).len()
            == f[g].len() by {
            assert(mid[g].len() == f[g].len());
        }
        assert forall|g: int, i: int|
            0 <= g < f.len() && 0 <= i < f[g].len() && !listed(sp, v, g, i) implies #[trigger] end[g][i] == f[g][i] by {
            assert(not_among(at, count, g, i)) by {
                assert forall|k: int| 0 <= k < count implies !names(
                    #[trigger] at.nodes@[k],
                    g,
                    i,
                ) by {
                    if names(at.nodes@[k], g, i) {
                        assert(names(sp@[v].nodes@[k], g, i));
                    }
                }
            }
            assert(!listed(sp, l, g, i)) by {
                if listed(sp, l, g, i) {
                    let (t, k) = choose|t: int, k: int|
                        sp.has(l, t) && 0 <= k < sp@[t].nodes@.len() && names(
                            #[trigger] sp@[t].nodes@[k],
                            g,
                            i,
                        );
                    assert(sp.has(v, t));
                }
            }
            assert(!listed(sp, r, g, i)) by {
                if listed(sp, r, g, i) {
                    let (t, k) = choose|t: int, k: int|
                        sp.has(r, t) && 0 <= k < sp@[t].nodes@.len() && names(
                            #[trigger] sp@[t].nodes@[k],
                            g,
                            i,
                        );
                    assert(sp.has(v, t));
                }
            }
            assert(here[g].len() == f[g].len());
            assert(mid[g].len() == f[g].len());
            assert(here[g][i] == f[g][i]);
            assert(mid[g][i] == here[g][i]);
            assert(end[g][i] == mid[g][i]);
        }
        assert forall|s: int, j: int|
            sp.has(v, s) && 0 <= j < sp@[s].nodes@.len() implies spread_as(
            end[(#[trigger] sp@[s].nodes@[j]).0 as int][sp@[s].nodes@[j].1 as int],
            f[sp@[s].nodes@[j].0 as int][sp@[s].nodes@[j].1 as int],
            sp@[s],
            sp.left_child(s),
            rank(f, sp@[s], j as nat),
        ) by {
            let e = sp@[s].nodes@[j];
            assert(sound(f, e));
            let g = e.0 as int;
            let i = e.1 as int;
            assert(here[g].len() == f[g].len());
            assert(mid[g].len() == f[g].len());
            lemma_subtree_split(ls, v, s);
            if s == v {
                assert(at.nodes@[j] == e);
                assert(!listed(sp, l, g, i)) by {
                    if listed(sp, l, g, i) {
                        let (t, k) = choose|t: int, k: int|
                            sp.has(l, t) && 0 <= k < sp@[t].nodes@.len() && names(
                                #[trigger] sp@[t].nodes@[k],
                                g,
                                i,
                            );
                        assert(sp@[v].nodes@[j] != sp@[t].nodes@[k]);
                    }
                }
                assert(!listed(sp, r, g, i)) by {
                    if listed(sp, r, g, i) {
                        let (t, k) = choose|t: int, k: int|
                            sp.has(r, t) && 0 <= k < sp@[t].nodes@.len() && names(
                                #[trigger] sp@[t].nodes@[k],
                                g,
                                i,
                            );
                        assert(sp@[v].nodes@[j] != sp@[t].nodes@[k]);
                    }
                }
                assert(mid[g][i] == here[g][i]);
                assert(end[g][i] == mid[g][i]);
            } else if sp.has(l, s) {
                assert(!listed(sp, r, g, i)) by {
                    if listed(sp, r, g, i) {
                        let (t, k) = choose|t: int, k: int|
                            sp.has(r, t) && 0 <= k < sp@[t].nodes@.len() && names(
                                #[trigger] sp@[t].nodes@[k],
                                g,
                                i,
                            );
                        assert(sp@[s].nodes@[j] != sp@[t].nodes@[k]);
                    }
                }
                assert(end[g][i] == mid[g][i]);
                assert(here[g][i] == f[g][i]);
                assert forall|k: int| 0 <= k < j implies (#[trigger] sp@[s].nodes@[k]).0
                    < f.len() && sp@[s].nodes@[k].1 < f[sp@[s].nodes@[k].0 as int].len() by {
                    assert(sound(f, sp@[s].nodes@[k]));
                }
                lemma_rank_same(f, here, sp@[s], j as nat);
            } else {
                assert(sp.has(r, s));
                assert(mid[g][i] == f[g][i]);
                assert(same_but_place(f, mid)) by {
                    assert forall|a: int, b: int|
                        0 <= a < f.len() && 0 <= b < f[a].len() implies (
                    #[trigger] mid[a][b]).same_but(f[a][b], true, true, false) by {
                        assert(here[a][b].same_but(f[a][b], true, true, false));
                        assert(here[a].len() == f[a].len());
                        if listed(sp, l, a, b) {
                            let (t, k) = choose|t: int, k: int|
                                sp.has(l, t) && 0 <= k < sp@[t].nodes@.len() && names(
                                    #[trigger] sp@[t].nodes@[k],
                                    a,
                                    b,
                                );
                            assert(spread_as(
                                mid[sp@[t].nodes@[k].0 as int][sp@[t].nodes@[k].1 as int],
                                here[sp@[t].nodes@[k].0 as int][sp@[t].nodes@[k].1 as int],
                                sp@[t],
                                sp.left_child(t),
                                rank(here, sp@[t], k as nat),
                            ));
                        } else {
                            assert(mid[a][b] == here[a][b]);
                        }
                    }
                }
                assert forall|k: int| 0 <= k < j implies (#[trigger] sp@[s].nodes@[k]).0
                    < f.len() && sp@[s].nodes@[k].1 < f[sp@[s].nodes@[k].0 as int].len() by {
                    assert(sound(f, sp@[s].nodes@[k]));
                }
                lemma_rank_same(f, mid, sp@[s], j as nat);
            }
        }
    } else {
        assert forall|s: int| #[trigger] sp.has(v, s) implies s == v by {
            lemma_subtree_leaf(ls, v, s);
        }
        assert(here == spread_sweep(sp, f, v));
        assert forall|g: int, i: int|
            0 <= g < f.len() && 0 <= i < f[g].len() && !listed(sp, v, g, i) implies #[trigger] here[g][i] == f[g][i] by {
            assert(not_among(at, count, g, i)) by {
                assert forall|k: int| 0 <= k < count implies !names(
                    #[trigger] at.nodes@[k],
                    g,
                    i,
                ) by {
                    if names(at.nodes@[k], g, i) {
                        assert(names(sp@[v].nodes@[k], g, i));
                    }
                }
            }
        }
    }
}

/// Spreading within a subtree changes nothing of a gene node but where it
/// stands.
pub proof fn lemma_moved_only(
    sp: &ArenaTree<String>,
    f: Seq<Seq<Noeud<String>>>,
    v: int,
    g: int,
    i: int,
)
    requires
        sp.wf(),
        0 <= v < sp@.len(),
        sp.binary_from(v),
        sweep_sound(sp, f, v),
        0 <= g < f.len(),
        0 <= i < f[g].len(),
    ensures
        spread_sweep(sp, f, v)[g][i].same_but(f[g][i], true, true, false),
{
    lemma_sweep_apart(sp, f, v);
    if listed(sp, v, g, i) {
        let (s, j) = choose|s: int, j: int|
            sp.has(v, s) && 0 <= j < sp@[s].nodes@.len() && names(
                #[trigger] sp@[s].nodes@[j],
                g,
                i,
            );
        assert(spread_as(
            spread_sweep(sp, f, v)[sp@[s].nodes@[j].0 as int][sp@[s].nodes@[j].1 as int],
            f[sp@[s].nodes@[j].0 as int][sp@[s].nodes@[j].1 as int],
            sp@[s],
            sp.left_child(s),
            rank(f, sp@[s], j as nat),
        ));
    }
}

/// Each gene node that is spread raises the number of those spread before
/// the next.
pub proof fn lemma_rank_grows(f: Seq<Seq<Noeud<String>>>, at: Noeud<String>, j: nat, k: nat)
    requires
        j < k,
        f[at.nodes@[j as int].0 as int][at.nodes@[j as int].1 as int].e.spreads(),
    ensures
        rank(f, at, j) < rank(f, at, k),
    decreases k,
{
    if j + 1 < k {
        lemma_rank_grows(f, at, j, (k - 1) as nat);
    } else {
        lemma_rank(f, at, j);
    }
}

/// Gene nodes that share a species node come apart: where no gene node is
/// listed twice within the subtree rooted at `v`, two gene nodes that one
/// species node of the subtree lists, that are both spread and that stood at
/// one horizontal coordinate, stand at two once spread.
pub proof fn lemma_come_apart(
    sp: &ArenaTree<String>,
    f: Seq<Seq<Noeud<String>>>,
    v: int,
    s: int,
    j: int,
    k: int,
)
    requires
        sp.wf(),
        0 <= v < sp@.len(),
        sp.binary_from(v),
        sweep_sound(sp, f, v),
        sp.has(v, s),
        0 <= j < k < sp@[s].nodes@.len(),
        f[sp@[s].nodes@[j].0 as int][sp@[s].nodes@[j].1 as int].e.spreads(),
        f[sp@[s].nodes@[k].0 as int][sp@[s].nodes@[k].1 as int].e.spreads(),
        f[sp@[s].nodes@[j].0 as int][sp@[s].nodes@[j].1 as int].x
            == f[sp@[s].nodes@[k].0 as int][sp@[s].nodes@[k].1 as int].x,
    ensures
        spread_sweep(sp, f, v)[sp@[s].nodes@[j].0 as int][sp@[s].nodes@[j].1 as int].x
            != spread_sweep(sp, f, v)[sp@[s].nodes@[k].0 as int][sp@[s].nodes@[k].1 as int].x,
{
    lemma_sweep_apart(sp, f, v);
    lemma_rank_grows(f, sp@[s], j as nat, k as nat);
    let end = spread_sweep(sp, f, v);
    assert(spread_as(
        end[sp@[s].nodes@[j].0 as int][sp@[s].nodes@[j].1 as int],
        f[sp@[s].nodes@[j].0 as int][sp@[s].nodes@[j].1 as int],
        sp@[s],
        sp.left_child(s),
        rank(f, sp@[s], j as nat),
    ));
    assert(spread_as(
        end[sp@[s].nodes@[k].0 as int][sp@[s].nodes@[k].1 as int],
        f[sp@[s].nodes@[k].0 as int][sp@[s].nodes@[k].1 as int],
        sp@[s],
        sp.left_child(s),
        rank(f, sp@[s], k as nat),
    ));
}

} // verus!
