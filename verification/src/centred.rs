//! What centring comes to where no gene node is listed twice: each group
//! moves once, by what it was off centre.

use vstd::prelude::*;
use crate::apart::{listed, listed_once, names, not_among};
use crate::arena::ArenaTree;
use crate::centre::{centre_list, centre_sweep, coord, far, moved_back, off_centre};
use crate::node::{Noeud, COORD_LIMIT};
use crate::shape::{lemma_depth_bound, lemma_subtree_leaf, lemma_subtree_split, lemma_subtree_trans};

verus! {

/// The widest bound on coordinates under which the laws of this module are
/// stated.
pub open spec fn widest() -> int {
    0x100_0000_0000
}

/// The gene node `e` is a node of the gene trees `f` that stands within `b`
/// of zero.
pub open spec fn placed(f: Seq<Seq<Noeud<String>>>, e: (usize, usize), b: int) -> bool {
    let n = f[e.0 as int][e.1 as int];
    &&& e.0 < f.len()
    &&& e.1 < f[e.0 as int].len()
    &&& -b <= n.x <= b
    &&& -b <= n.y <= b
}

/// The first `k` gene nodes that the species node `at` lists are placed, and
/// none of them is listed twice.
pub open spec fn group_sound(f: Seq<Seq<Noeud<String>>>, at: Noeud<String>, k: nat, b: int) -> bool {
    &&& forall|j: int| 0 <= j < k ==> placed(f, #[trigger] at.nodes@[j], b)
    &&& forall|i: int, j: int|
        0 <= i < j < k ==> #[trigger] at.nodes@[i] != #[trigger] at.nodes@[j]
}

/// The gene nodes listed within the subtree rooted at `v` are placed within
/// `b` of zero, the species nodes of the subtree are bounded, and no gene
/// node is listed twice.
pub open spec fn groups_sound(sp: &ArenaTree<String>, f: Seq<Seq<Noeud<String>>>, v: int, b: int) -> bool {
    &&& 0 <= b <= widest()
    &&& listed_once(sp, v)
    &&& sp.bounded_from(v)
    &&& forall|s: int, j: int|
        sp.has(v, s) && 0 <= j < sp@[s].nodes@.len() ==> placed(f, #[trigger] sp@[s].nodes@[j], b)
}

/// The gene node `n` is the gene node `o` moved back by `(dx, dy)`.
pub open spec fn moved_as(n: Noeud<String>, o: Noeud<String>, dx: int, dy: int) -> bool {
    &&& n.same_but(o, true, true, false)
    &&& n.x == o.x - dx
    &&& n.y == o.y - dy
}

/// The extremes of a group whose gene nodes are placed within `b` of zero
/// lie within `b` of zero.
pub proof fn lemma_far_placed(f: Seq<Seq<Noeud<String>>>, at: Noeud<String>, k: nat, vertical: bool, b: int)
    requires
        k <= at.nodes@.len(),
        0 <= b,
        forall|j: int| 0 <= j < k ==> placed(f, #[trigger] at.nodes@[j], b),
    ensures
        -b <= far(f, at, k, true, vertical) <= b,
        -b <= far(f, at, k, false, vertical) <= b,
    decreases k,
{
    if k > 0 {
        lemma_far_placed(f, at, (k - 1) as nat, vertical, b);
        assert(placed(f, at.nodes@[k - 1], b));
    }
}

/// Gene trees in which every gene node of a group stands `d` further back
/// have the extremes of the group `d` further back.
pub proof fn lemma_far_moved(
    f: Seq<Seq<Noeud<String>>>,
    h: Seq<Seq<Noeud<String>>>,
    at: Noeud<String>,
    k: nat,
    largest: bool,
    vertical: bool,
    d: int,
)
    requires
        1 <= k <= at.nodes@.len(),
        forall|j: int|
            0 <= j < k ==> coord(
                h[(#[trigger] at.nodes@[j]).0 as int][at.nodes@[j].1 as int],
                vertical,
            ) == coord(f[at.nodes@[j].0 as int][at.nodes@[j].1 as int], vertical) - d,
    ensures
        far(h, at, k, largest, vertical) == far(f, at, k, largest, vertical) - d,
    decreases k,
{
    let e = at.nodes@[k - 1];
    assert(coord(h[e.0 as int][e.1 as int], vertical) == coord(f[e.0 as int][e.1 as int], vertical)
        - d);
    if k > 1 {
        lemma_far_moved(f, h, at, (k - 1) as nat, largest, vertical, d);
    }
}

/// Gene trees in which the gene nodes of a group stand alike have the
/// extremes of the group alike.
pub proof fn lemma_far_same(
    f: Seq<Seq<Noeud<String>>>,
    h: Seq<Seq<Noeud<String>>>,
    at: Noeud<String>,
    k: nat,
    largest: bool,
    vertical: bool,
)
    requires
        k <= at.nodes@.len(),
        forall|j: int|
            0 <= j < k ==> coord(
                h[(#[trigger] at.nodes@[j]).0 as int][at.nodes@[j].1 as int],
                vertical,
            ) == coord(f[at.nodes@[j].0 as int][at.nodes@[j].1 as int], vertical),
    ensures
        far(h, at, k, largest, vertical) == far(f, at, k, largest, vertical),
    decreases k,
{
    if k > 0 {
        lemma_far_same(f, h, at, (k - 1) as nat, largest, vertical);
        let e = at.nodes@[k - 1];
        assert(coord(h[e.0 as int][e.1 as int], vertical) == coord(
            f[e.0 as int][e.1 as int],
            vertical,
        ));
    }
}

/// Moving one gene node back moves that node and leaves every other gene
/// node alone.
pub proof fn lemma_one_back(b: Seq<Seq<Noeud<String>>>, e: (usize, usize), dx: int, dy: int)
    requires
        placed(b, e, widest()),
        -4 * widest() <= dx <= 4 * widest(),
        -4 * widest() <= dy <= 4 * widest(),
    ensures
        moved_back(b, e, dx, dy).len() == b.len(),
        forall|g: int|
            0 <= g < b.len() ==> (#[trigger] moved_back(b, e, dx, dy)[g]).len() == b[g].len(),
        forall|g: int, i: int|
            0 <= g < b.len() && 0 <= i < b[g].len() && !names(e, g, i)
                ==> #[trigger] moved_back(b, e, dx, dy)[g][i] == b[g][i],
        moved_as(moved_back(b, e, dx, dy)[e.0 as int][e.1 as int], b[e.0 as int][e.1 as int], dx, dy),
{
}

/// Moving back the gene nodes that one species node lists, none of them
/// twice, moves each of them once and leaves every other gene node alone.
pub proof fn lemma_list_back(f: Seq<Seq<Noeud<String>>>, at: Noeud<String>, dx: int, dy: int, k: nat)
    requires
        k <= at.nodes@.len(),
        group_sound(f, at, k, widest()),
        -4 * widest() <= dx <= 4 * widest(),
        -4 * widest() <= dy <= 4 * widest(),
    ensures
        centre_list(f, at, dx, dy, k).len() == f.len(),
        forall|g: int|
            0 <= g < f.len() ==> (#[trigger] centre_list(f, at, dx, dy, k)[g]).len() == f[g].len(),
        forall|g: int, i: int|
            0 <= g < f.len() && 0 <= i < f[g].len() && not_among(at, k, g, i)
                ==> #[trigger] centre_list(f, at, dx, dy, k)[g][i] == f[g][i],
        forall|j: int|
            0 <= j < k ==> moved_as(
                centre_list(f, at, dx, dy, k)[(#[trigger] at.nodes@[j]).0 as int][at.nodes@[j].1 as int],
                f[at.nodes@[j].0 as int][at.nodes@[j].1 as int],
                dx,
                dy,
            ),
    decreases k,
{
    if k > 0 {
        let before = centre_list(f, at, dx, dy, (k - 1) as nat);
        let after = centre_list(f, at, dx, dy, k);
        let e = at.nodes@[k - 1];
        lemma_list_back(f, at, dx, dy, (k - 1) as nat);
        assert(placed(f, e, widest()));
        assert(not_among(at, (k - 1) as nat, e.0 as int, e.1 as int));
        assert(before[e.0 as int].len() == f[e.0 as int].len());
        assert(before[e.0 as int][e.1 as int] == f[e.0 as int][e.1 as int]);
        lemma_one_back(before, e, dx, dy);
        assert forall|g: int| 0 <= g < f.len() implies (#[trigger] after[g]).len()
            == f[g].len() by {
            assert(before[g].len() == f[g].len());
        }
        assert forall|g: int, i: int|
            0 <= g < f.len() && 0 <= i < f[g].len() && not_among(
                at,
                k,
                g,
                i,
            ) implies #[trigger] after[g][i] == f[g][i] by {
            assert(!names(at.nodes@[k - 1], g, i));
            assert(not_among(at, (k - 1) as nat, g, i));
            assert(before[g].len() == f[g].len());
            assert(before[g][i] == f[g][i]);
        }
        assert forall|j: int| 0 <= j < k implies moved_as(
            after[(#[trigger] at.nodes@[j]).0 as int][at.nodes@[j].1 as int],
            f[at.nodes@[j].0 as int][at.nodes@[j].1 as int],
            dx,
            dy,
        ) by {
            let ej = at.nodes@[j];
            if j < k - 1 {
                assert(ej != e);
                assert(placed(f, ej, widest()));
                assert(before[ej.0 as int].len() == f[ej.0 as int].len());
                assert(after[ej.0 as int][ej.1 as int] == before[ej.0 as int][ej.1 as int]);
            }
        }
    }
}

proof fn lemma_groups_below(
    sp: &ArenaTree<String>,
    f: Seq<Seq<Noeud<String>>>,
    h: Seq<Seq<Noeud<String>>>,
    v: int,
    c: int,
    b: int,
)
    requires
        sp.wf(),
        groups_sound(sp, f, v, b),
        sp.has(v, c),
        f.len() == h.len(),
        forall|g: int| 0 <= g < f.len() ==> (#[trigger] h[g]).len() == f[g].len(),
        forall|s: int, j: int|
            sp.has(c, s) && 0 <= j < sp@[s].nodes@.len() ==> h[(
            #[trigger] sp@[s].nodes@[j]).0 as int][sp@[s].nodes@[j].1 as int]
                == f[sp@[s].nodes@[j].0 as int][sp@[s].nodes@[j].1 as int],
    ensures
        groups_sound(sp, h, c, b),
        forall|s: int| #[trigger]
            sp.has(c, s) ==> off_centre(h, sp@[s], false) == off_centre(f, sp@[s], false)
                && off_centre(h, sp@[s], true) == off_centre(f, sp@[s], true),
{
    assert forall|s: int| #[trigger] sp.has(c, s) implies sp.has(v, s) by {
        lemma_subtree_trans(sp.links(), v, c, s);
    }
    assert forall|s: int, j: int|
        sp.has(c, s) && 0 <= j < sp@[s].nodes@.len() implies placed(
        h,
        #[trigger] sp@[s].nodes@[j],
        b,
    ) by {
        assert(sp.has(v, s));
        assert(placed(f, sp@[s].nodes@[j], b));
    }
    assert forall|s: int, j: int, t: int, k: int|
        sp.has(c, s) && sp.has(c, t) && 0 <= j < sp@[s].nodes@.len() && 0 <= k
            < sp@[t].nodes@.len() && (s != t || j != k) implies #[trigger] sp@[s].nodes@[j]
        != #[trigger] sp@[t].nodes@[k] by {
        assert(sp.has(v, s) && sp.has(v, t));
    }
    assert forall|s: int| #[trigger] sp.has(c, s) implies sp@[s].bounded() by {
        assert(sp.has(v, s));
    }
    assert forall|s: int| #[trigger] sp.has(c, s) implies off_centre(h, sp@[s], false)
        == off_centre(f, sp@[s], false) && off_centre(h, sp@[s], true) == off_centre(
        f,
        sp@[s],
        true,
    ) by {
        let at = sp@[s];
        let n = at.nodes@.len();
        assert forall|j: int| 0 <= j < n implies h[(
        #[trigger] at.nodes@[j]).0 as int][at.nodes@[j].1 as int]
            == f[at.nodes@[j].0 as int][at.nodes@[j].1 as int] by {
            assert(h[sp@[s].nodes@[j].0 as int][sp@[s].nodes@[j].1 as int]
                == f[sp@[s].nodes@[j].0 as int][sp@[s].nodes@[j].1 as int]);
        }
        lemma_far_same(f, h, at, n, true, false);
        lemma_far_same(f, h, at, n, false, false);
        lemma_far_same(f, h, at, n, true, true);
        lemma_far_same(f, h, at, n, false, true);
    }
}

/// Where no gene node is listed twice within the subtree rooted at `v`,
/// centring moves each listed gene node once and leaves every other gene
/// node alone: from the gene trees `f`, each gene node that a species node
/// lists moves back by what the group of that species node is off centre in
/// `f`.
pub proof fn lemma_sweep_centred(sp: &ArenaTree<String>, f: Seq<Seq<Noeud<String>>>, v: int, b: int)
    requires
        sp.wf(),
        0 <= v < sp@.len(),
        sp.binary_from(v),
        groups_sound(sp, f, v, b),
    ensures
        centre_sweep(sp, f, v).len() == f.len(),
        forall|g: int|
            0 <= g < f.len() ==> (#[trigger] centre_sweep(sp, f, v)[g]).len() == f[g].len(),
        forall|g: int, i: int|
            0 <= g < f.len() && 0 <= i < f[g].len() && !listed(sp, v, g, i)
                ==> #[trigger] centre_sweep(sp, f, v)[g][i] == f[g][i],
        forall|s: int, j: int|
            sp.has(v, s) && 0 <= j < sp@[s].nodes@.len() ==> moved_as(
                centre_sweep(sp, f, v)[(
                #[trigger] sp@[s].nodes@[j]).0 as int][sp@[s].nodes@[j].1 as int],
                f[sp@[s].nodes@[j].0 as int][sp@[s].nodes@[j].1 as int],
                off_centre(f, sp@[s], false),
                off_centre(f, sp@[s], true),
            ),
    decreases sp@.len() - sp.spec_depth(v),
{
    let ls = sp.links();
    lemma_depth_bound(ls, v);
    sp.lemma_binary_here(v);
    assert(sp.has(v, v));
    let at = sp@[v];
    let count = at.nodes@.len();
    let dx = off_centre(f, at, false);
    let dy = off_centre(f, at, true);
    let here = centre_list(f, at, dx, dy, count);
    assert(at.bounded());
    assert(group_sound(f, at, count, widest())) by {
        assert forall|j: int| 0 <= j < count implies placed(f, #[trigger] at.nodes@[j], widest()) by {
            assert(placed(f, sp@[v].nodes@[j], b));
        }
        assert forall|i: int, j: int| 0 <= i < j < count implies #[trigger] at.nodes@[i]
            != #[trigger] at.nodes@[j] by {
            assert(sp@[v].nodes@[i] != sp@[v].nodes@[j]);
        }
    }
    assert forall|j: int| 0 <= j < count implies placed(f, #[trigger] at.nodes@[j], b) by {
        assert(placed(f, sp@[v].nodes@[j], b));
    }
    lemma_far_placed(f, at, count, false, b);
    lemma_far_placed(f, at, count, true, b);
    lemma_list_back(f, at, dx, dy, count);
    if sp@[v].children@.len() == 2 {
        sp.lemma_two_children(v);
        let l = sp.left_of(v);
        let r = sp.right_of(v);
        assert forall|s: int| #[trigger] sp.has(l, s) implies sp.has(v, s) && s != v && !sp.has(
            r,
            s,
        ) by {
            lemma_subtree_split(ls, v, s);
        }
        assert forall|s: int| #[trigger] sp.has(r, s) implies sp.has(v, s) && s != v && !sp.has(
            l,
            s,
        ) by {
            lemma_subtree_split(ls, v, s);
        }
        assert forall|s: int, j: int|
            (sp.has(l, s) || sp.has(r, s)) && 0 <= j < sp@[s].nodes@.len() implies not_among(
            at,
            count,
            (#[trigger] sp@[s].nodes@[j]).0 as int,
            sp@[s].nodes@[j].1 as int,
        ) by {
            let e = sp@[s].nodes@[j];
            assert forall|k: int| 0 <= k < count implies !names(
                #[trigger] at.nodes@[k],
                e.0 as int,
                e.1 as int,
            ) by {
                assert(sp@[v].nodes@[k] != sp@[s].nodes@[j]);
            }
        }
        assert forall|s: int, j: int|
            sp.has(l, s) && 0 <= j < sp@[s].nodes@.len() implies here[(
        #[trigger] sp@[s].nodes@[j]).0 as int][sp@[s].nodes@[j].1 as int]
            == f[sp@[s].nodes@[j].0 as int][sp@[s].nodes@[j].1 as int] by {
            assert(placed(f, sp@[s].nodes@[j], b));
        }
        lemma_groups_below(sp, f, here, v, l, b);
        lemma_sweep_centred(sp, here, l, b);
        let mid = centre_sweep(sp, here, l);
        assert forall|g: int| 0 <= g < f.len() implies (#[trigger] mid[g]).len()
            == f[g].len() by {
            assert(here[g].len() == f[g].len());
        }
        assert forall|s: int, j: int|
            sp.has(r, s) && 0 <= j < sp@[s].nodes@.len() implies mid[(
        #[trigger] sp@[s].nodes@[j]).0 as int][sp@[s].nodes@[j].1 as int]
            == f[sp@[s].nodes@[j].0 as int][sp@[s].nodes@[j].1 as int] by {
            let e = sp@[s].nodes@[j];
            let g = e.0 as int;
            let i = e.1 as int;
            assert(placed(f, e, b));
            assert(!listed(sp, l, g, i)) by {
                if listed(sp, l, g, i) {
                    let (t, k) = choose|t: int, k: int|
                        sp.has(l, t) && 0 <= k < sp@[t].nodes@.len() && names(
                            #[trigger] sp@[t].nodes@[k],
                            g,
                            i,
                        );
                    assert(sp@[s].nodes@[j] != sp@[t].nodes@[k]);
                }
            }
            assert(here[g].len() == f[g].len());
            assert(mid[g][i] == here[g][i]);
        }
        lemma_groups_below(sp, f, mid, v, r, b);
        lemma_sweep_centred(sp, mid, r, b);
        let end = centre_sweep(sp, mid, r);
        assert(end == centre_sweep(sp, f, v));
        assert forall|g: int| 0 <= g < f.len() implies (#[trigger] end[g]).len()
            == f[g].len() by {
            assert(mid[g].len() == f[g].len());
        }
        assert forall|g: int, i: int|
            0 <= g < f.len() && 0 <= i < f[g].len() && !listed(
                sp,
                v,
                g,
                i,
            ) implies #[trigger] end[g][i] == f[g][i] by {
            assert(not_among(at, count, g, i)) by {
                assert forall|k: int| 0 <= k < count implies !names(
                    #[trigger] at.nodes@[k],
                    g,
                    i,
                ) by {
                    if names(at.nodes@[k], g, i) {
                        assert(names(sp@[v].nodes@[k], g, i));
                    }
                }
            }
            assert(!listed(sp, l, g, i)) by {
                if listed(sp, l, g, i) {
                    let (t, k) = choose|t: int, k: int|
                        sp.has(l, t) && 0 <= k < sp@[t].nodes@.len() && names(
                            #[trigger] sp@[t].nodes@[k],
                            g,
                            i,
                        );
                    assert(sp.has(v, t));
                }
            }
            assert(!listed(sp, r, g, i)) by {
                if listed(sp, r, g, i) {
                    let (t, k) = choose|t: int, k: int|
                        sp.has(r, t) && 0 <= k < sp@[t].nodes@.len() && names(
                            #[trigger] sp@[t].nodes@[k],
                            g,
                            i,
                        );
                    assert(sp.has(v, t));
                }
            }
            assert(here[g].len() == f[g].len());
            assert(mid[g].len() == f[g].len());
            assert(here[g][i] == f[g][i]);
            assert(mid[g][i] == here[g][i]);
            assert(end[g][i] == mid[g][i]);
        }
        assert forall|s: int, j: int|
            sp.has(v, s) && 0 <= j < sp@[s].nodes@.len() implies moved_as(
            end[(#[trigger] sp@[s].nodes@[j]).0 as int][sp@[s].nodes@[j].1 as int],
            f[sp@[s].nodes@[j].0 as int][sp@[s].nodes@[j].1 as int],
            off_centre(f, sp@[s], false),
            off_centre(f, sp@[s], true),
        ) by {
            let e = sp@[s].nodes@[j];
            assert(placed(f, e, b));
            let g = e.0 as int;
            let i = e.1 as int;
            assert(here[g].len() == f[g].len());
            assert(mid[g].len() == f[g].len());
            lemma_subtree_split(ls, v, s);
            if s == v {
                assert(at.nodes@[j] == e);
                assert(!listed(sp, l, g, i)) by {
                    if listed(sp, l, g, i) {
                        let (t, k) = choose|t: int, k: int|
                            sp.has(l, t) && 0 <= k < sp@[t].nodes@.len() && names(
                                #[trigger] sp@[t].nodes@[k],
                                g,
                                i,
                            );
                        assert(sp@[v].nodes@[j] != sp@[t].nodes@[k]);
                    }
                }
                assert(!listed(sp, r, g, i)) by {
                    if listed(sp, r, g, i) {
                        let (t, k) = choose|t: int, k: int|
                            sp.has(r, t) && 0 <= k < sp@[t].nodes@.len() && names(
                                #[trigger] sp@[t].nodes@[k],
                                g,
                                i,
                            );
                        assert(sp@[v].nodes@[j] != sp@[t].nodes@[k]);
                    }
                }
                assert(mid[g][i] == here[g][i]);
                assert(end[g][i] == mid[g][i]);
            } else if sp.has(l, s) {
                assert(!listed(sp, r, g, i)) by {
                    if listed(sp, r, g, i) {
                        let (t, k) = choose|t: int, k: int|
                            sp.has(r, t) && 0 <= k < sp@[t].nodes@.len() && names(
                                #[trigger] sp@[t].nodes@[k],
                                g,
                                i,
                            );
                        assert(sp@[s].nodes@[j] != sp@[t].nodes@[k]);
                    }
                }
                assert(end[g][i] == mid[g][i]);
                assert(here[g][i] == f[g][i]);
            } else {
                assert(sp.has(r, s));
                assert(mid[g][i] == f[g][i]);
            }
        }
    } else {
        assert forall|s: int| #[trigger] sp.has(v, s) implies s == v by {
            lemma_subtree_leaf(ls, v, s);
        }
        assert(here == centre_sweep(sp, f, v));
        assert forall|g: int, i: int|
            0 <= g < f.len() && 0 <= i < f[g].len() && !listed(
                sp,
                v,
                g,
                i,
            ) implies #[trigger] here[g][i] == f[g][i] by {
            assert(not_among(at, count, g, i)) by {
                assert forall|k: int| 0 <= k < count implies !names(
                    #[trigger] at.nodes@[k],
                    g,
                    i,
                ) by {
                    if names(at.nodes@[k], g, i) {
                        assert(names(sp@[v].nodes@[k], g, i));
                    }
                }
            }
        }
    }
}

/// Once centred, every group stands in the middle of its pipe: where no
/// gene node is listed twice within the subtree rooted at `v`, the group of
/// each species node of the subtree is off centre by nothing, either way,
/// in the gene trees that centring leaves.
pub proof fn lemma_group_centred(sp: &ArenaTree<String>, f: Seq<Seq<Noeud<String>>>, v: int, b: int)
    requires
        sp.wf(),
        0 <= v < sp@.len(),
        sp.binary_from(v),
        groups_sound(sp, f, v, b),
        2 * b + 2 * COORD_LIMIT <= widest(),
    ensures
        groups_sound(sp, centre_sweep(sp, f, v), v, 2 * b + 2 * COORD_LIMIT),
        forall|s: int| #[trigger]
            sp.has(v, s) ==> off_centre(centre_sweep(sp, f, v), sp@[s], false) == 0 && off_centre(
                centre_sweep(sp, f, v),
                sp@[s],
                true,
            ) == 0,
{
    let h = centre_sweep(sp, f, v);
    lemma_sweep_centred(sp, f, v, b);
    assert forall|s: int, j: int|
        sp.has(v, s) && 0 <= j < sp@[s].nodes@.len() implies placed(
        h,
        #[trigger] sp@[s].nodes@[j],
        2 * b + 2 * COORD_LIMIT,
    ) by {
        let at = sp@[s];
        let e = at.nodes@[j];
        assert(at.bounded());
        assert forall|k: int| 0 <= k < at.nodes@.len() implies placed(
            f,
            #[trigger] at.nodes@[k],
            b,
        ) by {
            assert(placed(f, sp@[s].nodes@[k], b));
        }
        lemma_far_placed(f, at, at.nodes@.len(), false, b);
        lemma_far_placed(f, at, at.nodes@.len(), true, b);
        assert(placed(f, e, b));
        assert(moved_as(
            h[e.0 as int][e.1 as int],
            f[e.0 as int][e.1 as int],
            off_centre(f, at, false),
            off_centre(f, at, true),
        ));
    }
    assert forall|s: int| #[trigger] sp.has(v, s) implies off_centre(h, sp@[s], false) == 0
        && off_centre(h, sp@[s], true) == 0 by {
        let at = sp@[s];
        let n = at.nodes@.len();
        if n > 0 {
            let dx = off_centre(f, at, false);
            let dy = off_centre(f, at, true);
            assert forall|j: int| 0 <= j < n implies coord(
                h[(#[trigger] at.nodes@[j]).0 as int][at.nodes@[j].1 as int],
                false,
            ) == coord(f[at.nodes@[j].0 as int][at.nodes@[j].1 as int], false) - dx && coord(
                h[at.nodes@[j].0 as int][at.nodes@[j].1 as int],
                true,
            ) == coord(f[at.nodes@[j].0 as int][at.nodes@[j].1 as int], true) - dy by {
                let e = sp@[s].nodes@[j];
                assert(moved_as(h[e.0 as int][e.1 as int], f[e.0 as int][e.1 as int], dx, dy));
            }
            lemma_far_moved(f, h, at, n, true, false, dx);
            lemma_far_moved(f, h, at, n, false, false, dx);
            lemma_far_moved(f, h, at, n, true, true, dy);
            lemma_far_moved(f, h, at, n, false, true, dy);
        }
    }
}

/// Centring twice moves nothing the second time: where the gene nodes
/// stand within `COORD_LIMIT` of zero and none is listed twice within the
/// subtree rooted at `v`, centring the gene trees that centring leaves gives
/// these same gene trees.
pub proof fn lemma_centred_twice(sp: &ArenaTree<String>, f: Seq<Seq<Noeud<String>>>, v: int)
    requires
        sp.wf(),
        0 <= v < sp@.len(),
        sp.binary_from(v),
        groups_sound(sp, f, v, COORD_LIMIT as int),
    ensures
        centre_sweep(sp, centre_sweep(sp, f, v), v) == centre_sweep(sp, f, v),
{
    let h = centre_sweep(sp, f, v);
    let t = centre_sweep(sp, h, v);
    lemma_sweep_centred(sp, f, v, COORD_LIMIT as int);
    lemma_group_centred(sp, f, v, COORD_LIMIT as int);
    lemma_sweep_centred(sp, h, v, 4 * COORD_LIMIT);
    assert forall|g: int| 0 <= g < h.len() implies #[trigger] t[g] == h[g] by {
        assert(t[g].len() == h[g].len());
        assert forall|i: int| 0 <= i < h[g].len() implies #[trigger] t[g][i] == h[g][i] by {
            if listed(sp, v, g, i) {
                let (s, j) = choose|s: int, j: int|
                    sp.has(v, s) && 0 <= j < sp@[s].nodes@.len() && names(
                        #[trigger] sp@[s].nodes@[j],
                        g,
                        i,
                    );
                let e = sp@[s].nodes@[j];
                assert(moved_as(
                    t[e.0 as int][e.1 as int],
                    h[e.0 as int][e.1 as int],
                    off_centre(h, sp@[s], false),
                    off_centre(h, sp@[s], true),
                ));
            }
        }
        assert(t[g] =~= h[g]);
    }
    assert(t =~= h);
}

} // verus!
