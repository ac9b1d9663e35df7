//! What the lists of a mapped species tree hold: each gene node once, in the
//! list of the species node that its location names.

use vstd::prelude::*;
use crate::apart::names;
use crate::arena::ArenaTree;
use crate::mapping::{all_mapped, forest_hits, species_mapped, tree_hits};
use crate::node::Noeud;
use crate::ready::total_nodes;

verus! {

/// Each node of each gene tree knows its own index.
pub open spec fn indexed(genes: Seq<ArenaTree<String>>) -> bool {
    forall|g: int, i: int|
        0 <= g < genes.len() && 0 <= i < genes[g]@.len() ==> (#[trigger] genes[g]@[i]).idx == i
}

/// The list `s` holds node `i` of gene tree `g`.
pub open spec fn among(s: Seq<(usize, usize)>, g: int, i: int) -> bool {
    exists|k: int| 0 <= k < s.len() && names(#[trigger] s[k], g, i)
}

/// The gene node `p` comes before the gene node `q`: in an earlier tree, or
/// earlier in the same tree.
pub open spec fn earlier(p: (usize, usize), q: (usize, usize)) -> bool {
    p.0 < q.0 || (p.0 == q.0 && p.1 < q.1)
}

/// The list `s` names gene nodes in rising order, and so none twice.
pub open spec fn rising(s: Seq<(usize, usize)>) -> bool {
    forall|a: int, b: int| 0 <= a < b < s.len() ==> earlier(#[trigger] s[a], #[trigger] s[b])
}

/// Every node of the species tree `a` has no gene node yet.
pub open spec fn unmapped(a: &ArenaTree<String>) -> bool {
    forall|s: int| 0 <= s < a@.len() ==> (#[trigger] a@[s]).nbg == 0 && a@[s].nodes@.len() == 0
}

/// No two nodes of the species tree `a` have the same name.
pub open spec fn names_differ(a: &ArenaTree<String>) -> bool {
    forall|s: int, t: int|
        0 <= s < t < a@.len() ==> (#[trigger] a@[s]).name@ != (#[trigger] a@[t]).name@
}

/// The hits among the first `k` nodes of a gene tree are, in rising order,
/// those of these nodes whose location is `name`.
pub proof fn lemma_tree_hits(name: Seq<char>, t: Seq<Noeud<String>>, g: usize, k: nat)
    requires
        k <= t.len(),
        forall|j: int| 0 <= j < t.len() ==> (#[trigger] t[j]).idx == j,
    ensures
        rising(tree_hits(name, t, g, k)),
        forall|a: int|
            0 <= a < tree_hits(name, t, g, k).len() ==> {
                &&& (#[trigger] tree_hits(name, t, g, k)[a]).0 == g
                &&& tree_hits(name, t, g, k)[a].1 < k
                &&& t[tree_hits(name, t, g, k)[a].1 as int].location@ == name
            },
        forall|i: int|
            0 <= i < k && (#[trigger] t[i]).location@ == name ==> among(
                tree_hits(name, t, g, k),
                g as int,
                i,
            ),
    decreases k,
{
    if k > 0 {
        lemma_tree_hits(name, t, g, (k - 1) as nat);
        let before = tree_hits(name, t, g, (k - 1) as nat);
        let h = tree_hits(name, t, g, k);
        assert(t[k - 1].idx == k - 1);
        assert forall|i: int| 0 <= i < k && (#[trigger] t[i]).location@ == name implies among(
            h,
            g as int,
            i,
        ) by {
            if i < k - 1 {
                assert(among(before, g as int, i));
                let a = choose|a: int| 0 <= a < before.len() && names(#[trigger] before[a], g as int, i);
                assert(names(h[a], g as int, i));
            } else {
                assert(names(h[before.len() as int], g as int, i));
            }
        }
    }
}

/// The hits among the first `m` gene trees are, in rising order, those of
/// their nodes whose location is `name`.
pub proof fn lemma_forest_hits(name: Seq<char>, genes: Seq<ArenaTree<String>>, m: nat)
    requires
        m <= genes.len() <= usize::MAX,
        indexed(genes),
    ensures
        rising(forest_hits(name, genes, m)),
        forall|a: int|
            0 <= a < forest_hits(name, genes, m).len() ==> {
                &&& (#[trigger] forest_hits(name, genes, m)[a]).0 < m
                &&& forest_hits(name, genes, m)[a].1 < genes[forest_hits(name, genes, m)[a].0 as int]@.len()
                &&& genes[forest_hits(name, genes, m)[a].0 as int]@[forest_hits(
                    name,
                    genes,
                    m,
                )[a].1 as int].location@ == name
            },
        forall|g: int, i: int|
            0 <= g < m && 0 <= i < genes[g]@.len() && (#[trigger] genes[g]@[i]).location@ == name
                ==> among(forest_hits(name, genes, m), g, i),
    decreases m,
{
    if m > 0 {
        lemma_forest_hits(name, genes, (m - 1) as nat);
        let t = genes[m - 1]@;
        assert forall|j: int| 0 <= j < t.len() implies (#[trigger] t[j]).idx == j by {
            assert(genes[m - 1]@[j].idx == j);
        }
        lemma_tree_hits(name, t, (m - 1) as usize, t.len());
        let before = forest_hits(name, genes, (m - 1) as nat);
        let here = tree_hits(name, t, (m - 1) as usize, t.len());
        let h = forest_hits(name, genes, m);
        assert(h == before + here);
        assert forall|a: int| 0 <= a < h.len() implies {
            &&& (#[trigger] h[a]).0 < m
            &&& h[a].1 < genes[h[a].0 as int]@.len()
            &&& genes[h[a].0 as int]@[h[a].1 as int].location@ == name
        } by {
            if a < before.len() {
                assert(h[a] == before[a]);
            } else {
                assert(h[a] == here[a - before.len()]);
            }
        }
        assert forall|a: int, b: int| 0 <= a < b < h.len() implies earlier(
            #[trigger] h[a],
            #[trigger] h[b],
        ) by {
            if b < before.len() {
                assert(h[a] == before[a] && h[b] == before[b]);
            } else if a < before.len() {
                assert(h[a] == before[a]);
                assert(h[b] == here[b - before.len()]);
            } else {
                assert(h[a] == here[a - before.len()]);
                assert(h[b] == here[b - before.len()]);
            }
        }
        assert forall|g: int, i: int|
            0 <= g < m && 0 <= i < genes[g]@.len() && (#[trigger] genes[g]@[i]).location@
                == name implies among(h, g, i) by {
            if g < m - 1 {
                assert(among(before, g, i));
                let a = choose|a: int| 0 <= a < before.len() && names(#[trigger] before[a], g, i);
                assert(names(h[a], g, i));
            } else {
                assert(t[i].location@ == name);
                assert(among(here, g, i));
                let a = choose|a: int| 0 <= a < here.len() && names(#[trigger] here[a], g, i);
                assert(names(h[before.len() + a], g, i));
            }
        }
    }
}

/// Mapping lists every gene node once, where its location says: where the
/// species tree `b` is the species tree `a` mapped, `a` having no gene node
/// yet and no name twice, each node of `b` counts the gene nodes that it
/// lists; it lists a gene node if and only if the location of that node is
/// its name; and no gene node is listed twice, be it by one node or by two.
pub proof fn lemma_listed_where_located(
    a: &ArenaTree<String>,
    b: &ArenaTree<String>,
    genes: Seq<ArenaTree<String>>,
)
    requires
        species_mapped(a, b, genes),
        unmapped(a),
        names_differ(a),
        indexed(genes),
        genes.len() <= usize::MAX,
    ensures
        forall|s: int| 0 <= s < b@.len() ==> (#[trigger] b@[s]).nbg == b@[s].nodes@.len(),
        forall|s: int, g: int, i: int|
            0 <= s < b@.len() && 0 <= g < genes.len() && 0 <= i < genes[g]@.len() ==> (
            #[trigger] among(b@[s].nodes@, g, i) <==> genes[g]@[i].location@ == a@[s].name@),
        forall|s: int, j: int, t: int, k: int|
            0 <= s < b@.len() && 0 <= t < b@.len() && 0 <= j < b@[s].nodes@.len() && 0 <= k
                < b@[t].nodes@.len() && (s != t || j != k) ==> #[trigger] b@[s].nodes@[j]
                != #[trigger] b@[t].nodes@[k],
{
    assert forall|s: int| 0 <= s < b@.len() implies b@[s].nodes@ == forest_hits(
        a@[s].name@,
        genes,
        genes.len(),
    ) && (#[trigger] b@[s]).nbg == b@[s].nodes@.len() by {
        assert(b@[s].same_but_genes(a@[s]));
        assert(a@[s].nodes@.len() == 0);
        assert(a@[s].nodes@ + forest_hits(a@[s].name@, genes, genes.len()) =~= forest_hits(
            a@[s].name@,
            genes,
            genes.len(),
        ));
    }
    assert forall|s: int, g: int, i: int|
        0 <= s < b@.len() && 0 <= g < genes.len() && 0 <= i < genes[g]@.len() implies (
    #[trigger] among(b@[s].nodes@, g, i) <==> genes[g]@[i].location@ == a@[s].name@) by {
        lemma_forest_hits(a@[s].name@, genes, genes.len());
        assert(b@[s].same_but_genes(a@[s]));
        let h = b@[s].nodes@;
        if among(h, g, i) {
            let k = choose|k: int| 0 <= k < h.len() && names(#[trigger] h[k], g, i);
            assert(genes[h[k].0 as int]@[h[k].1 as int].location@ == a@[s].name@);
        }
    }
    assert forall|s: int, j: int, t: int, k: int|
        0 <= s < b@.len() && 0 <= t < b@.len() && 0 <= j < b@[s].nodes@.len() && 0 <= k
            < b@[t].nodes@.len() && (s != t || j != k) implies #[trigger] b@[s].nodes@[j]
        != #[trigger] b@[t].nodes@[k] by {
        lemma_forest_hits(a@[s].name@, genes, genes.len());
        lemma_forest_hits(a@[t].name@, genes, genes.len());
        assert(b@[s].same_but_genes(a@[s]));
        assert(b@[t].same_but_genes(a@[t]));
        let p = b@[s].nodes@[j];
        let q = b@[t].nodes@[k];
        if s == t {
            if j < k {
                assert(earlier(p, q));
            } else {
                assert(earlier(q, p));
            }
        } else {
            assert(genes[p.0 as int]@[p.1 as int].location@ == a@[s].name@);
            assert(genes[q.0 as int]@[q.1 as int].location@ == a@[t].name@);
            if s < t {
                assert(a@[s].name@ != a@[t].name@);
            } else {
                assert(a@[t].name@ != a@[s].name@);
            }
        }
    }
}

/// How many of the first `n` nodes of `a` are named `name`.
pub open spec fn named_count(a: Seq<Noeud<String>>, name: Seq<char>, n: nat) -> nat
    decreases n,
{
    if n == 0 {
        0
    } else {
        named_count(a, name, (n - 1) as nat) + if a[n - 1].name@ == name {
            1nat
        } else {
            0nat
        }
    }
}

/// How many hits the first `n` nodes of `a` have, by their names, among the
/// first `k` nodes of the gene tree `t`.
pub open spec fn tree_sum(a: Seq<Noeud<String>>, t: Seq<Noeud<String>>, g: usize, k: nat, n: nat) -> nat
    decreases n,
{
    if n == 0 {
        0
    } else {
        tree_sum(a, t, g, k, (n - 1) as nat) + tree_hits(a[n - 1].name@, t, g, k).len()
    }
}

/// How many hits the first `n` nodes of `a` have, by their names, among the
/// first `m` gene trees.
pub open spec fn forest_sum(a: Seq<Noeud<String>>, genes: Seq<ArenaTree<String>>, m: nat, n: nat) -> nat
    decreases n,
{
    if n == 0 {
        0
    } else {
        forest_sum(a, genes, m, (n - 1) as nat) + forest_hits(a[n - 1].name@, genes, m).len()
    }
}

/// How many gene nodes the first `n` nodes of `b` count, taken together.
pub open spec fn total_listed(b: Seq<Noeud<String>>, n: nat) -> nat
    decreases n,
{
    if n == 0 {
        0
    } else {
        total_listed(b, (n - 1) as nat) + b[n - 1].nbg as nat
    }
}

/// Where no name occurs twice, a name that occurs among the first `n` nodes
/// occurs once, and any other name not at all.
pub proof fn lemma_named_once(a: &ArenaTree<String>, name: Seq<char>, n: nat)
    requires
        names_differ(a),
        n <= a@.len(),
    ensures
        named_count(a@, name, n) == if exists|s: int|
            0 <= s < n && (#[trigger] a@[s]).name@ == name {
            1nat
        } else {
            0nat
        },
    decreases n,
{
    if n > 0 {
        lemma_named_once(a, name, (n - 1) as nat);
        if a@[n - 1].name@ == name {
            if exists|s: int| 0 <= s < n - 1 && (#[trigger] a@[s]).name@ == name {
                let s = choose|s: int| 0 <= s < n - 1 && (#[trigger] a@[s]).name@ == name;
                assert(a@[s].name@ != a@[n - 1].name@);
            }
        } else {
            if exists|s: int| 0 <= s < n && (#[trigger] a@[s]).name@ == name {
                let s = choose|s: int| 0 <= s < n && (#[trigger] a@[s]).name@ == name;
                assert(0 <= s < n - 1 && a@[s].name@ == name);
            }
        }
    }
}

proof fn lemma_tree_sum_step(a: Seq<Noeud<String>>, t: Seq<Noeud<String>>, g: usize, k: nat, n: nat)
    requires
        k > 0,
    ensures
        tree_sum(a, t, g, k, n) == tree_sum(a, t, g, (k - 1) as nat, n) + named_count(
            a,
            t[k - 1].location@,
            n,
        ),
    decreases n,
{
    if n > 0 {
        lemma_tree_sum_step(a, t, g, k, (n - 1) as nat);
    }
}

proof fn lemma_tree_sum_none(a: Seq<Noeud<String>>, t: Seq<Noeud<String>>, g: usize, n: nat)
    ensures
        tree_sum(a, t, g, 0, n) == 0,
    decreases n,
{
    if n > 0 {
        lemma_tree_sum_none(a, t, g, (n - 1) as nat);
    }
}

proof fn lemma_tree_sum(a: &ArenaTree<String>, t: Seq<Noeud<String>>, g: usize, k: nat)
    requires
        names_differ(a),
        k <= t.len(),
        forall|i: int| 0 <= i < t.len() ==> a.names((#[trigger] t[i]).location@),
    ensures
        tree_sum(a@, t, g, k, a@.len()) == k,
    decreases k,
{
    if k == 0 {
        lemma_tree_sum_none(a@, t, g, a@.len());
    } else {
        lemma_tree_sum(a, t, g, (k - 1) as nat);
        lemma_tree_sum_step(a@, t, g, k, a@.len());
        lemma_named_once(a, t[k - 1].location@, a@.len());
        assert(a.names(t[k - 1].location@));
    }
}

proof fn lemma_forest_sum_step(a: Seq<Noeud<String>>, genes: Seq<ArenaTree<String>>, m: nat, n: nat)
    requires
        m > 0,
    ensures
        forest_sum(a, genes, m, n) == forest_sum(a, genes, (m - 1) as nat, n) + tree_sum(
            a,
            genes[m - 1]@,
            (m - 1) as usize,
            genes[m - 1]@.len(),
            n,
        ),
    decreases n,
{
    if n > 0 {
        lemma_forest_sum_step(a, genes, m, (n - 1) as nat);
    }
}

proof fn lemma_forest_sum_none(a: Seq<Noeud<String>>, genes: Seq<ArenaTree<String>>, n: nat)
    ensures
        forest_sum(a, genes, 0, n) == 0,
    decreases n,
{
    if n > 0 {
        lemma_forest_sum_none(a, genes, (n - 1) as nat);
    }
}

proof fn lemma_forest_sum(a: &ArenaTree<String>, genes: Seq<ArenaTree<String>>, m: nat)
    requires
        names_differ(a),
        all_mapped(a, genes),
        m <= genes.len(),
    ensures
        forest_sum(a@, genes, m, a@.len()) == total_nodes(genes, m),
    decreases m,
{
    if m == 0 {
        lemma_forest_sum_none(a@, genes, a@.len());
    } else {
        lemma_forest_sum(a, genes, (m - 1) as nat);
        lemma_forest_sum_step(a@, genes, m, a@.len());
        let t = genes[m - 1]@;
        assert forall|i: int| 0 <= i < t.len() implies a.names((#[trigger] t[i]).location@) by {
            assert(a.names(genes[m - 1]@[i].location@));
        }
        lemma_tree_sum(a, t, (m - 1) as usize, t.len());
    }
}

proof fn lemma_total_listed(
    a: &ArenaTree<String>,
    b: &ArenaTree<String>,
    genes: Seq<ArenaTree<String>>,
    n: nat,
)
    requires
        species_mapped(a, b, genes),
        unmapped(a),
        n <= a@.len(),
    ensures
        total_listed(b@, n) == forest_sum(a@, genes, genes.len(), n),
    decreases n,
{
    if n > 0 {
        lemma_total_listed(a, b, genes, (n - 1) as nat);
        assert(b@[n - 1].same_but_genes(a@[n - 1]));
        assert(a@[n - 1].nbg == 0);
    }
}

/// Mapping counts every gene node once: where the species tree `b` is the
/// species tree `a` mapped, `a` having no gene node yet and no name twice,
/// and the location of every gene node names a node of `a`, the nodes of `b`
/// count, taken together, as many gene nodes as the gene trees hold.
pub proof fn lemma_all_counted(a: &ArenaTree<String>, b: &ArenaTree<String>, genes: Seq<ArenaTree<String>>)
    requires
        species_mapped(a, b, genes),
        unmapped(a),
        names_differ(a),
        all_mapped(a, genes),
    ensures
        total_listed(b@, b@.len()) == total_nodes(genes, genes.len()),
{
    lemma_total_listed(a, b, genes, a@.len());
    lemma_forest_sum(a, genes, genes.len());
}

} // verus!
