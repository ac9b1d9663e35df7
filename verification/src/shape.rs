//! The shape of a tree held in an arena: who is whose parent, how deep a
//! node lies, which nodes a subtree holds.
//!
//! Everything here speaks of the sequence of links alone, so that a pass
//! which moves nodes about without relinking them keeps every fact stated
//! here.

use vstd::prelude::*;

verus! {

/// The links of one node: its parent and its children, left to right.
pub struct Link {
    pub parent: Option<usize>,
    pub children: Seq<usize>,
}

/// From `i`, a node without a parent is reached in at most `fuel` steps
/// upwards, without leaving the arena.
pub open spec fn climbs(ls: Seq<Link>, i: int, fuel: nat) -> bool
    decreases fuel,
{
    0 <= i < ls.len() && match ls[i].parent {
        None => true,
        Some(p) => fuel > 0 && climbs(ls, p as int, (fuel - 1) as nat),
    }
}

/// The number of steps upwards from `i` to a node without a parent, counted
/// as far as `fuel` reaches.
pub open spec fn depth_in(ls: Seq<Link>, i: int, fuel: nat) -> nat
    decreases fuel,
{
    if fuel == 0 || !(0 <= i < ls.len()) {
        0
    } else {
        match ls[i].parent {
            None => 0,
            Some(p) => 1 + depth_in(ls, p as int, (fuel - 1) as nat),
        }
    }
}

/// The depth of node `i`: the number of its ancestors.
pub open spec fn depth_of(ls: Seq<Link>, i: int) -> nat {
    depth_in(ls, i, ls.len())
}

/// The ancestor of `i` that lies `k` steps above it (`i` itself for 0), or -1
/// where there is none.
pub open spec fn ancestor(ls: Seq<Link>, i: int, k: nat) -> int
    decreases k,
{
    if !(0 <= i < ls.len()) {
        -1
    } else if k == 0 {
        i
    } else {
        match ls[i].parent {
            None => -1,
            Some(p) => ancestor(ls, p as int, (k - 1) as nat),
        }
    }
}

/// Node `n` lies in the subtree rooted at `v`: `v` is `n` or one of its
/// ancestors.
pub open spec fn in_subtree(ls: Seq<Link>, v: int, n: int) -> bool {
    &&& 0 <= v < ls.len()
    &&& 0 <= n < ls.len()
    &&& depth_of(ls, n) >= depth_of(ls, v)
    &&& ancestor(ls, n, (depth_of(ls, n) - depth_of(ls, v)) as nat) == v
}

/// The `j`-th child of node `p`.
pub open spec fn child(ls: Seq<Link>, p: int, j: int) -> int {
    ls[p].children[j] as int
}

/// Node `p` is the parent of node `c`.
pub open spec fn parent_is(ls: Seq<Link>, c: int, p: int) -> bool {
    ls[c].parent.is_some() && ls[c].parent.unwrap() == p
}

/// No chain of parents runs in a circle or leaves the arena.
pub open spec fn acyclic(ls: Seq<Link>) -> bool {
    forall|i: int| 0 <= i < ls.len() ==> #[trigger] climbs(ls, i, ls.len())
}

/// Parents and children agree: each child of a node names that node as its
/// parent, each node with a parent is among that parent's children, and no
/// node is listed twice among them.
pub open spec fn linked(ls: Seq<Link>) -> bool {
    &&& forall|p: int, j: int|
        0 <= p < ls.len() && 0 <= j < ls[p].children.len() ==> 0 <= #[trigger] child(ls, p, j)
            < ls.len() && parent_is(ls, child(ls, p, j), p)
    &&& forall|i: int|
        0 <= i < ls.len() && (#[trigger] ls[i]).parent.is_some() ==> {
            let p = ls[i].parent.unwrap() as int;
            0 <= p < ls.len() && exists|j: int|
                0 <= j < ls[p].children.len() && #[trigger] child(ls, p, j) == i
        }
    &&& forall|p: int, j: int, k: int|
        0 <= p < ls.len() && 0 <= j < k < ls[p].children.len() ==> #[trigger] child(ls, p, j)
            != #[trigger] child(ls, p, k)
}

/// The links form a forest: consistent and free of cycles.
pub open spec fn forest(ls: Seq<Link>) -> bool {
    acyclic(ls) && linked(ls)
}

/// The links `b` are the links `a` and one more node, the last child of
/// node `p`.
pub open spec fn child_added(a: Seq<Link>, b: Seq<Link>, p: int) -> bool {
    &&& 0 <= p < a.len()
    &&& b.len() == a.len() + 1
    &&& forall|i: int| 0 <= i < a.len() && i != p ==> #[trigger] b[i] == a[i]
    &&& b[p].parent == a[p].parent
    &&& b[p].children == a[p].children.push(a.len() as usize)
    &&& b[a.len() as int].parent.is_some()
    &&& b[a.len() as int].parent.unwrap() == p
    &&& b[a.len() as int].children.len() == 0
}

proof fn lemma_climbs_kept(a: Seq<Link>, b: Seq<Link>, i: int, f: nat)
    requires
        b.len() >= a.len(),
        forall|j: int| 0 <= j < a.len() ==> (#[trigger] b[j]).parent == a[j].parent,
        climbs(a, i, f),
    ensures
        climbs(b, i, f),
    decreases f,
{
    match a[i].parent {
        None => {},
        Some(q) => {
            lemma_climbs_kept(a, b, q as int, (f - 1) as nat);
        },
    }
}

/// A forest with one more node, the last child of one of its nodes, is a
/// forest.
pub proof fn lemma_child_added(a: Seq<Link>, b: Seq<Link>, p: int)
    requires
        forest(a),
        child_added(a, b, p),
        a.len() < usize::MAX,
    ensures
        forest(b),
{
    let c = a.len() as int;
    assert forall|j: int| 0 <= j < a.len() implies (#[trigger] b[j]).parent == a[j].parent by {}
    assert forall|i: int| 0 <= i < b.len() implies #[trigger] climbs(b, i, b.len()) by {
        if i < c {
            assert(climbs(a, i, a.len()));
            lemma_climbs_kept(a, b, i, a.len());
            lemma_fuel(b, i, a.len(), b.len());
        } else {
            assert(climbs(a, p, a.len()));
            lemma_climbs_kept(a, b, p, a.len());
        }
    }
    assert forall|q: int, j: int| 0 <= q < b.len() && 0 <= j < b[q].children.len() implies 0
        <= #[trigger] child(b, q, j) < b.len() && parent_is(b, child(b, q, j), q) by {
        if q == p {
            if j < a[p].children.len() {
                assert(child(b, p, j) == child(a, p, j));
                assert(parent_is(a, child(a, p, j), p));
            }
        } else if q < c {
            assert(child(b, q, j) == child(a, q, j));
            assert(parent_is(a, child(a, q, j), q));
        }
    }
    assert forall|i: int| 0 <= i < b.len() && (#[trigger] b[i]).parent.is_some() implies {
        let q = b[i].parent.unwrap() as int;
        0 <= q < b.len() && exists|j: int|
            0 <= j < b[q].children.len() && #[trigger] child(b, q, j) == i
    } by {
        if i < c {
            assert(a[i].parent.is_some());
            let q = a[i].parent.unwrap() as int;
            let j = choose|j: int| 0 <= j < a[q].children.len() && #[trigger] child(a, q, j) == i;
            assert(child(b, q, j) == i);
        } else {
            assert(child(b, p, a[p].children.len() as int) == c);
        }
    }
    assert forall|q: int, j: int, k: int|
        0 <= q < b.len() && 0 <= j < k < b[q].children.len() implies #[trigger] child(b, q, j)
        != #[trigger] child(b, q, k) by {
        if q == p {
            if k < a[p].children.len() {
                assert(child(a, p, j) != child(a, p, k));
            } else {
                assert(child(b, p, j) == child(a, p, j));
                assert(child(a, p, j) < a.len());
            }
        } else if q < c {
            assert(child(a, q, j) != child(a, q, k));
        }
    }
}

/// Node `i` has no child or two.
pub open spec fn binary_at(ls: Seq<Link>, i: int) -> bool {
    ls[i].children.len() == 0 || ls[i].children.len() == 2
}

/// Every node of the subtree rooted at `v` has no child or two.
pub open spec fn binary_in(ls: Seq<Link>, v: int) -> bool {
    forall|n: int| #[trigger] in_subtree(ls, v, n) ==> binary_at(ls, n)
}

/// More fuel than the climb needs changes nothing.
pub proof fn lemma_fuel(ls: Seq<Link>, i: int, f: nat, g: nat)
    requires
        climbs(ls, i, f),
        f <= g,
    ensures
        climbs(ls, i, g),
        depth_in(ls, i, g) == depth_in(ls, i, f),
        depth_in(ls, i, f) <= f,
    decreases f,
{
    match ls[i].parent {
        None => {},
        Some(p) => {
            lemma_fuel(ls, p as int, (f - 1) as nat, (g - 1) as nat);
        },
    }
}

/// The depth of a node is less than the number of nodes.
pub proof fn lemma_depth_bound(ls: Seq<Link>, i: int)
    requires
        acyclic(ls),
        0 <= i < ls.len(),
    ensures
        depth_of(ls, i) <= ls.len(),
{
    lemma_fuel(ls, i, ls.len(), ls.len());
}

/// A node lies one level below its parent.
pub proof fn lemma_depth_step(ls: Seq<Link>, c: int)
    requires
        acyclic(ls),
        0 <= c < ls.len(),
        ls[c].parent.is_some(),
    ensures
        0 <= ls[c].parent.unwrap() < ls.len(),
        depth_of(ls, c) == depth_of(ls, ls[c].parent.unwrap() as int) + 1,
        depth_of(ls, c) <= ls.len(),
{
    let p = ls[c].parent.unwrap() as int;
    assert(climbs(ls, c, ls.len()));
    assert(climbs(ls, p, (ls.len() - 1) as nat));
    lemma_fuel(ls, p, (ls.len() - 1) as nat, ls.len());
    lemma_fuel(ls, c, ls.len(), ls.len());
}

/// Climbing `a` steps and then `b` is climbing `a + b`.
pub proof fn lemma_ancestor_add(ls: Seq<Link>, i: int, a: nat, b: nat)
    ensures
        ancestor(ls, i, a + b) == ancestor(ls, ancestor(ls, i, a), b),
    decreases a,
{
    if !(0 <= i < ls.len()) {
    } else if a == 0 {
    } else {
        match ls[i].parent {
            None => {},
            Some(p) => {
                lemma_ancestor_add(ls, p as int, (a - 1) as nat, b);
            },
        }
    }
}

/// The ancestor `k` steps above a node lies `k` levels above it.
pub proof fn lemma_ancestor_depth(ls: Seq<Link>, i: int, k: nat)
    requires
        acyclic(ls),
        ancestor(ls, i, k) >= 0,
    ensures
        0 <= i < ls.len(),
        0 <= ancestor(ls, i, k) < ls.len(),
        depth_of(ls, i) == depth_of(ls, ancestor(ls, i, k)) + k,
    decreases k,
{
    if k > 0 {
        let p = ls[i].parent.unwrap() as int;
        lemma_depth_step(ls, i);
        lemma_ancestor_depth(ls, p, (k - 1) as nat);
    }
}

/// Within a subtree only its root lies at the root's depth.
pub proof fn lemma_subtree_depth(ls: Seq<Link>, v: int, n: int)
    requires
        in_subtree(ls, v, n),
    ensures
        depth_of(ls, n) >= depth_of(ls, v),
        depth_of(ls, n) == depth_of(ls, v) <==> n == v,
{
}

/// What lies in the subtree of a child lies in the subtree of its parent.
pub proof fn lemma_subtree_up(ls: Seq<Link>, c: int, n: int)
    requires
        acyclic(ls),
        in_subtree(ls, c, n),
        ls[c].parent.is_some(),
    ensures
        in_subtree(ls, ls[c].parent.unwrap() as int, n),
        n != ls[c].parent.unwrap(),
{
    let p = ls[c].parent.unwrap() as int;
    let k = (depth_of(ls, n) - depth_of(ls, c)) as nat;
    lemma_depth_step(ls, c);
    lemma_ancestor_add(ls, n, k, 1);
    assert(ancestor(ls, c, 1) == p) by {
        assert(ancestor(ls, p, 0) == p);
    }
}

/// What lies in a subtree, other than its root, lies in the subtree of one
/// of the root's children.
pub proof fn lemma_subtree_down(ls: Seq<Link>, v: int, n: int) -> (j: int)
    requires
        forest(ls),
        in_subtree(ls, v, n),
        n != v,
    ensures
        0 <= j < ls[v].children.len(),
        in_subtree(ls, child(ls, v, j), n),
{
    let k = (depth_of(ls, n) - depth_of(ls, v)) as nat;
    assert(k > 0) by {
        if k == 0 {
            assert(ancestor(ls, n, 0) == n);
        }
    }
    let m = ancestor(ls, n, (k - 1) as nat);
    lemma_ancestor_add(ls, n, (k - 1) as nat, 1);
    assert(ancestor(ls, m, 1) == v);
    assert(0 <= m < ls.len());
    assert(parent_is(ls, m, v)) by {
        assert(ancestor(ls, v, 0) == v);
        match ls[m].parent {
            None => {},
            Some(p) => {
                assert(ancestor(ls, p as int, 0) == v);
            },
        }
    }
    lemma_ancestor_depth(ls, n, (k - 1) as nat);
    lemma_depth_step(ls, m);
    assert(ls[m].parent.is_some());
    let j = choose|j: int| 0 <= j < ls[v].children.len() && #[trigger] child(ls, v, j) == m;
    j
}

/// The subtrees of two children of one node share no node.
pub proof fn lemma_subtree_apart(ls: Seq<Link>, p: int, j: int, k: int, n: int)
    requires
        forest(ls),
        0 <= p < ls.len(),
        0 <= j < ls[p].children.len(),
        0 <= k < ls[p].children.len(),
        j != k,
        in_subtree(ls, child(ls, p, j), n),
    ensures
        !in_subtree(ls, child(ls, p, k), n),
{
    let a = child(ls, p, j);
    let b = child(ls, p, k);
    lemma_depth_step(ls, a);
    lemma_depth_step(ls, b);
    if j < k {
        assert(child(ls, p, j) != child(ls, p, k));
    } else {
        assert(child(ls, p, k) != child(ls, p, j));
    }
}

/// The subtree of a node without children holds that node alone.
pub proof fn lemma_subtree_leaf(ls: Seq<Link>, v: int, n: int)
    requires
        forest(ls),
        in_subtree(ls, v, n),
        ls[v].children.len() == 0,
    ensures
        n == v,
{
    if n != v {
        let j = lemma_subtree_down(ls, v, n);
    }
}

/// The subtree of a node with two children is that node, the subtree of the
/// left child and the subtree of the right child, which share no node.
pub proof fn lemma_subtree_split(ls: Seq<Link>, v: int, n: int)
    requires
        forest(ls),
        0 <= v < ls.len(),
        ls[v].children.len() == 2,
    ensures
        in_subtree(ls, v, n) <==> (n == v || in_subtree(ls, child(ls, v, 0), n) || in_subtree(
            ls,
            child(ls, v, 1),
            n,
        )),
        !(in_subtree(ls, child(ls, v, 0), n) && in_subtree(ls, child(ls, v, 1), n)),
        !in_subtree(ls, child(ls, v, 0), v),
        !in_subtree(ls, child(ls, v, 1), v),
{
    let l = child(ls, v, 0);
    let r = child(ls, v, 1);
    assert(parent_is(ls, l, v));
    assert(parent_is(ls, r, v));
    lemma_depth_step(ls, l);
    lemma_depth_step(ls, r);
    if in_subtree(ls, v, n) && n != v {
        let j = lemma_subtree_down(ls, v, n);
    }
    if in_subtree(ls, l, n) {
        lemma_subtree_up(ls, l, n);
        lemma_subtree_apart(ls, v, 0, 1, n);
    }
    if in_subtree(ls, r, n) {
        lemma_subtree_up(ls, r, n);
    }
}

/// What lies in the subtree of a node of a subtree lies in that subtree.
pub proof fn lemma_subtree_trans(ls: Seq<Link>, v: int, n: int, m: int)
    requires
        acyclic(ls),
        in_subtree(ls, v, n),
        in_subtree(ls, n, m),
    ensures
        in_subtree(ls, v, m),
{
    let a = (depth_of(ls, m) - depth_of(ls, n)) as nat;
    let b = (depth_of(ls, n) - depth_of(ls, v)) as nat;
    lemma_ancestor_add(ls, m, a, b);
}

/// A node other than the root of a subtree lies in it where its parent
/// does, and a node without a parent lies in no subtree but its own.
pub proof fn lemma_subtree_step(ls: Seq<Link>, v: int, n: int)
    requires
        acyclic(ls),
        0 <= v < ls.len(),
        0 <= n < ls.len(),
        n != v,
    ensures
        ls[n].parent.is_none() ==> !in_subtree(ls, v, n),
        ls[n].parent.is_some() ==> 0 <= ls[n].parent.unwrap() < ls.len() && (in_subtree(ls, v, n)
            <==> in_subtree(ls, v, ls[n].parent.unwrap() as int)),
{
    match ls[n].parent {
        None => {
            if in_subtree(ls, v, n) {
                let k = (depth_of(ls, n) - depth_of(ls, v)) as nat;
                if k == 0 {
                    assert(ancestor(ls, n, 0) == n);
                } else {
                    assert(ancestor(ls, n, k) == -1);
                }
            }
        },
        Some(p) => {
            lemma_depth_step(ls, n);
            if in_subtree(ls, v, p as int) {
                assert(parent_is(ls, n, p as int));
                lemma_subtree_child(ls, v, p as int, n);
            }
            if in_subtree(ls, v, n) {
                let k = (depth_of(ls, n) - depth_of(ls, v)) as nat;
                if k == 0 {
                    assert(ancestor(ls, n, 0) == n);
                } else {
                    assert(ancestor(ls, n, k) == ancestor(ls, p as int, (k - 1) as nat));
                }
            }
        },
    }
}

/// The child of a node of a subtree lies in that subtree.
pub proof fn lemma_subtree_child(ls: Seq<Link>, v: int, n: int, c: int)
    requires
        acyclic(ls),
        in_subtree(ls, v, n),
        0 <= c < ls.len(),
        parent_is(ls, c, n),
    ensures
        in_subtree(ls, v, c),
        c != v,
{
    lemma_depth_step(ls, c);
}

/// The sum of the weights `w` of node `n` and of its `k` nearest ancestors.
pub open spec fn path_sum(ls: Seq<Link>, w: Seq<int>, n: int, k: nat) -> int
    decreases k,
{
    if !(0 <= n < ls.len()) {
        0
    } else if k == 0 {
        w[n]
    } else {
        match ls[n].parent {
            None => w[n],
            Some(p) => w[n] + path_sum(ls, w, p as int, (k - 1) as nat),
        }
    }
}

/// A path that reaches one ancestor further weighs that ancestor more.
pub proof fn lemma_path_sum_top(ls: Seq<Link>, w: Seq<int>, n: int, k: nat)
    requires
        ancestor(ls, n, k + 1) >= 0,
    ensures
        path_sum(ls, w, n, k + 1) == path_sum(ls, w, n, k) + w[ancestor(ls, n, k + 1)],
    decreases k,
{
    if k == 0 {
        let p = ls[n].parent.unwrap() as int;
        assert(ancestor(ls, n, 1) == ancestor(ls, p, 0));
        assert(path_sum(ls, w, n, 1) == w[n] + path_sum(ls, w, p, 0));
    } else {
        let p = ls[n].parent.unwrap() as int;
        lemma_path_sum_top(ls, w, p, (k - 1) as nat);
    }
}

/// Where two weightings agree on a subtree but for its root, which weighs
/// `delta` more in the second, each path from a node of the subtree up to
/// that root weighs `delta` more in the second.
pub proof fn lemma_path_sum_delta(
    ls: Seq<Link>,
    w: Seq<int>,
    w2: Seq<int>,
    v: int,
    n: int,
    delta: int,
)
    requires
        acyclic(ls),
        w.len() == ls.len(),
        w2.len() == ls.len(),
        in_subtree(ls, v, n),
        forall|i: int| #[trigger] in_subtree(ls, v, i) && i != v ==> w2[i] == w[i],
        w2[v] == w[v] + delta,
    ensures
        path_sum(ls, w2, n, (depth_of(ls, n) - depth_of(ls, v)) as nat) == path_sum(
            ls,
            w,
            n,
            (depth_of(ls, n) - depth_of(ls, v)) as nat,
        ) + delta,
    decreases depth_of(ls, n) - depth_of(ls, v),
{
    let k = (depth_of(ls, n) - depth_of(ls, v)) as nat;
    if k > 0 {
        assert(n != v);
        assert(ls[n].parent.is_some()) by {
            if ls[n].parent.is_none() {
                assert(ancestor(ls, n, k) == -1);
            }
        }
        let p = ls[n].parent.unwrap() as int;
        lemma_depth_step(ls, n);
        assert(ancestor(ls, n, k) == ancestor(ls, p, (k - 1) as nat));
        assert(in_subtree(ls, v, p));
        lemma_path_sum_delta(ls, w, w2, v, p, delta);
    } else {
        assert(ancestor(ls, n, 0) == n);
    }
}

/// How many of the first `k` nodes lie in the subtree rooted at `v`.
pub open spec fn count_in(ls: Seq<Link>, v: int, k: nat) -> nat
    decreases k,
{
    if k == 0 {
        0
    } else {
        count_in(ls, v, (k - 1) as nat) + if in_subtree(ls, v, k - 1) {
            1nat
        } else {
            0nat
        }
    }
}

/// The number of nodes of the subtree rooted at `v`.
pub open spec fn size_of(ls: Seq<Link>, v: int) -> nat {
    count_in(ls, v, ls.len())
}

/// Among the first `k` nodes, a node with two children has in its subtree
/// what its children have in theirs, and itself where it is among them.
pub proof fn lemma_count_split(ls: Seq<Link>, v: int, k: nat)
    requires
        forest(ls),
        0 <= v < ls.len(),
        ls[v].children.len() == 2,
        k <= ls.len(),
    ensures
        count_in(ls, v, k) == count_in(ls, child(ls, v, 0), k) + count_in(ls, child(ls, v, 1), k)
            + if v < k {
            1nat
        } else {
            0nat
        },
        count_in(ls, v, k) <= k,
    decreases k,
{
    if k > 0 {
        lemma_count_split(ls, v, (k - 1) as nat);
        lemma_subtree_split(ls, v, k - 1);
    }
}

/// A subtree holds its root, and no more nodes than there are.
pub proof fn lemma_size(ls: Seq<Link>, v: int, k: nat)
    requires
        0 <= v < ls.len(),
        k <= ls.len(),
    ensures
        count_in(ls, v, k) <= k,
        v < k ==> count_in(ls, v, k) >= 1,
    decreases k,
{
    if k > 0 {
        lemma_size(ls, v, (k - 1) as nat);
        if v == k - 1 {
            assert(in_subtree(ls, v, v));
        }
    }
}

/// A path of `k + 1` nodes whose weights lie within 2^30 of zero weighs at
/// most `k + 1` times as much.
pub proof fn lemma_path_sum_bound(ls: Seq<Link>, w: Seq<int>, n: int, k: nat)
    requires
        w.len() == ls.len(),
        forall|i: int| 0 <= i < w.len() ==> -0x4000_0000 <= #[trigger] w[i] <= 0x4000_0000,
    ensures
        -0x4000_0000 * (k + 1) <= path_sum(ls, w, n, k) <= 0x4000_0000 * (k + 1),
    decreases k,
{
    if 0 <= n < ls.len() && k > 0 {
        match ls[n].parent {
            None => {},
            Some(p) => {
                lemma_path_sum_bound(ls, w, p as int, (k - 1) as nat);
            },
        }
    }
}

/// A path weighs what its lower part weighs and its upper part.
pub proof fn lemma_path_sum_add(ls: Seq<Link>, w: Seq<int>, n: int, a: nat, b: nat)
    requires
        ancestor(ls, n, a + 1) >= 0,
    ensures
        path_sum(ls, w, n, a + 1 + b) == path_sum(ls, w, n, a) + path_sum(
            ls,
            w,
            ancestor(ls, n, a + 1),
            b,
        ),
    decreases a,
{
    let p = ls[n].parent.unwrap() as int;
    if a == 0 {
        assert(ancestor(ls, n, 1) == ancestor(ls, p, 0));
        assert(path_sum(ls, w, n, 1 + b) == w[n] + path_sum(ls, w, p, b));
    } else {
        lemma_path_sum_add(ls, w, p, (a - 1) as nat, b);
        assert(path_sum(ls, w, n, a + 1 + b) == w[n] + path_sum(ls, w, p, (a + b) as nat));
    }
}

/// Within a subtree, the path from a node up to the root of the subtree
/// weighs what the path up to a child of that root weighs, and the root.
pub proof fn lemma_path_sum_child(ls: Seq<Link>, w: Seq<int>, v: int, c: int, n: int)
    requires
        acyclic(ls),
        0 <= v < ls.len(),
        in_subtree(ls, c, n),
        parent_is(ls, c, v),
    ensures
        in_subtree(ls, v, n),
        depth_of(ls, n) - depth_of(ls, v) == depth_of(ls, n) - depth_of(ls, c) + 1,
        path_sum(ls, w, n, (depth_of(ls, n) - depth_of(ls, v)) as nat) == path_sum(
            ls,
            w,
            n,
            (depth_of(ls, n) - depth_of(ls, c)) as nat,
        ) + w[v],
{
    lemma_subtree_up(ls, c, n);
    lemma_depth_step(ls, c);
    let k = (depth_of(ls, n) - depth_of(ls, c)) as nat;
    lemma_path_sum_top(ls, w, n, k);
}

/// A subtree whose nodes are binary has children whose subtrees are binary.
pub proof fn lemma_binary_down(ls: Seq<Link>, v: int, j: int)
    requires
        forest(ls),
        0 <= v < ls.len(),
        0 <= j < ls[v].children.len(),
        binary_in(ls, v),
    ensures
        binary_in(ls, child(ls, v, j)),
        binary_at(ls, v),
{
    let c = child(ls, v, j);
    assert(in_subtree(ls, v, v));
    assert(parent_is(ls, c, v));
    assert forall|n: int| #[trigger] in_subtree(ls, c, n) implies binary_at(ls, n) by {
        lemma_subtree_up(ls, c, n);
    }
}

} // verus!
