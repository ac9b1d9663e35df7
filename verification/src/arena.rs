//! The tree store: nodes kept in one sequence and named by their position.

use vstd::prelude::*;
use crate::event::LayoutError;
use crate::node::{half, half_of, Noeud, NODE_LIMIT};
use crate::shape::{
    binary_at, binary_in, child, child_added, depth_of, forest, in_subtree, lemma_binary_down,
    lemma_child_added, lemma_depth_bound, lemma_depth_step, lemma_subtree_split,
    lemma_subtree_step, lemma_subtree_up, parent_is, Link,
};

verus! {

/// A tree whose nodes live in one growing sequence. The index of a node never
/// changes, and links between nodes are indices.
#[derive(Debug)]
pub struct ArenaTree<T>
where
    T: PartialEq,
 {
    pub arena: Vec<Noeud<T>>,
}

impl<T: PartialEq> View for ArenaTree<T> {
    type V = Seq<Noeud<T>>;

    open spec fn view(&self) -> Seq<Noeud<T>> {
        self.arena@
    }
}

impl<T: PartialEq> Default for ArenaTree<T> {
    fn default() -> (t: Self)
        ensures
            t@ == Seq::<Noeud<T>>::empty(),
            t.wf(),
    {
        let t = ArenaTree { arena: Vec::new() };
        assert(t.links() =~= Seq::<Link>::empty());
        t
    }
}

/// The links of each node of a sequence of nodes.
pub open spec fn links_of<T: PartialEq>(s: Seq<Noeud<T>>) -> Seq<Link> {
    Seq::new(s.len(), |i: int| Link { parent: s[i].parent, children: s[i].children@ })
}

/// Two sequences hold the same nodes up to their place in the layout: they
/// agree on identity, links, names, events and mappings.
pub open spec fn same_shape<T: PartialEq>(a: Seq<Noeud<T>>, b: Seq<Noeud<T>>) -> bool {
    a.len() == b.len() && forall|i: int| 0 <= i < a.len() ==> (#[trigger] a[i]).same_fixed(b[i])
}

/// Nodes that differ only by their place in the layout are linked alike.
pub proof fn lemma_same_links<T: PartialEq>(a: Seq<Noeud<T>>, b: Seq<Noeud<T>>)
    requires
        same_shape(a, b),
    ensures
        links_of(a) == links_of(b),
{
    assert(links_of(a) =~= links_of(b));
}

impl<T: PartialEq> ArenaTree<T> {
    /// The links of each node.
    pub open spec fn links(&self) -> Seq<Link> {
        links_of(self@)
    }

    /// The tree is well formed: each node knows its own index, parents and
    /// children agree, and no chain of parents runs in a circle.
    pub open spec fn wf(&self) -> bool {
        &&& forest(self.links())
        &&& forall|i: int| 0 <= i < self@.len() ==> (#[trigger] self@[i]).idx == i
    }

    /// The tree has at most `NODE_LIMIT` nodes, each of them bounded.
    pub open spec fn bounded(&self) -> bool {
        &&& self@.len() <= NODE_LIMIT
        &&& forall|i: int| 0 <= i < self@.len() ==> (#[trigger] self@[i]).bounded()
    }

    /// Every node of the subtree rooted at `v` is bounded.
    pub open spec fn bounded_from(&self, v: int) -> bool {
        forall|n: int| #[trigger] self.has(v, n) ==> self@[n].bounded()
    }

    /// The horizontal modifier of each node.
    pub open spec fn xmods(&self) -> Seq<int> {
        Seq::new(self@.len(), |i: int| self@[i].xmod as int)
    }

    /// The vertical modifier of each node.
    pub open spec fn ymods(&self) -> Seq<int> {
        Seq::new(self@.len(), |i: int| self@[i].ymod as int)
    }

    /// Node `n` lies in the subtree rooted at `v`.
    pub open spec fn has(&self, v: int, n: int) -> bool {
        in_subtree(self.links(), v, n)
    }

    /// The depth of node `i`: the number of its ancestors.
    pub open spec fn spec_depth(&self, i: int) -> int {
        depth_of(self.links(), i) as int
    }

    /// The left child of node `v`.
    pub open spec fn left_of(&self, v: int) -> int {
        child(self.links(), v, 0)
    }

    /// The right child of node `v`.
    pub open spec fn right_of(&self, v: int) -> int {
        child(self.links(), v, 1)
    }

    /// Node `v` has no children.
    pub open spec fn leaf_at(&self, v: int) -> bool {
        self@[v].children@.len() == 0
    }

    /// Every node of the subtree rooted at `v` has no child or two.
    pub open spec fn binary_from(&self, v: int) -> bool {
        binary_in(self.links(), v)
    }

    /// Some node is named `name`.
    pub open spec fn names(&self, name: Seq<char>) -> bool {
        exists|j: int| 0 <= j < self@.len() && (#[trigger] self@[j]).name@ == name
    }

    /// Node `i` is the last node named `name`.
    pub open spec fn last_named(&self, i: int, name: Seq<char>) -> bool {
        &&& 0 <= i < self@.len()
        &&& self@[i].name@ == name
        &&& forall|j: int| i < j < self@.len() ==> (#[trigger] self@[j]).name@ != name
    }

    /// Node `i` is the left child of its parent.
    pub open spec fn left_child(&self, i: int) -> bool {
        self@[i].parent.is_some() && self@[self@[i].parent.unwrap() as int].children@[0] == i
    }

    /// Where node `v` of a well-formed tree has two children: they are nodes
    /// of the tree, distinct, one level below `v`, with `v` as their parent.
    pub proof fn lemma_two_children(&self, v: int)
        requires
            self.wf(),
            0 <= v < self@.len(),
            self@[v].children@.len() == 2,
        ensures
            0 <= self.left_of(v) < self@.len(),
            0 <= self.right_of(v) < self@.len(),
            self.left_of(v) == self@[v].children@[0],
            self.right_of(v) == self@[v].children@[1],
            self.left_of(v) != self.right_of(v),
            self.left_of(v) != v,
            self.right_of(v) != v,
            self.spec_depth(self.left_of(v)) == self.spec_depth(v) + 1,
            self.spec_depth(self.right_of(v)) == self.spec_depth(v) + 1,
            self.spec_depth(v) < self@.len(),
            self@[self.left_of(v)].parent == Some(v as usize),
            self@[self.right_of(v)].parent == Some(v as usize),
            self.left_child(self.left_of(v)),
            !self.left_child(self.right_of(v)),
            self.has(v, v),
            self.has(v, self.left_of(v)),
            self.has(v, self.right_of(v)),
            self.has(self.left_of(v), self.left_of(v)),
            self.has(self.right_of(v), self.right_of(v)),
            self.binary_from(v) ==> self.binary_from(self.left_of(v)) && self.binary_from(
                self.right_of(v),
            ),
            self.bounded_from(v) ==> self.bounded_from(self.left_of(v)) && self.bounded_from(
                self.right_of(v),
            ),
    {
        let ls = self.links();
        let l = child(ls, v, 0);
        let r = child(ls, v, 1);
        assert(ls[v].children.len() == 2);
        assert(parent_is(ls, l, v));
        assert(parent_is(ls, r, v));
        assert(child(ls, v, 0) != child(ls, v, 1));
        lemma_depth_step(ls, l);
        lemma_depth_step(ls, r);
        lemma_subtree_split(ls, v, l);
        lemma_subtree_split(ls, v, r);
        if self.binary_from(v) {
            lemma_binary_down(ls, v, 0);
            lemma_binary_down(ls, v, 1);
        }
        if self.bounded_from(v) {
            assert forall|n: int| #[trigger] self.has(l, n) implies self@[n].bounded() by {
                lemma_subtree_up(ls, l, n);
                assert(self.has(v, n));
            }
            assert forall|n: int| #[trigger] self.has(r, n) implies self@[n].bounded() by {
                lemma_subtree_up(ls, r, n);
                assert(self.has(v, n));
            }
        }
    }

    /// Where the whole tree is bounded, so is each of its subtrees.
    pub proof fn lemma_bounded_from(&self, v: int)
        requires
            self.bounded(),
        ensures
            self.bounded_from(v),
    {
    }

    /// The root of a subtree whose nodes are binary has no child or two.
    pub proof fn lemma_binary_here(&self, v: int)
        requires
            0 <= v < self@.len(),
            self.binary_from(v),
        ensures
            self@[v].children@.len() == 0 || self@[v].children@.len() == 2,
    {
        assert(in_subtree(self.links(), v, v));
        assert(binary_at(self.links(), v));
    }

    /// Each node of a subtree whose nodes are binary has no child or two.
    pub proof fn lemma_binary_here_in(&self, v: int, n: int)
        requires
            self.has(v, n),
            self.binary_from(v),
        ensures
            self@[n].children@.len() == 0 || self@[n].children@.len() == 2,
    {
        assert(binary_at(self.links(), n));
    }

    /// Node `n` is, among the nodes of the subtree rooted at `v` that have
    /// one child or more than two, the one with the least index.
    pub open spec fn first_odd(&self, v: int, n: int) -> bool {
        &&& self.has(v, n)
        &&& !binary_at(self.links(), n)
        &&& forall|m: int| 0 <= m < n && #[trigger] self.has(v, m) ==> binary_at(self.links(), m)
    }

    /// Whether node `n` lies in the subtree rooted at `v`.
    pub fn is_under(&self, v: usize, n: usize) -> (r: bool)
        requires
            self.wf(),
            v < self@.len(),
            n < self@.len(),
        ensures
            r == self.has(v as int, n as int),
    {
        let ghost ls = self.links();
        let mut cur = n;
        loop
            invariant
                self.wf(),
                ls == self.links(),
                v < ls.len(),
                cur < ls.len(),
                self.has(v as int, n as int) == self.has(v as int, cur as int),
            decreases depth_of(ls, cur as int),
        {
            if cur == v {
                assert(in_subtree(ls, v as int, v as int));
                return true;
            }
            proof {
                lemma_subtree_step(ls, v as int, cur as int);
            }
            match self.arena[cur].parent {
                Some(p) => {
                    proof {
                        assert(ls[cur as int].parent == Some(p));
                        lemma_depth_step(ls, cur as int);
                    }
                    cur = p;
                },
                None => {
                    assert(ls[cur as int].parent.is_none());
                    return false;
                },
            }
        }
    }

    /// The node of the subtree rooted at `index` with the least index that
    /// has one child or more than two, if there is one.
    pub fn find_odd(&self, index: usize) -> (r: Option<usize>)
        requires
            self.wf(),
            index < self@.len(),
        ensures
            match r {
                Some(n) => self.first_odd(index as int, n as int),
                None => self.binary_from(index as int),
            },
            r.is_some() ==> !self.binary_from(index as int),
    {
        let ghost ls = self.links();
        let mut i: usize = 0;
        while i < self.arena.len()
            invariant
                self.wf(),
                ls == self.links(),
                index < ls.len(),
                i <= ls.len(),
                forall|m: int| 0 <= m < i && #[trigger] self.has(index as int, m) ==> binary_at(ls, m),
            decreases ls.len() - i,
        {
            let count = self.arena[i].children.len();
            assert(ls[i as int].children.len() == count);
            if count != 0 && count != 2 {
                if self.is_under(index, i) {
                    assert(!binary_at(ls, i as int));
                    return Some(i);
                }
            } else {
                assert(binary_at(ls, i as int));
            }
            i += 1;
        }
        proof {
            assert forall|n: int| #[trigger] in_subtree(ls, index as int, n) implies binary_at(
                ls,
                n,
            ) by {
                assert(self.has(index as int, n));
            }
        }
        None
    }

    /// Whether every node of the subtree rooted at `index` has no child or
    /// two.
    pub fn is_binary(&self, index: usize) -> (r: bool)
        requires
            self.wf(),
            index < self@.len(),
        ensures
            r == self.binary_from(index as int),
    {
        self.find_odd(index).is_none()
    }

    /// The index of the first node named `name`, if there is one.
    pub fn find_index(&self, name: &String) -> (r: Option<usize>)
        ensures
            match r {
                Some(i) => i < self@.len() && self@[i as int].name@ == name@ && forall|j: int|
                    0 <= j < i ==> (#[trigger] self@[j]).name@ != name@,
                None => forall|j: int| 0 <= j < self@.len() ==> (#[trigger] self@[j]).name@ != name@,
            },
    {
        let mut i: usize = 0;
        while i < self.arena.len()
            invariant
                i <= self@.len(),
                forall|j: int| 0 <= j < i ==> (#[trigger] self@[j]).name@ != name@,
            decreases self@.len() - i,
        {
            if self.arena[i].name == *name {
                return Some(i);
            }
            i += 1;
        }
        None
    }

    /// The index of the last node named `name`, if there is one.
    pub fn find_last_index(&self, name: &String) -> (r: Option<usize>)
        ensures
            match r {
                Some(i) => self.last_named(i as int, name@),
                None => !self.names(name@),
            },
    {
        let mut i: usize = self.arena.len();
        while i > 0
            invariant
                i <= self@.len(),
                forall|j: int| i <= j < self@.len() ==> (#[trigger] self@[j]).name@ != name@,
            decreases i,
        {
            i -= 1;
            if self.arena[i].name == *name {
                return Some(i);
            }
        }
        None
    }

    /// The index of the first node named `name`; some node must bear the
    /// name.
    pub fn get_index(&mut self, name: String) -> (i: usize)
        requires
            exists|j: int| 0 <= j < old(self)@.len() && (#[trigger] old(self)@[j]).name@ == name@,
        ensures
            *final(self) == *old(self),
            i < old(self)@.len(),
            old(self)@[i as int].name@ == name@,
            forall|j: int| 0 <= j < i ==> (#[trigger] old(self)@[j]).name@ != name@,
    {
        match self.find_index(&name) {
            Some(i) => i,
            None => 0,
        }
    }

    /// The index of the one node without a parent.
    pub fn get_root(&mut self) -> (r: Result<usize, LayoutError>)
        ensures
            *final(self) == *old(self),
            match r {
                Ok(i) => i < old(self)@.len() && old(self)@[i as int].parent.is_none() && forall|j: int|
                    0 <= j < old(self)@.len() && j != i ==> (#[trigger] old(self)@[j]).parent.is_some(),
                Err(LayoutError::NoRoot) => forall|j: int|
                    0 <= j < old(self)@.len() ==> (#[trigger] old(self)@[j]).parent.is_some(),
                Err(LayoutError::MultipleRoots) => exists|j: int, k: int|
                    0 <= j < k < old(self)@.len() && (#[trigger] old(self)@[j]).parent.is_none() && (
                    #[trigger] old(self)@[k]).parent.is_none(),
                Err(_) => false,
            },
    {
        let mut root: Option<usize> = None;
        let mut i: usize = 0;
        while i < self.arena.len()
            invariant
                i <= self@.len(),
                match root {
                    Some(r) => r < i && self@[r as int].parent.is_none() && forall|j: int|
                        0 <= j < i && j != r ==> (#[trigger] self@[j]).parent.is_some(),
                    None => forall|j: int| 0 <= j < i ==> (#[trigger] self@[j]).parent.is_some(),
                },
            decreases self@.len() - i,
        {
            if self.arena[i].parent.is_none() {
                match root {
                    Some(r) => {
                        return Err(LayoutError::MultipleRoots);
                    },
                    None => {
                        root = Some(i);
                    },
                }
            }
            i += 1;
        }
        match root {
            Some(r) => Ok(r),
            None => Err(LayoutError::NoRoot),
        }
    }

    /// Whether the node has no children.
    pub fn is_leaf(&self, idx: usize) -> (r: bool)
        requires
            idx < self@.len(),
        ensures
            r == self.leaf_at(idx as int),
    {
        self.arena[idx].children.len() == 0
    }

    /// Whether the node is the first child of its parent.
    pub fn is_left(&self, idx: usize) -> (r: bool)
        requires
            self.wf(),
            idx < self@.len(),
        ensures
            r == self.left_child(idx as int),
    {
        match self.arena[idx].parent {
            Some(p) => {
                proof {
                    assert(self.links()[idx as int].parent == Some(p));
                }
                idx == self.arena[p].children[0]
            },
            None => false,
        }
    }

    /// Whether the node has no parent.
    pub fn is_root(&self, idx: usize) -> (r: bool)
        requires
            idx < self@.len(),
        ensures
            r == self@[idx as int].parent.is_none(),
    {
        self.arena[idx].parent.is_none()
    }

    /// The depth of the node: the number of its ancestors.
    pub fn depth(&self, idx: usize) -> (d: usize)
        requires
            self.wf(),
            idx < self@.len(),
        ensures
            d == self.spec_depth(idx as int),
            d <= self@.len(),
        decreases self.spec_depth(idx as int),
    {
        let len = self.arena.len();
        proof {
            lemma_depth_bound(self.links(), idx as int);
        }
        match self.arena[idx].parent {
            Some(id) => {
                proof {
                    assert(self.links()[idx as int].parent == Some(id));
                    lemma_depth_step(self.links(), idx as int);
                }
                let above = self.depth(id);
                assert(above + 1 <= len);
                1 + above
            },
            None => 0,
        }
    }

    /// The right edge of the tree: the largest `x + width / 2` over its
    /// nodes, and 0 at least.
    pub fn get_largest_x(&mut self) -> (m: i64)
        requires
            old(self).bounded(),
        ensures
            *final(self) == *old(self),
            m >= 0,
            forall|i: int|
                0 <= i < old(self)@.len() ==> m >= (#[trigger] old(self)@[i]).x + half(old(self)@[i].width as int),
            m == 0 || exists|i: int|
                0 <= i < old(self)@.len() && m == (#[trigger] old(self)@[i]).x + half(old(self)@[i].width as int),
    {
        let mut max: i64 = 0;
        let mut i: usize = 0;
        while i < self.arena.len()
            invariant
                *self == *old(self),
                self.bounded(),
                i <= self@.len(),
                max >= 0,
                forall|j: int|
                    0 <= j < i ==> max >= (#[trigger] self@[j]).x + half(self@[j].width as int),
                max == 0 || exists|j: int|
                    0 <= j < i && max == (#[trigger] self@[j]).x + half(self@[j].width as int),
            decreases self@.len() - i,
        {
            assert(self@[i as int].bounded());
            let edge: i64 = self.arena[i].x + half_of(self.arena[i].width);
            if edge > max {
                max = edge;
            }
            i += 1;
        }
        max
    }

    /// The lower edge of the tree: the largest `y + height / 2` over its
    /// nodes, and 0 at least.
    pub fn get_largest_y(&mut self) -> (m: i64)
        requires
            old(self).bounded(),
        ensures
            *final(self) == *old(self),
            m >= 0,
            forall|i: int|
                0 <= i < old(self)@.len() ==> m >= (#[trigger] old(self)@[i]).y + half(old(self)@[i].height as int),
            m == 0 || exists|i: int|
                0 <= i < old(self)@.len() && m == (#[trigger] old(self)@[i]).y + half(
                    old(self)@[i].height as int,
                ),
    {
        let mut max: i64 = 0;
        let mut i: usize = 0;
        while i < self.arena.len()
            invariant
                *self == *old(self),
                self.bounded(),
                i <= self@.len(),
                max >= 0,
                forall|j: int|
                    0 <= j < i ==> max >= (#[trigger] self@[j]).y + half(self@[j].height as int),
                max == 0 || exists|j: int|
                    0 <= j < i && max == (#[trigger] self@[j]).y + half(self@[j].height as int),
            decreases self@.len() - i,
        {
            assert(self@[i as int].bounded());
            let edge: i64 = self.arena[i].y + half_of(self.arena[i].height);
            if edge > max {
                max = edge;
            }
            i += 1;
        }
        max
    }

    /// The left edge of the tree: the smallest `x - width / 2` over its
    /// nodes, and 1000000 at most.
    pub fn get_smallest_x(&mut self) -> (m: i64)
        requires
            old(self).bounded(),
        ensures
            *final(self) == *old(self),
            m <= 1000000,
            forall|i: int|
                0 <= i < old(self)@.len() ==> m <= (#[trigger] old(self)@[i]).x - half(old(self)@[i].width as int),
            m == 1000000 || exists|i: int|
                0 <= i < old(self)@.len() && m == (#[trigger] old(self)@[i]).x - half(old(self)@[i].width as int),
    {
        let mut min: i64 = 1000000;
        let mut i: usize = 0;
        while i < self.arena.len()
            invariant
                *self == *old(self),
                self.bounded(),
                i <= self@.len(),
                min <= 1000000,
                forall|j: int|
                    0 <= j < i ==> min <= (#[trigger] self@[j]).x - half(self@[j].width as int),
                min == 1000000 || exists|j: int|
                    0 <= j < i && min == (#[trigger] self@[j]).x - half(self@[j].width as int),
            decreases self@.len() - i,
        {
            assert(self@[i as int].bounded());
            let edge: i64 = self.arena[i].x - half_of(self.arena[i].width);
            if edge < min {
                min = edge;
            }
            i += 1;
        }
        min
    }

    /// The upper edge of the tree: the smallest `y - height / 2` over its
    /// nodes, and 1000000 at most.
    pub fn get_smallest_y(&mut self) -> (m: i64)
        requires
            old(self).bounded(),
        ensures
            *final(self) == *old(self),
            m <= 1000000,
            forall|i: int|
                0 <= i < old(self)@.len() ==> m <= (#[trigger] old(self)@[i]).y - half(old(self)@[i].height as int),
            m == 1000000 || exists|i: int|
                0 <= i < old(self)@.len() && m == (#[trigger] old(self)@[i]).y - half(
                    old(self)@[i].height as int,
                ),
    {
        let mut min: i64 = 1000000;
        let mut i: usize = 0;
        while i < self.arena.len()
            invariant
                *self == *old(self),
                self.bounded(),
                i <= self@.len(),
                min <= 1000000,
                forall|j: int|
                    0 <= j < i ==> min <= (#[trigger] self@[j]).y - half(self@[j].height as int),
                min == 1000000 || exists|j: int|
                    0 <= j < i && min == (#[trigger] self@[j]).y - half(self@[j].height as int),
            decreases self@.len() - i,
        {
            assert(self@[i as int].bounded());
            let edge: i64 = self.arena[i].y - half_of(self.arena[i].height);
            if edge < min {
                min = edge;
            }
            i += 1;
        }
        min
    }
}

impl ArenaTree<String> {
    /// The index of the first node that holds `val`; where there is none, a
    /// fresh node holding it is added at the end.
    pub fn node(&mut self, val: String) -> (idx: usize)
        ensures
            idx < final(self)@.len(),
            final(self)@[idx as int].val@ == val@,
            forall|j: int| 0 <= j < idx ==> (#[trigger] old(self)@[j]).val@ != val@,
            idx < old(self)@.len() ==> *final(self) == *old(self),
            idx >= old(self)@.len() ==> idx == old(self)@.len() && final(self)@ == old(self)@.push(
                final(self)@[idx as int],
            ) && final(self)@[idx as int].is_fresh(idx, val),
    {
        let mut i: usize = 0;
        while i < self.arena.len()
            invariant
                *self == *old(self),
                i <= self@.len(),
                forall|j: int| 0 <= j < i ==> (#[trigger] self@[j]).val@ != val@,
            decreases self@.len() - i,
        {
            if self.arena[i].val == val {
                return i;
            }
            i += 1;
        }
        let idx = self.arena.len();
        self.arena.push(Noeud::new(idx, val));
        idx
    }

    /// Adds a fresh node holding `val`, which no node may hold yet, and
    /// returns its index.
    pub fn new_node(&mut self, val: String) -> (idx: usize)
        requires
            forall|j: int| 0 <= j < old(self)@.len() ==> (#[trigger] old(self)@[j]).val@ != val@,
        ensures
            idx == old(self)@.len(),
            final(self)@ == old(self)@.push(final(self)@[idx as int]),
            final(self)@[idx as int].is_fresh(idx, val),
    {
        let idx = self.arena.len();
        self.arena.push(Noeud::new(idx, val));
        idx
    }

    /// Adds a fresh node holding `val`, which no node may hold yet, as the
    /// last child of `parent`, and returns its index.
    pub fn add_child(&mut self, parent: usize, val: String) -> (child: usize)
        requires
            old(self).wf(),
            parent < old(self)@.len(),
            old(self)@.len() < usize::MAX,
            forall|j: int| 0 <= j < old(self)@.len() ==> (#[trigger] old(self)@[j]).val@ != val@,
        ensures
            child == old(self)@.len(),
            final(self)@.len() == old(self)@.len() + 1,
            final(self).wf(),
            forall|i: int|
                0 <= i < old(self)@.len() && i != parent ==> #[trigger] final(self)@[i] == old(
                    self,
                )@[i],
            final(self)@[parent as int].same_but_children(old(self)@[parent as int]),
            final(self)@[parent as int].children@ == old(self)@[parent as int].children@.push(
                child,
            ),
            final(self)@[child as int].is_fresh_child(child, val, parent),
    {
        let ghost before = *self;
        let child = self.new_node(val);
        self.arena[parent].children.push(child);
        self.arena[child].parent = Some(parent);
        proof {
            assert(child_added(before.links(), self.links(), parent as int));
            lemma_child_added(before.links(), self.links(), parent as int);
        }
        child
    }
}

} // verus!
