//! Whether a tree can be handed to the passes: it is well formed, and its
//! coordinates are far from the limits of the machine.

use vstd::prelude::*;
use crate::arena::ArenaTree;
use crate::node::{COORD_LIMIT, NODE_LIMIT};
use crate::shape::{child, climbs, linked, parent_is};

verus! {

impl ArenaTree<String> {
    /// Whether the tree has at most `NODE_LIMIT` nodes, each of them
    /// bounded.
    pub fn is_bounded(&self) -> (r: bool)
        ensures
            r == self.bounded(),
    {
        if self.arena.len() > NODE_LIMIT {
            return false;
        }
        let mut i: usize = 0;
        while i < self.arena.len()
            invariant
                i <= self@.len(),
                forall|j: int| 0 <= j < i ==> (#[trigger] self@[j]).bounded(),
            decreases self@.len() - i,
        {
            let n = &self.arena[i];
            let ok = -COORD_LIMIT <= n.x && n.x <= COORD_LIMIT && -COORD_LIMIT <= n.y && n.y
                <= COORD_LIMIT && -COORD_LIMIT <= n.xmod && n.xmod <= COORD_LIMIT && -COORD_LIMIT
                <= n.ymod && n.ymod <= COORD_LIMIT && 0 <= n.width && n.width <= COORD_LIMIT && 0
                <= n.height && n.height <= COORD_LIMIT && n.nbg <= NODE_LIMIT && n.nodes.len()
                <= NODE_LIMIT;
            if !ok {
                assert(!self@[i as int].bounded());
                return false;
            }
            i += 1;
        }
        true
    }

    fn knows_indices(&self) -> (r: bool)
        ensures
            r == forall|i: int| 0 <= i < self@.len() ==> (#[trigger] self@[i]).idx == i,
    {
        let mut i: usize = 0;
        while i < self.arena.len()
            invariant
                i <= self@.len(),
                forall|j: int| 0 <= j < i ==> (#[trigger] self@[j]).idx == j,
            decreases self@.len() - i,
        {
            if self.arena[i].idx != i {
                return false;
            }
            i += 1;
        }
        true
    }

    fn children_point_back(&self) -> (r: bool)
        ensures
            r == forall|p: int, j: int|
                0 <= p < self.links().len() && 0 <= j < self.links()[p].children.len() ==> 0
                    <= #[trigger] child(self.links(), p, j) < self.links().len() && parent_is(
                    self.links(),
                    child(self.links(), p, j),
                    p,
                ),
    {
        let ghost ls = self.links();
        let mut p: usize = 0;
        while p < self.arena.len()
            invariant
                p <= self@.len(),
                ls == self.links(),
                forall|q: int, j: int|
                    0 <= q < p && 0 <= j < ls[q].children.len() ==> 0 <= #[trigger] child(ls, q, j)
                        < ls.len() && parent_is(ls, child(ls, q, j), q),
            decreases self@.len() - p,
        {
            let mut j: usize = 0;
            while j < self.arena[p].children.len()
                invariant
                    p < self@.len(),
                    ls == self.links(),
                    j <= ls[p as int].children.len(),
                    forall|q: int, j: int|
                        0 <= q < p && 0 <= j < ls[q].children.len() ==> 0 <= #[trigger] child(
                            ls,
                            q,
                            j,
                        ) < ls.len() && parent_is(ls, child(ls, q, j), q),
                    forall|k: int|
                        0 <= k < j ==> 0 <= #[trigger] child(ls, p as int, k) < ls.len()
                            && parent_is(ls, child(ls, p as int, k), p as int),
                decreases ls[p as int].children.len() - j,
            {
                let c = self.arena[p].children[j];
                assert(c == child(ls, p as int, j as int));
                if c >= self.arena.len() {
                    return false;
                }
                match self.arena[c].parent {
                    Some(q) => {
                        if q != p {
                            assert(!parent_is(ls, child(ls, p as int, j as int), p as int));
                            return false;
                        }
                    },
                    None => {
                        assert(!parent_is(ls, child(ls, p as int, j as int), p as int));
                        return false;
                    },
                }
                j += 1;
            }
            p += 1;
        }
        true
    }

    fn parents_list_children(&self) -> (r: bool)
        ensures
            r == forall|i: int|
                0 <= i < self.links().len() && (#[trigger] self.links()[i]).parent.is_some() ==> {
                    let p = self.links()[i].parent.unwrap() as int;
                    0 <= p < self.links().len() && exists|j: int|
                        0 <= j < self.links()[p].children.len() && #[trigger] child(
                            self.links(),
                            p,
                            j,
                        ) == i
                },
    {
        let ghost ls = self.links();
        let mut i: usize = 0;
        while i < self.arena.len()
            invariant
                i <= self@.len(),
                ls == self.links(),
                forall|k: int|
                    0 <= k < i && (#[trigger] ls[k]).parent.is_some() ==> {
                        let p = ls[k].parent.unwrap() as int;
                        0 <= p < ls.len() && exists|j: int|
                            0 <= j < ls[p].children.len() && #[trigger] child(ls, p, j) == k
                    },
            decreases self@.len() - i,
        {
            match self.arena[i].parent {
                Some(p) => {
                    assert(ls[i as int].parent == Some(p));
                    if p >= self.arena.len() {
                        return false;
                    }
                    let mut j: usize = 0;
                    let mut found = false;
                    while j < self.arena[p].children.len() && !found
                        invariant
                            p < self@.len(),
                            ls == self.links(),
                            j <= ls[p as int].children.len(),
                            found ==> exists|k: int|
                                0 <= k < ls[p as int].children.len() && #[trigger] child(
                                    ls,
                                    p as int,
                                    k,
                                ) == i,
                            !found ==> forall|k: int|
                                0 <= k < j ==> #[trigger] child(ls, p as int, k) != i,
                        decreases ls[p as int].children.len() - j + if found { 0int } else { 1int },
                    {
                        if self.arena[p].children[j] == i {
                            assert(child(ls, p as int, j as int) == i);
                            found = true;
                        } else {
                            j += 1;
                        }
                    }
                    if !found {
                        return false;
                    }
                },
                None => {
                    assert(ls[i as int].parent.is_none());
                },
            }
            i += 1;
        }
        true
    }

    fn children_differ(&self) -> (r: bool)
        ensures
            r == forall|p: int, j: int, k: int|
                0 <= p < self.links().len() && 0 <= j < k < self.links()[p].children.len()
                    ==> #[trigger] child(self.links(), p, j) != #[trigger] child(
                    self.links(),
                    p,
                    k,
                ),
    {
        let ghost ls = self.links();
        let mut p: usize = 0;
        while p < self.arena.len()
            invariant
                p <= self@.len(),
                ls == self.links(),
                forall|q: int, j: int, k: int|
                    0 <= q < p && 0 <= j < k < ls[q].children.len() ==> #[trigger] child(ls, q, j)
                        != #[trigger] child(ls, q, k),
            decreases self@.len() - p,
        {
            let count = self.arena[p].children.len();
            let mut k: usize = 0;
            while k < count
                invariant
                    p < self@.len(),
                    ls == self.links(),
                    count == ls[p as int].children.len(),
                    k <= count,
                    forall|q: int, j: int, k: int|
                        0 <= q < p && 0 <= j < k < ls[q].children.len() ==> #[trigger] child(
                            ls,
                            q,
                            j,
                        ) != #[trigger] child(ls, q, k),
                    forall|j: int, m: int|
                        0 <= j < m < k ==> #[trigger] child(ls, p as int, j) != #[trigger] child(
                            ls,
                            p as int,
                            m,
                        ),
                decreases count - k,
            {
                let mut j: usize = 0;
                while j < k
                    invariant
                        p < self@.len(),
                        ls == self.links(),
                        count == ls[p as int].children.len(),
                        k < count,
                        j <= k,
                        forall|m: int|
                            0 <= m < j ==> #[trigger] child(ls, p as int, m) != child(
                                ls,
                                p as int,
                                k as int,
                            ),
                    decreases k - j,
                {
                    if self.arena[p].children[j] == self.arena[p].children[k] {
                        assert(child(ls, p as int, j as int) == child(ls, p as int, k as int));
                        return false;
                    }
                    j += 1;
                }
                k += 1;
            }
            p += 1;
        }
        true
    }

    fn climbs_from(&self, i: usize) -> (r: bool)
        requires
            i < self@.len(),
            forall|k: int|
                0 <= k < self.links().len() && (#[trigger] self.links()[k]).parent.is_some()
                    ==> self.links()[k].parent.unwrap() < self.links().len(),
        ensures
            r == climbs(self.links(), i as int, self.links().len()),
    {
        let ghost ls = self.links();
        let mut cur = i;
        let mut fuel = self.arena.len();
        loop
            invariant
                ls == self.links(),
                cur < ls.len(),
                fuel <= ls.len(),
                forall|k: int|
                    0 <= k < ls.len() && (#[trigger] ls[k]).parent.is_some() ==> ls[k].parent.unwrap()
                        < ls.len(),
                climbs(ls, i as int, ls.len()) == climbs(ls, cur as int, fuel as nat),
            decreases fuel,
        {
            match self.arena[cur].parent {
                None => {
                    assert(ls[cur as int].parent.is_none());
                    return true;
                },
                Some(p) => {
                    assert(ls[cur as int].parent == Some(p));
                    if fuel == 0 {
                        return false;
                    }
                    cur = p;
                    fuel -= 1;
                },
            }
        }
    }

    /// Whether the tree is well formed: each node knows its own index,
    /// parents and children agree, and no chain of parents runs in a circle.
    pub fn is_well_formed(&self) -> (r: bool)
        ensures
            r == self.wf(),
    {
        let ghost ls = self.links();
        if !self.knows_indices() {
            return false;
        }
        if !self.children_point_back() {
            return false;
        }
        if !self.parents_list_children() {
            return false;
        }
        if !self.children_differ() {
            return false;
        }
        assert(linked(ls));
        let mut i: usize = 0;
        while i < self.arena.len()
            invariant
                i <= self@.len(),
                ls == self.links(),
                linked(ls),
                forall|k: int| 0 <= k < i ==> #[trigger] climbs(ls, k, ls.len()),
            decreases self@.len() - i,
        {
            if !self.climbs_from(i) {
                return false;
            }
            i += 1;
        }
        true
    }
}

} // verus!
