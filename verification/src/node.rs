//! A node of a tree, with its place in the layout.

use vstd::prelude::*;
use crate::event::Event;

verus! {

/// The base layout unit: the distance between two levels of a tree, and
/// between two neighbouring leaves.
pub const BLOCK: i64 = 60;

/// The pipe unit, a quarter of the base unit: the thickness that one gene
/// adds to a species pipe.
pub const PIPEBLOCK: i64 = 15;

/// How far below its parent a duplication or a bifurcation out is put: one
/// pipe unit less a quarter of it, just above the bottom of the pipe of the
/// parent.
pub const DUPLICATION_DROP: i64 = 12;

/// How far below its parent a loss or a branching out is put: one pipe unit.
pub const LOSS_DROP: i64 = 15;

/// The largest magnitude of a coordinate, a modifier or a branch length for
/// which every pass is free of overflow.
pub const COORD_LIMIT: i64 = 0x4000_0000;

/// The largest number of nodes, and of gene nodes mapped to one species
/// node, for which every pass is free of overflow.
pub const NODE_LIMIT: usize = 0x100_0000;

/// `k` times `COORD_LIMIT`.
pub open spec fn reach(k: int) -> int {
    0x4000_0000 * k
}

/// Half of `v`, rounded towards zero.
pub open spec fn half(v: int) -> int {
    if v >= 0 {
        v / 2
    } else {
        -((-v) / 2)
    }
}

/// Half of `v`, rounded towards zero.
pub fn half_of(v: i64) -> (h: i64)
    ensures
        h == half(v as int),
{
    v / 2
}

/// Half of `v`, rounded downwards.
pub open spec fn half_down(v: int) -> int {
    v / 2
}

/// Half of `v`, rounded downwards.
pub fn half_down_of(v: i64) -> (h: i64)
    ensures
        h == half_down(v as int),
{
    if v >= 0 {
        v / 2
    } else {
        -((-(v + 1)) / 2) - 1
    }
}

/// A node of an arena tree.
#[derive(Debug)]
pub struct Noeud<T>
where
    T: PartialEq,
 {
    /// Position of the node in its arena.
    pub idx: usize,
    /// Payload, unique in the arena.
    pub val: T,
    /// Display name.
    pub name: String,
    /// Index of the parent, if the node has one.
    pub parent: Option<usize>,
    /// Indices of the children, left to right.
    pub children: Vec<usize>,
    /// Horizontal coordinate.
    pub x: i64,
    /// Pending horizontal offset of the node and its descendants.
    pub xmod: i64,
    /// Vertical coordinate.
    pub y: i64,
    /// Pending vertical offset of the node and its descendants.
    pub ymod: i64,
    /// Branch length, in thousandths of the unit of the input.
    pub l: i64,
    /// Reconciliation event (gene trees).
    pub e: Event,
    /// Name of the species node that the node is reconciled to (gene trees).
    pub location: String,
    /// Width of the pipe (species trees).
    pub width: i64,
    /// Height of the pipe (species trees).
    pub height: i64,
    /// Number of gene nodes mapped to the node (species trees).
    pub nbg: usize,
    /// The gene nodes mapped to the node, each as the index of its gene tree
    /// and its index in that tree (species trees).
    pub nodes: Vec<(usize, usize)>,
    /// The node is where a transfer arrives; kept apart from the event, which
    /// a later event of the same node overwrites.
    pub is_a_transfert: bool,
}

impl<T: PartialEq> Noeud<T> {
    /// Two nodes agree on everything that no layout pass touches: identity,
    /// links, names, event, mapping.
    pub open spec fn same_fixed(self, o: Self) -> bool {
        &&& self.idx == o.idx
        &&& self.val == o.val
        &&& self.name == o.name
        &&& self.parent == o.parent
        &&& self.children == o.children
        &&& self.l == o.l
        &&& self.e == o.e
        &&& self.location == o.location
        &&& self.nbg == o.nbg
        &&& self.nodes == o.nodes
        &&& self.is_a_transfert == o.is_a_transfert
    }

    /// Two nodes agree on everything but the gene nodes mapped to them and
    /// their number.
    pub open spec fn same_but_genes(self, o: Self) -> bool {
        &&& self.idx == o.idx
        &&& self.val == o.val
        &&& self.name == o.name
        &&& self.parent == o.parent
        &&& self.children == o.children
        &&& self.l == o.l
        &&& self.e == o.e
        &&& self.location == o.location
        &&& self.is_a_transfert == o.is_a_transfert
        &&& self.width == o.width
        &&& self.height == o.height
        &&& self.same_place(o)
    }

    /// Two nodes agree on everything but their children.
    pub open spec fn same_but_children(self, o: Self) -> bool {
        &&& self.idx == o.idx
        &&& self.val == o.val
        &&& self.name == o.name
        &&& self.parent == o.parent
        &&& self.l == o.l
        &&& self.e == o.e
        &&& self.location == o.location
        &&& self.nbg == o.nbg
        &&& self.nodes == o.nodes
        &&& self.is_a_transfert == o.is_a_transfert
        &&& self.width == o.width
        &&& self.height == o.height
        &&& self.same_place(o)
    }

    /// Two nodes agree on everything but their children and their names.
    pub open spec fn same_but_plan(self, o: Self) -> bool {
        &&& self.idx == o.idx
        &&& self.val == o.val
        &&& self.parent == o.parent
        &&& self.l == o.l
        &&& self.e == o.e
        &&& self.location == o.location
        &&& self.nbg == o.nbg
        &&& self.nodes == o.nodes
        &&& self.is_a_transfert == o.is_a_transfert
        &&& self.width == o.width
        &&& self.height == o.height
        &&& self.same_place(o)
    }

    /// The node knows its index `idx` and is, but for its links, its name
    /// and what it holds, as `new` makes it.
    pub open spec fn is_blank(self, idx: int) -> bool {
        &&& self.idx == idx
        &&& self.x == 0
        &&& self.xmod == 0
        &&& self.y == 0
        &&& self.ymod == 0
        &&& self.l == 0
        &&& self.e == Event::Undef
        &&& self.location@ == "Undefined"@
        &&& self.width == PIPEBLOCK
        &&& self.height == PIPEBLOCK
        &&& self.nbg == 0
        &&& self.nodes@ == Seq::<(usize, usize)>::empty()
        &&& !self.is_a_transfert
    }

    /// The node is as `new` makes it, but that it is the child of `parent`.
    pub open spec fn is_fresh_child(self, idx: usize, val: T, parent: usize) -> bool {
        &&& self.idx == idx
        &&& self.val == val
        &&& self.name@ == "Undefined"@
        &&& self.parent == Some(parent)
        &&& self.children@ == Seq::<usize>::empty()
        &&& self.x == 0
        &&& self.xmod == 0
        &&& self.y == 0
        &&& self.ymod == 0
        &&& self.l == 0
        &&& self.e == Event::Undef
        &&& self.location@ == "Undefined"@
        &&& self.width == PIPEBLOCK
        &&& self.height == PIPEBLOCK
        &&& self.nbg == 0
        &&& self.nodes@ == Seq::<(usize, usize)>::empty()
        &&& !self.is_a_transfert
    }

    /// Two nodes stand at the same place with the same modifiers.
    pub open spec fn same_place(self, o: Self) -> bool {
        &&& self.x == o.x
        &&& self.y == o.y
        &&& self.xmod == o.xmod
        &&& self.ymod == o.ymod
    }

    /// The lower edge of the pipe of the node.
    pub open spec fn lower_edge(self) -> int {
        self.y + self.ymod + half(self.height as int)
    }

    /// The upper edge of the pipe of the node.
    pub open spec fn upper_edge(self) -> int {
        self.y + self.ymod - half(self.height as int)
    }

    /// Two nodes agree on everything but, where the flag is set, the
    /// horizontal coordinate, the vertical coordinate, the horizontal
    /// modifier.
    pub open spec fn same_but(self, o: Self, x: bool, y: bool, xmod: bool) -> bool {
        &&& self.same_fixed(o)
        &&& self.width == o.width
        &&& self.height == o.height
        &&& self.ymod == o.ymod
        &&& (x || self.x == o.x)
        &&& (y || self.y == o.y)
        &&& (xmod || self.xmod == o.xmod)
    }

    /// Every coordinate of the node is within `COORD_LIMIT` of zero, its pipe
    /// is not of negative size, and it holds at most `NODE_LIMIT` genes.
    pub open spec fn bounded(self) -> bool {
        &&& -COORD_LIMIT <= self.x <= COORD_LIMIT
        &&& -COORD_LIMIT <= self.y <= COORD_LIMIT
        &&& -COORD_LIMIT <= self.xmod <= COORD_LIMIT
        &&& -COORD_LIMIT <= self.ymod <= COORD_LIMIT
        &&& 0 <= self.width <= COORD_LIMIT
        &&& 0 <= self.height <= COORD_LIMIT
        &&& self.nbg <= NODE_LIMIT
        &&& self.nodes@.len() <= NODE_LIMIT
    }

    /// The node is as `new` makes it: without links, named "Undefined", at
    /// the origin, with the thinnest pipe and no gene mapped to it.
    pub open spec fn is_fresh(self, idx: usize, val: T) -> bool {
        &&& self.idx == idx
        &&& self.val == val
        &&& self.name@ == "Undefined"@
        &&& self.parent == None::<usize>
        &&& self.children@ == Seq::<usize>::empty()
        &&& self.x == 0
        &&& self.xmod == 0
        &&& self.y == 0
        &&& self.ymod == 0
        &&& self.l == 0
        &&& self.e == Event::Undef
        &&& self.location@ == "Undefined"@
        &&& self.width == PIPEBLOCK
        &&& self.height == PIPEBLOCK
        &&& self.nbg == 0
        &&& self.nodes@ == Seq::<(usize, usize)>::empty()
        &&& !self.is_a_transfert
    }

    /// A node without links, at the origin, with the thinnest pipe.
    pub fn new(idx: usize, val: T) -> (n: Self)
        ensures
            n.is_fresh(idx, val),
            n.bounded(),
    {
        Self {
            idx,
            val,
            name: "Undefined".to_owned(),
            parent: None,
            children: Vec::new(),
            x: 0,
            xmod: 0,
            y: 0,
            ymod: 0,
            l: 0,
            e: Event::Undef,
            location: "Undefined".to_owned(),
            width: PIPEBLOCK,
            height: PIPEBLOCK,
            nbg: 0,
            nodes: Vec::new(),
            is_a_transfert: false,
        }
    }

    pub fn get_val(&mut self) -> (v: &T)
        ensures
            *v == old(self).val,
            *final(self) == *old(self),
    {
        &self.val
    }

    pub fn get_index(&mut self) -> (i: &usize)
        ensures
            *i == old(self).idx,
            *final(self) == *old(self),
    {
        &self.idx
    }

    pub fn get_x(&mut self) -> (x: &i64)
        ensures
            *x == old(self).x,
            *final(self) == *old(self),
    {
        &self.x
    }

    pub fn get_y(&mut self) -> (y: &i64)
        ensures
            *y == old(self).y,
            *final(self) == *old(self),
    {
        &self.y
    }

    pub fn get_coords(&mut self) -> (c: (&i64, &i64))
        ensures
            *c.0 == old(self).x,
            *c.1 == old(self).y,
            *final(self) == *old(self),
    {
        (&self.x, &self.y)
    }

    pub fn set_x(&mut self, x: &i64)
        ensures
            final(self).x == *x,
            final(self).same_but(*old(self), true, false, false),
    {
        self.x = *x;
    }

    pub fn set_x_noref(&mut self, x: i64)
        ensures
            final(self).x == x,
            final(self).same_but(*old(self), true, false, false),
    {
        self.x = x;
    }

    pub fn set_xmod_noref(&mut self, xmod: i64)
        ensures
            final(self).xmod == xmod,
            final(self).same_but(*old(self), false, false, true),
    {
        self.xmod = xmod;
    }

    pub fn set_ymod_noref(&mut self, ymod: i64)
        ensures
            final(self).ymod == ymod,
            final(self).same_fixed(*old(self)),
            final(self).x == old(self).x,
            final(self).y == old(self).y,
            final(self).xmod == old(self).xmod,
            final(self).width == old(self).width,
            final(self).height == old(self).height,
    {
        self.ymod = ymod;
    }

    pub fn set_y(&mut self, y: &i64)
        ensures
            final(self).y == *y,
            final(self).same_but(*old(self), false, true, false),
    {
        self.y = *y;
    }

    pub fn set_y_noref(&mut self, y: i64)
        ensures
            final(self).y == y,
            final(self).same_but(*old(self), false, true, false),
    {
        self.y = y;
    }

    pub fn get_event(&mut self) -> (e: &Event)
        ensures
            *e == old(self).e,
            *final(self) == *old(self),
    {
        &self.e
    }

    pub fn set_event(&mut self, e: Event)
        ensures
            *final(self) == (Noeud { e: e, ..*old(self) }),
    {
        self.e = e;
    }
}

} // verus!
