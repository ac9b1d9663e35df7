//! Reconciliation events and the ways a layout can fail.

use vstd::prelude::*;

verus! {

/// What happened to a gene lineage at a node of a gene tree.
#[derive(Debug, Clone, Copy, PartialEq, Eq, Structural)]
pub enum Event {
    Speciation,
    Duplication,
    Loss,
    Transfer,
    BranchingOut,
    TransferBack,
    BifurcationOut,
    Leaf,
    Undef,
}

impl Default for Event {
    fn default() -> (e: Self)
        ensures
            e == Event::Undef,
    {
        Event::Undef
    }
}

impl Event {
    /// The events whose nodes are spread apart inside a species node: every
    /// event but `Transfer` and `Undef`.
    pub open spec fn spreads(self) -> bool {
        self != Event::Transfer && self != Event::Undef
    }

    /// The events placed relative to the parent gene node rather than to the
    /// species node they map to.
    pub open spec fn hangs_from_parent(self) -> bool {
        self == Event::Duplication || self == Event::BifurcationOut || self == Event::Loss
            || self == Event::BranchingOut
    }

    pub fn is_spread(&self) -> (r: bool)
        ensures
            r == self.spreads(),
    {
        match self {
            Event::Transfer => false,
            Event::Undef => false,
            _ => true,
        }
    }

    pub fn is_hung_from_parent(&self) -> (r: bool)
        ensures
            r == self.hangs_from_parent(),
    {
        match self {
            Event::Duplication => true,
            Event::BifurcationOut => true,
            Event::Loss => true,
            Event::BranchingOut => true,
            _ => false,
        }
    }
}

/// Why a tree, or a set of trees, could not be laid out. Where a node is at
/// fault the error names it: by its index in its tree, and for a gene node
/// by the index of its gene tree first.
#[derive(Debug, Clone, Copy, PartialEq, Eq, Structural)]
pub enum LayoutError {
    /// The node has one child, or more than two.
    NonBinaryNode(usize),
    /// No node of the tree is without a parent.
    NoRoot,
    /// More than one node of the tree is without a parent.
    MultipleRoots,
    /// The location of the gene node names no node of the species tree.
    UnmappedGeneNode(usize, usize),
    /// The horizontal modifier of the node is negative where contours are
    /// taken.
    NegativeModifierInvariantViolated(usize),
    /// The gene node, whose event places it below its parent, has no parent.
    MissingParentForEventNode(usize, usize),
}

} // verus!
