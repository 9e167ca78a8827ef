use vstd::prelude::*;

verus! {

/// A node handle of a stable payload graph: a slot and the generation the
/// slot had when the node was added, so a reused slot is told apart.
#[derive(Debug, Clone, Copy, PartialEq, Eq, Structural, PartialOrd, Ord, Hash)]
pub struct StableNodeKey {
    pub slot: u32,
    pub generation: u32,
}

/// An edge handle of a stable payload graph.
#[derive(Debug, Clone, Copy, PartialEq, Eq, Structural, PartialOrd, Ord, Hash)]
pub struct StableEdgeKey {
    pub slot: u32,
    pub generation: u32,
}

impl StableNodeKey {
    pub fn new(slot: u32, generation: u32) -> (r: Self)
        ensures
            r.slot == slot,
            r.generation == generation,
    {
        StableNodeKey { slot, generation }
    }

    pub fn slot(&self) -> (r: u32)
        ensures
            r == self.slot,
    {
        self.slot
    }

    pub fn generation(&self) -> (r: u32)
        ensures
            r == self.generation,
    {
        self.generation
    }

    pub fn index(&self) -> (r: usize)
        ensures
            r == self.slot,
    {
        self.slot as usize
    }
}

impl StableEdgeKey {
    pub fn new(slot: u32, generation: u32) -> (r: Self)
        ensures
            r.slot == slot,
            r.generation == generation,
    {
        StableEdgeKey { slot, generation }
    }

    pub fn slot(&self) -> (r: u32)
        ensures
            r == self.slot,
    {
        self.slot
    }

    pub fn generation(&self) -> (r: u32)
        ensures
            r == self.generation,
    {
        self.generation
    }

    pub fn index(&self) -> (r: usize)
        ensures
            r == self.slot,
    {
        self.slot as usize
    }
}

} // verus!
