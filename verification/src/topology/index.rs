use vstd::prelude::*;

verus! {

/// A compact node position in a numeric topology.
#[derive(Debug, Clone, Copy, PartialEq, Eq, Structural, PartialOrd, Ord, Hash)]
pub struct NodeIndex(pub u32);

/// A compact edge position in a numeric topology.
#[derive(Debug, Clone, Copy, PartialEq, Eq, Structural, PartialOrd, Ord, Hash)]
pub struct EdgeIndex(pub u32);

impl NodeIndex {
    pub fn new(index: u32) -> (r: Self)
        ensures
            r.0 == index,
    {
        NodeIndex(index)
    }

    pub fn index(&self) -> (r: usize)
        ensures
            r == self.0,
    {
        self.0 as usize
    }
}

impl EdgeIndex {
    pub fn new(index: u32) -> (r: Self)
        ensures
            r.0 == index,
    {
        EdgeIndex(index)
    }

    pub fn index(&self) -> (r: usize)
        ensures
            r == self.0,
    {
        self.0 as usize
    }
}

/// The ordered endpoints of one edge.
#[derive(Debug, Clone, Copy, PartialEq, Eq, Structural, PartialOrd, Ord, Hash)]
pub struct EdgeEndpoints<N> {
    pub source: N,
    pub target: N,
}

impl<N: Copy> EdgeEndpoints<N> {
    pub fn new(source: N, target: N) -> (r: Self)
        ensures
            r.source == source,
            r.target == target,
    {
        EdgeEndpoints { source, target }
    }

    pub fn source(&self) -> (r: N)
        ensures
            r == self.source,
    {
        self.source
    }

    pub fn target(&self) -> (r: N)
        ensures
            r == self.target,
    {
        self.target
    }
}

} // verus!
