//! A mesh edge, stored as the pair of arena indices of its endpoint
//! vertex nodes.

use vstd::prelude::*;

verus! {

/// One undirected mesh edge between the vertex nodes `node_1` and `node_2`.
#[derive(Clone, Copy, PartialEq, Eq, Structural, Debug)]
pub struct Edge {
    pub node_1: usize,
    pub node_2: usize,
}

impl Edge {
    /// Whether `v` is one of the edge's endpoints.
    pub open spec fn touches(self, v: int) -> bool {
        self.node_1 == v || self.node_2 == v
    }

    /// The two edges join the same unordered pair of vertices.
    pub open spec fn same_pair(self, other: Edge) -> bool {
        ||| (self.node_1 == other.node_1 && self.node_2 == other.node_2)
        ||| (self.node_1 == other.node_2 && self.node_2 == other.node_1)
    }

    /// The two edges have a common endpoint.
    pub open spec fn shares_endpoint(self, other: Edge) -> bool {
        self.touches(other.node_1 as int) || self.touches(other.node_2 as int)
    }

    pub fn new(n1: usize, n2: usize) -> (e: Edge)
        ensures
            e.node_1 == n1,
            e.node_2 == n2,
    {
        Edge { node_1: n1, node_2: n2 }
    }
}

} // verus!
