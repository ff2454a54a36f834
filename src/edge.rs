use vstd::prelude::*;

use crate::node::Node;

verus! {

/// An unordered connection between two nodes. The endpoints are kept as
/// given; a self-loop (`a == b`) is representable.
#[derive(Clone, Copy, PartialEq, Eq, Structural, Hash, Debug)]
pub struct Edge {
    pub a: Node,
    pub b: Node,
}

impl Edge {
    /// The edge between `a` and `b`, endpoints kept in the order given.
    pub fn new(a: &Node, b: &Node) -> (r: Edge)
        ensures
            r.a == *a,
            r.b == *b,
    {
        Edge { a: *a, b: *b }
    }
}

} // verus!
