use vstd::prelude::*;

use crate::vector::Vector;

verus! {

/// A graph vertex, identified by its position alone: two nodes are equal
/// exactly when their positions are.
#[derive(Clone, Copy, PartialEq, Eq, Structural, Hash, Debug)]
pub struct Node {
    pub position: Vector,
}

impl Node {
    /// The node at `position`.
    pub fn new(position: &Vector) -> (r: Node)
        ensures
            r.position == *position,
    {
        Node { position: *position }
    }
}

} // verus!
