use vstd::prelude::*;

verus! {

/// A point of the integer grid.
#[derive(Clone, Copy, PartialEq, Eq, Structural, Hash, Debug)]
pub struct Vector {
    pub x: i32,
    pub y: i32,
}

impl Vector {
    /// The point `(x, y)`.
    pub fn new(x: i32, y: i32) -> (r: Vector)
        ensures
            r.x == x,
            r.y == y,
    {
        Vector { x, y }
    }
}

} // verus!
