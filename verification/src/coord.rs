//! A zero-based board coordinate.

use vstd::prelude::*;

verus! {

/// A board position: `x` grows to the right, `y` grows downward, with
/// the origin in the top-left corner. On a board of side `size` the
/// flat cell index of `(x, y)` is `y * size + x`.
#[derive(Clone, Copy, PartialEq, Eq, Structural, Debug)]
pub struct Coord {
    pub x: usize,
    pub y: usize,
}

impl Coord {
    pub fn new(x: usize, y: usize) -> (c: Coord)
        ensures
            c.x == x,
            c.y == y,
    {
        Coord { x, y }
    }
}

} // verus!
