use vstd::prelude::*;

verus! {

/// A point of the integer world grid.
#[derive(Clone, Copy, Debug, PartialEq, Eq, Structural)]
pub struct Coord {
    pub x: i32,
    pub y: i32,
}

impl Coord {
    pub fn new(x: i32, y: i32) -> (r: Coord)
        ensures
            r.x == x,
            r.y == y,
    {
        Coord { x, y }
    }

    /// Both components are at most those of `other`.
    pub open spec fn le(self, other: Coord) -> bool {
        self.x <= other.x && self.y <= other.y
    }

    pub fn is_le(&self, other: &Coord) -> (r: bool)
        ensures
            r == self.le(*other),
    {
        self.x <= other.x && self.y <= other.y
    }
}

} // verus!
