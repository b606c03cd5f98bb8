use vstd::prelude::*;

verus! {

/// A 2D integer coordinate, used both as a cell position and as a
/// displacement vector.  Grid dimensions and block counts stay within
/// `i8` range by construction.
#[derive(Default, Debug, Clone, Copy, PartialEq, Eq, Hash, Structural)]
pub struct Vec2 {
    pub x: i8,
    pub y: i8,
}

impl Vec2 {
    pub fn new(x: i8, y: i8) -> (v: Vec2)
        ensures
            v.x == x,
            v.y == y,
    {
        Vec2 { x, y }
    }

    /// Componentwise vector addition.
    pub fn add(&self, rhs: &Vec2) -> (v: Vec2)
        requires
            -128 <= self.x + rhs.x <= 127,
            -128 <= self.y + rhs.y <= 127,
        ensures
            v.x == self.x + rhs.x,
            v.y == self.y + rhs.y,
    {
        Vec2 { x: self.x + rhs.x, y: self.y + rhs.y }
    }

}

} // verus!
