//! Integer geometry: sizes and positions.
use vstd::prelude::*;

verus! {

/// A two-dimensional extent (width, height) or margin, in layout units.
#[derive(Debug, Clone, Copy, PartialEq, Eq, Structural)]
pub struct Vec2 {
    pub x: u32,
    pub y: u32,
}

impl Vec2 {
    /// Creates a vector from its components.
    pub fn new(x: u32, y: u32) -> (r: Vec2)
        ensures
            r.x == x,
            r.y == y,
    {
        Vec2 { x, y }
    }

    /// The zero vector.
    pub fn zero() -> (r: Vec2)
        ensures
            r.x == 0,
            r.y == 0,
    {
        Vec2 { x: 0, y: 0 }
    }

    /// Component-wise maximum of two vectors.
    pub fn max(self, other: Vec2) -> (r: Vec2)
        ensures
            r.x == if self.x >= other.x { self.x } else { other.x },
            r.y == if self.y >= other.y { self.y } else { other.y },
    {
        Vec2 {
            x: if self.x >= other.x { self.x } else { other.x },
            y: if self.y >= other.y { self.y } else { other.y },
        }
    }

    /// Sum of the two components.
    pub fn sum(self) -> (r: u64)
        ensures
            r == self.x + self.y,
    {
        self.x as u64 + self.y as u64
    }
}

/// A position in the plane; `y` grows downwards.
#[derive(Debug, Clone, Copy, PartialEq, Eq, Structural)]
pub struct Point {
    pub x: i128,
    pub y: i128,
}

impl Point {
    /// Creates a point from its coordinates.
    pub fn new(x: i128, y: i128) -> (r: Point)
        ensures
            r.x == x,
            r.y == y,
    {
        Point { x, y }
    }
}

} // verus!
