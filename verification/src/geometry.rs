//! Sizes and positions in whole pixels.

use vstd::prelude::*;

verus! {

/// A pair of pixel counts: a size (width, height) or a position (x, y).
#[derive(Debug, Clone, Copy, PartialEq, Eq, Structural)]
pub struct Vector2U {
    pub x: u32,
    pub y: u32,
}

impl Vector2U {
    pub fn new(x: u32, y: u32) -> (v: Self)
        ensures
            v.x == x,
            v.y == y,
    {
        Self { x, y }
    }

    pub fn zero() -> (v: Self)
        ensures
            v.x == 0,
            v.y == 0,
    {
        Self { x: 0, y: 0 }
    }

    pub fn x(&self) -> (x: u32)
        ensures
            x == self.x,
    {
        self.x
    }

    pub fn y(&self) -> (y: u32)
        ensures
            y == self.y,
    {
        self.y
    }
}

} // verus!
