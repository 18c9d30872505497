//! Integer lattice coordinates.

use vstd::prelude::*;

verus! {

/// A lattice position or offset: one signed integer per axis.
#[derive(Debug, Clone, Copy, PartialEq, Eq, Structural)]
pub struct Pos3 {
    pub x: i32,
    pub y: i32,
    pub z: i32,
}

impl Pos3 {
    pub fn new(x: i32, y: i32, z: i32) -> (p: Pos3)
        ensures
            p.x == x,
            p.y == y,
            p.z == z,
    {
        Pos3 { x, y, z }
    }
}

} // verus!
