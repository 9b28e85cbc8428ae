//! A compact, fixed-size, three-dimensional container for 64-bit
//! identifiers, stored as bit-packed indices into a growable palette.

use vstd::prelude::*;

pub mod codec;
pub mod section;

pub use section::BoundsError;
pub use section::Section;

verus! {

/// A three-dimensional integer position addressing one cell of a section.
#[derive(Clone, Copy, Debug, PartialEq, Eq, Structural)]
pub struct Pos {
    pub x: i32,
    pub y: i32,
    pub z: i32,
}

impl Pos {
    /// Builds a position from its three coordinates.
    pub fn new(x: i32, y: i32, z: i32) -> (p: Pos)
        ensures
            p.x == x && p.y == y && p.z == z,
    {
        Pos { x, y, z }
    }
}

} // verus!
