//! Four-component vectors of binary32 data: coordinates going in, colour
//! samples coming out.

use crate::binary32::Binary32;
use vstd::prelude::*;

verus! {

/// Four binary32 components. A coordinate holds the real and the imaginary
/// part in `x` and `y`; a sample holds red, green, blue and alpha.
#[derive(Clone, Copy, Debug, PartialEq, Eq, Structural)]
pub struct Vector4 {
    pub x: Binary32,
    pub y: Binary32,
    pub z: Binary32,
    pub w: Binary32,
}

impl Vector4 {
    /// The vector of the four bit patterns.
    pub open spec fn of_bits(x: u32, y: u32, z: u32, w: u32) -> Vector4 {
        Vector4 {
            x: Binary32 { bits: x },
            y: Binary32 { bits: y },
            z: Binary32 { bits: z },
            w: Binary32 { bits: w },
        }
    }

    /// The vector with the given components.
    pub fn new(x: Binary32, y: Binary32, z: Binary32, w: Binary32) -> (r: Vector4)
        ensures
            r == (Vector4 { x, y, z, w }),
    {
        Vector4 { x, y, z, w }
    }

    /// The vector of the four bit patterns.
    pub fn from_bits(bits: [u32; 4]) -> (r: Vector4)
        ensures
            r == Vector4::of_bits(bits[0], bits[1], bits[2], bits[3]),
    {
        Vector4 {
            x: Binary32 { bits: bits[0] },
            y: Binary32 { bits: bits[1] },
            z: Binary32 { bits: bits[2] },
            w: Binary32 { bits: bits[3] },
        }
    }

    /// The four bit patterns.
    pub fn to_bits(&self) -> (bits: [u32; 4])
        ensures
            *self == Vector4::of_bits(bits[0], bits[1], bits[2], bits[3]),
    {
        [self.x.bits, self.y.bits, self.z.bits, self.w.bits]
    }
}

} // verus!
