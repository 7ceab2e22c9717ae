use vstd::prelude::*;

verus! {

/// Position of a binary32 bit pattern in the IEEE-754 totalOrder: negative values
/// (sign bit set) come first in reverse magnitude order, then the non-negative ones.
pub open spec fn key(bits: u32) -> int {
    if bits < 0x8000_0000 {
        bits as int
    } else {
        0x7fff_ffff - bits
    }
}

/// The totalOrder position of a binary32 bit pattern, as `f32::total_cmp` compares it.
pub fn total_order_key(bits: u32) -> (k: i32)
    ensures
        k as int == key(bits),
{
    if bits < 0x8000_0000 {
        bits as i32
    } else {
        let magnitude: u32 = bits - 0x8000_0000;
        -1i32 - (magnitude as i32)
    }
}

/// Distinct bit patterns have distinct totalOrder positions.
pub proof fn lemma_key_injective(a: u32, b: u32)
    ensures
        key(a) == key(b) ==> a == b,
{
}

/// A point whose three coordinates are binary32 values held as bit patterns.
#[derive(Clone, Copy, Debug, PartialEq, Eq, Structural)]
pub struct Point3 {
    pub x: u32,
    pub y: u32,
    pub z: u32,
}

impl Point3 {
    pub open spec fn coord(self, axis: int) -> u32 {
        if axis == 0 {
            self.x
        } else if axis == 1 {
            self.y
        } else {
            self.z
        }
    }

    pub fn new(x: u32, y: u32, z: u32) -> (p: Point3)
        ensures
            p == (Point3 { x, y, z }),
    {
        Point3 { x, y, z }
    }

    /// The coordinate along `axis` (0 for x, 1 for y, 2 for z).
    pub fn axis(&self, axis: usize) -> (c: u32)
        requires
            axis < 3,
        ensures
            c == self.coord(axis as int),
    {
        if axis == 0 {
            self.x
        } else if axis == 1 {
            self.y
        } else {
            self.z
        }
    }
}

} // verus!
