//! Small integer vectors.

use vstd::prelude::*;

verus! {

/// A triple of unsigned coordinates.
#[derive(Clone, Copy, Debug, PartialEq, Eq, Structural)]
pub struct UVec3 {
    pub x: u32,
    pub y: u32,
    pub z: u32,
}

/// A pair of unsigned numbers.
#[derive(Clone, Copy, Debug, PartialEq, Eq, Structural)]
pub struct UVec2 {
    pub x: u32,
    pub y: u32,
}

impl UVec2 {
    /// The component-wise minimum.
    pub fn min(self, other: UVec2) -> (r: UVec2)
        ensures
            r == (UVec2 { x: min_of(self.x, other.x), y: min_of(self.y, other.y) }),
            r.x <= self.x && r.x <= other.x && (r.x == self.x || r.x == other.x),
            r.y <= self.y && r.y <= other.y && (r.y == self.y || r.y == other.y),
    {
        UVec2 {
            x: if self.x <= other.x { self.x } else { other.x },
            y: if self.y <= other.y { self.y } else { other.y },
        }
    }
}

impl Default for UVec2 {
    fn default() -> (r: UVec2)
        ensures
            r == (UVec2 { x: 0, y: 0 }),
    {
        UVec2 { x: 0, y: 0 }
    }
}

/// Four unsigned numbers.
#[derive(Clone, Copy, Debug, PartialEq, Eq, Structural)]
pub struct UVec4 {
    pub x: u32,
    pub y: u32,
    pub z: u32,
    pub w: u32,
}

/// A triple of signed coordinates.
#[derive(Clone, Copy, Debug, PartialEq, Eq, Structural)]
pub struct IVec3 {
    pub x: i32,
    pub y: i32,
    pub z: i32,
}

/// The smaller of two integers.
pub open spec fn min_of(a: u32, b: u32) -> u32 {
    if a <= b { a } else { b }
}

/// The larger of two integers.
pub open spec fn max_of(a: u32, b: u32) -> u32 {
    if a >= b { a } else { b }
}

impl UVec3 {
    /// The vector with the given coordinates.
    pub fn new(x: u32, y: u32, z: u32) -> (r: UVec3)
        ensures
            r == (UVec3 { x, y, z }),
    {
        UVec3 { x, y, z }
    }

    /// The component-wise minimum.
    pub open spec fn min_spec(self, other: UVec3) -> UVec3 {
        UVec3 { x: min_of(self.x, other.x), y: min_of(self.y, other.y), z: min_of(self.z, other.z) }
    }

    /// The component-wise minimum.
    pub fn min(self, other: UVec3) -> (r: UVec3)
        ensures
            r == self.min_spec(other),
            r.x <= self.x && r.x <= other.x && (r.x == self.x || r.x == other.x),
            r.y <= self.y && r.y <= other.y && (r.y == self.y || r.y == other.y),
            r.z <= self.z && r.z <= other.z && (r.z == self.z || r.z == other.z),
    {
        UVec3 {
            x: if self.x <= other.x { self.x } else { other.x },
            y: if self.y <= other.y { self.y } else { other.y },
            z: if self.z <= other.z { self.z } else { other.z },
        }
    }

    /// The component-wise maximum.
    pub open spec fn max_spec(self, other: UVec3) -> UVec3 {
        UVec3 { x: max_of(self.x, other.x), y: max_of(self.y, other.y), z: max_of(self.z, other.z) }
    }

    /// The component-wise maximum.
    pub fn max(self, other: UVec3) -> (r: UVec3)
        ensures
            r == self.max_spec(other),
            r.x >= self.x && r.x >= other.x && (r.x == self.x || r.x == other.x),
            r.y >= self.y && r.y >= other.y && (r.y == self.y || r.y == other.y),
            r.z >= self.z && r.z >= other.z && (r.z == self.z || r.z == other.z),
    {
        UVec3 {
            x: if self.x >= other.x { self.x } else { other.x },
            y: if self.y >= other.y { self.y } else { other.y },
            z: if self.z >= other.z { self.z } else { other.z },
        }
    }
}

} // verus!
