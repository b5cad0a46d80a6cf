//! Two-component integer vectors used for grid cells and cell offsets.

use vstd::prelude::*;

verus! {

/// A vector of two signed 16-bit components: a grid cell or an offset between cells.
#[derive(Clone, Copy, Debug, PartialEq, Eq, Structural)]
pub struct I16Vec2 {
    pub x: i16,
    pub y: i16,
}

/// A vector of two unsigned components: a grid cell addressed by indices.
#[derive(Clone, Copy, Debug)]
pub struct UVec2<P> {
    pub x: P,
    pub y: P,
}

/// What `v as u16` gives for a signed 16-bit value: the same bit pattern read as unsigned.
pub open spec fn reinterpret_u16(v: i16) -> int {
    if v >= 0 {
        v as int
    } else {
        v + 0x1_0000
    }
}

impl I16Vec2 {
    pub fn new(x: i16, y: i16) -> (r: Self)
        ensures
            r.x == x,
            r.y == y,
    {
        I16Vec2 { x, y }
    }

    /// Component-wise reinterpretation as unsigned: a negative component wraps
    /// to a large one (`-1` becomes `65535`).
    pub fn cast_u16(self) -> (r: UVec2<u16>)
        ensures
            r.x as int == reinterpret_u16(self.x),
            r.y as int == reinterpret_u16(self.y),
    {
        UVec2 { x: wrap_to_u16(self.x), y: wrap_to_u16(self.y) }
    }

    /// Component-wise checked conversion to unsigned: `None` when a component is negative.
    pub fn try_cast_u16(self) -> (r: Option<UVec2<u16>>)
        ensures
            r is Some <==> (self.x >= 0 && self.y >= 0),
            r matches Some(u) ==> u.x == self.x && u.y == self.y,
    {
        if self.x >= 0 && self.y >= 0 {
            Some(UVec2 { x: self.x as u16, y: self.y as u16 })
        } else {
            None
        }
    }
}

fn wrap_to_u16(v: i16) -> (r: u16)
    ensures
        r as int == reinterpret_u16(v),
{
    if v >= 0 {
        v as u16
    } else {
        (v as i32 + 0x1_0000i32) as u16
    }
}

} // verus!
