//! The four axis directions, the four diagonal directions, and the eight
//! neighbour directions of a grid cell.

use vstd::prelude::*;
use crate::vector::I16Vec2;
use vstd::std_specs::convert::FromSpec;

verus! {

/// One of the four axis directions.
#[derive(Clone, Copy, Debug)]
pub enum Direction {
    NegX,
    PosX,
    NegY,
    PosY,
}

/// One of the four diagonal directions.
#[derive(Clone, Copy, Debug)]
pub enum CornerDirection {
    NegXNegY,
    PosXNegY,
    NegXPosY,
    PosXPosY,
}

/// One of the eight directions to a neighbouring cell.
#[derive(Clone, Copy, Debug)]
pub enum EightDirection {
    Axis(Direction),
    Corner(CornerDirection),
}

/// The offset of an axis direction: one unit along the named axis, with the named sign.
pub open spec fn axis_offset(d: Direction) -> (int, int) {
    match d {
        Direction::NegX => (-1, 0),
        Direction::PosX => (1, 0),
        Direction::NegY => (0, -1),
        Direction::PosY => (0, 1),
    }
}

/// The offset of a diagonal direction: one unit along each axis, with the named signs.
pub open spec fn corner_offset(d: CornerDirection) -> (int, int) {
    match d {
        CornerDirection::NegXNegY => (-1, -1),
        CornerDirection::PosXNegY => (1, -1),
        CornerDirection::NegXPosY => (-1, 1),
        CornerDirection::PosXPosY => (1, 1),
    }
}

/// The offset of any of the eight directions.
pub open spec fn eight_offset(d: EightDirection) -> (int, int) {
    match d {
        EightDirection::Axis(a) => axis_offset(a),
        EightDirection::Corner(c) => corner_offset(c),
    }
}

impl Direction {
    /// The unit offset of this direction.
    pub fn i16vec2(self) -> (r: I16Vec2)
        ensures
            (r.x as int, r.y as int) == axis_offset(self),
    {
        match self {
            Direction::NegX => I16Vec2::new(-1, 0),
            Direction::PosX => I16Vec2::new(1, 0),
            Direction::NegY => I16Vec2::new(0, -1),
            Direction::PosY => I16Vec2::new(0, 1),
        }
    }
}

impl CornerDirection {
    /// The diagonal offset of this direction.
    pub fn i16vec2(self) -> (r: I16Vec2)
        ensures
            (r.x as int, r.y as int) == corner_offset(self),
    {
        match self {
            CornerDirection::NegXNegY => I16Vec2::new(-1, -1),
            CornerDirection::PosXNegY => I16Vec2::new(1, -1),
            CornerDirection::NegXPosY => I16Vec2::new(-1, 1),
            CornerDirection::PosXPosY => I16Vec2::new(1, 1),
        }
    }
}

impl EightDirection {
    /// The offset of this direction to the neighbouring cell.
    pub fn i16vec2(self) -> (r: I16Vec2)
        ensures
            (r.x as int, r.y as int) == eight_offset(self),
    {
        match self {
            EightDirection::Axis(it) => it.i16vec2(),
            EightDirection::Corner(it) => it.i16vec2(),
        }
    }
}

impl From<Direction> for EightDirection {
    fn from(value: Direction) -> (r: Self) {
        EightDirection::Axis(value)
    }
}

impl vstd::std_specs::convert::FromSpecImpl<Direction> for EightDirection {
    open spec fn obeys_from_spec() -> bool {
        true
    }

    open spec fn from_spec(v: Direction) -> Self {
        EightDirection::Axis(v)
    }
}

impl From<CornerDirection> for EightDirection {
    fn from(value: CornerDirection) -> (r: Self) {
        EightDirection::Corner(value)
    }
}

impl vstd::std_specs::convert::FromSpecImpl<CornerDirection> for EightDirection {
    open spec fn obeys_from_spec() -> bool {
        true
    }

    open spec fn from_spec(v: CornerDirection) -> Self {
        EightDirection::Corner(v)
    }
}

/// The eight directions lead to eight distinct neighbours: each offset is a
/// non-zero step of at most one cell along each axis, and two directions with
/// the same offset are the same direction.
pub proof fn lemma_eight_offsets_distinct_neighbours(a: EightDirection, b: EightDirection)
    ensures
        eight_offset(a) != (0int, 0int),
        -1 <= eight_offset(a).0 <= 1,
        -1 <= eight_offset(a).1 <= 1,
        eight_offset(a) == eight_offset(b) ==> a == b,
{
}

/// Widening an axis or diagonal direction to an eight-way direction with
/// `From` keeps its offset; axis offsets move along exactly one axis and
/// diagonal offsets along both.
pub proof fn lemma_from_keeps_offset(d: Direction, c: CornerDirection)
    ensures
        eight_offset(<EightDirection as FromSpec<Direction>>::from_spec(d)) == axis_offset(d),
        eight_offset(<EightDirection as FromSpec<CornerDirection>>::from_spec(c)) == corner_offset(c),
        axis_offset(d).0 == 0 <==> axis_offset(d).1 != 0,
        corner_offset(c).0 != 0 && corner_offset(c).1 != 0,
{
}

} // verus!
