//! Grid simulation core of a falling-sand demo: integer grid vectors, the
//! eight neighbour directions, a fixed-capacity slot allocator, a grid that
//! maps cells to slots, and the particle world built on top of it.

pub mod vector;
pub mod direction;
pub mod slots;
pub mod sand;
