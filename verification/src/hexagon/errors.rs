//! Errors for the coordinate system and the grid.
use vstd::prelude::*;

verus! {

/// Error when the three cube coordinates do not fulfil the zero constraint,
/// which demands that x + y + z = 0.
#[derive(Debug, Copy, Clone, PartialEq, Eq, Structural)]
pub struct FailsZeroConstraint {
    pub x: i32,
    pub y: i32,
    pub z: i32,
}

impl FailsZeroConstraint {
    pub fn new(x: i32, y: i32, z: i32) -> (r: Self)
        ensures
            r == (FailsZeroConstraint { x, y, z }),
    {
        FailsZeroConstraint { x, y, z }
    }
}

/// Error when a grid lookup names a coordinate that holds no hexagon.
#[derive(Debug, Copy, Clone, PartialEq, Eq, Structural)]
pub struct NoHexAtCoordinate {
    pub x: i32,
    pub y: i32,
    pub z: i32,
}

impl NoHexAtCoordinate {
    pub fn new(x: i32, y: i32, z: i32) -> (r: Self)
        ensures
            r == (NoHexAtCoordinate { x, y, z }),
    {
        NoHexAtCoordinate { x, y, z }
    }
}

/// Any coordinate error a grid operation can report.
#[derive(Debug, Copy, Clone, PartialEq, Eq, Structural)]
pub enum BadCoordinate {
    NotZero(FailsZeroConstraint),
    NoHex(NoHexAtCoordinate),
}

} // verus!
