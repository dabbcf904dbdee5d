//! Hexagon grid management.

pub mod coordinate;
pub mod errors;
pub mod grid;

pub use self::coordinate::Axial;
pub use self::coordinate::Cube;
pub use self::grid::Grid;
