//! A turn-based dice-territory engine over a hexagonal board.
//!
//! Players own hex tiles stocked with dice and attack adjacent enemy tiles.
//! The engine enumerates legal moves, expands the reachable state space,
//! and scores choices by backward induction for move selection.

pub mod game;
pub mod hexagon;
pub mod memorize;
pub mod session;
