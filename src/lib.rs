//! Logic engine of a grid-based mine-clearing puzzle: the board, its
//! per-cell reveal/mark state machine, seeded mine placement and the
//! cascading reveal of connected safe regions.

pub mod field;
pub mod generate;
pub mod interactions;
pub mod revealing;
