//! What a cell holds.

pub use crate::position::PositionState;
