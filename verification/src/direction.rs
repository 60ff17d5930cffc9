//! The eight compass directions in which a line of disks can run.

use vstd::prelude::*;

verus! {

/// A compass direction on the board. North is towards row 0, west towards
/// column 0.
#[derive(Clone, Copy, Debug, PartialEq, Eq, Hash, Structural)]
pub enum Direction {
    North,
    NorthEast,
    East,
    SouthEast,
    South,
    SouthWest,
    West,
    NorthWest,
}

/// How many directions there are.
pub const DIRECTIONS: usize = 8;

impl Direction {
    /// The change of column that one step in this direction makes.
    pub open spec fn dx(self) -> int {
        match self {
            Direction::North | Direction::South => 0,
            Direction::NorthEast | Direction::East | Direction::SouthEast => 1,
            Direction::SouthWest | Direction::West | Direction::NorthWest => -1,
        }
    }

    /// The change of row that one step in this direction makes.
    pub open spec fn dy(self) -> int {
        match self {
            Direction::East | Direction::West => 0,
            Direction::SouthEast | Direction::South | Direction::SouthWest => 1,
            Direction::NorthEast | Direction::North | Direction::NorthWest => -1,
        }
    }

    /// The directions in the order in which the rules walk them, clockwise
    /// from north.
    pub open spec fn spec_nth(i: int) -> Direction {
        if i == 0 {
            Direction::North
        } else if i == 1 {
            Direction::NorthEast
        } else if i == 2 {
            Direction::East
        } else if i == 3 {
            Direction::SouthEast
        } else if i == 4 {
            Direction::South
        } else if i == 5 {
            Direction::SouthWest
        } else if i == 6 {
            Direction::West
        } else {
            Direction::NorthWest
        }
    }

    /// The `i`-th direction, clockwise from north.
    pub fn nth(i: usize) -> (d: Direction)
        requires
            i < DIRECTIONS,
        ensures
            d == Direction::spec_nth(i as int),
    {
        if i == 0 {
            Direction::North
        } else if i == 1 {
            Direction::NorthEast
        } else if i == 2 {
            Direction::East
        } else if i == 3 {
            Direction::SouthEast
        } else if i == 4 {
            Direction::South
        } else if i == 5 {
            Direction::SouthWest
        } else if i == 6 {
            Direction::West
        } else {
            Direction::NorthWest
        }
    }
}

} // verus!
