//! Cells of the board: where they are and what they hold.

use vstd::prelude::*;
use crate::direction::Direction;
use crate::disk::Disk;

verus! {

/// How many cells the board has.
pub const CELLS: usize = 64;

/// What a cell holds.
#[derive(Copy, Clone, Debug, PartialEq, Eq, Structural)]
pub enum PositionState {
    Empty,
    Dark,
    Light,
}

impl PositionState {
    /// The state with the owner changed; an empty cell stays empty.
    pub open spec fn spec_opposite(self) -> PositionState {
        match self {
            PositionState::Empty => PositionState::Empty,
            PositionState::Dark => PositionState::Light,
            PositionState::Light => PositionState::Dark,
        }
    }

    /// The state of a cell that holds a disk of the given colour.
    pub open spec fn of(disk: Disk) -> PositionState {
        match disk {
            Disk::Dark => PositionState::Dark,
            Disk::Light => PositionState::Light,
        }
    }

    /// Turns the disk over, if there is one.
    #[verifier::when_used_as_spec(spec_opposite)]
    pub fn opposite(self) -> (flipped: Self)
        ensures
            flipped == self.spec_opposite(),
    {
        match self {
            PositionState::Empty => PositionState::Empty,
            PositionState::Dark => PositionState::Light,
            PositionState::Light => PositionState::Dark,
        }
    }
}

impl Default for PositionState {
    /// A cell holds nothing until a disk is laid on it.
    fn default() -> (state: Self)
        ensures
            state == PositionState::Empty,
    {
        PositionState::Empty
    }
}

impl vstd::std_specs::convert::FromSpecImpl<Disk> for PositionState {
    open spec fn obeys_from_spec() -> bool {
        true
    }

    open spec fn from_spec(disk: Disk) -> PositionState {
        PositionState::of(disk)
    }
}

impl From<Disk> for PositionState {
    /// The state of a cell on which a disk of this colour lies.
    fn from(disk: Disk) -> (state: Self)
        ensures
            state == PositionState::of(disk),
    {
        match disk {
            Disk::Dark => PositionState::Dark,
            Disk::Light => PositionState::Light,
        }
    }
}

/// Whether column `x`, row `y` lies on the board.
pub open spec fn on_board(x: int, y: int) -> bool {
    0 <= x < 8 && 0 <= y < 8
}

/// A cell, by column and row. Column 0 is the western edge, row 0 the
/// northern one.
#[derive(Clone, Copy, Debug, Ord, PartialOrd, Hash, Eq, PartialEq, Structural)]
pub struct Position {
    pub x: usize,
    pub y: usize,
}

impl Position {
    /// Whether the cell lies on the board.
    pub open spec fn valid(self) -> bool {
        on_board(self.x as int, self.y as int)
    }

    /// The place of the cell in the order in which the board is scanned:
    /// row by row, each row from west to east.
    pub open spec fn index(self) -> int {
        self.y * 8 + self.x
    }

    /// The cell at column `x`, row `y`.
    pub open spec fn at(x: int, y: int) -> Position {
        Position { x: x as usize, y: y as usize }
    }

    /// The `i`-th cell in scanning order.
    pub open spec fn nth(i: int) -> Position {
        Position::at(i % 8, i / 8)
    }

    /// The cell one step away in direction `d`, if the board has one.
    pub open spec fn spec_neighbor(self, d: Direction) -> Option<Position> {
        if on_board(self.x + d.dx(), self.y + d.dy()) {
            Some(Position::at(self.x + d.dx(), self.y + d.dy()))
        } else {
            None
        }
    }

    /// The cell on which this one lands when the board is turned by half a
    /// turn.
    pub open spec fn spec_rotate(self) -> Position {
        Position::at(7 - self.x, 7 - self.y)
    }

    /// The cell on which this one lands when the board is mirrored in the
    /// diagonal that runs from the north-west to the south-east corner.
    pub open spec fn spec_flip(self) -> Position {
        Position { x: self.y, y: self.x }
    }

    /// The adjacent cell in direction `d`, or `None` at the edge.
    pub fn neighbor(&self, d: &Direction) -> (next: Option<Self>)
        requires
            self.valid(),
        ensures
            next == self.spec_neighbor(*d),
    {
        match d {
            Direction::North => self.north(),
            Direction::NorthEast => self.north_east(),
            Direction::East => self.east(),
            Direction::SouthEast => self.south_east(),
            Direction::South => self.south(),
            Direction::SouthWest => self.south_west(),
            Direction::West => self.west(),
            Direction::NorthWest => self.north_west(),
        }
    }

    fn north(&self) -> (next: Option<Self>)
        requires
            self.valid(),
        ensures
            next == self.spec_neighbor(Direction::North),
    {
        if self.y == 0 {
            None
        } else {
            Some(Position { x: self.x, y: self.y - 1 })
        }
    }

    fn north_east(&self) -> (next: Option<Self>)
        requires
            self.valid(),
        ensures
            next == self.spec_neighbor(Direction::NorthEast),
    {
        match self.north() {
            Some(p) => p.east(),
            None => None,
        }
    }

    fn north_west(&self) -> (next: Option<Self>)
        requires
            self.valid(),
        ensures
            next == self.spec_neighbor(Direction::NorthWest),
    {
        match self.north() {
            Some(p) => p.west(),
            None => None,
        }
    }

    fn south(&self) -> (next: Option<Self>)
        requires
            self.valid(),
        ensures
            next == self.spec_neighbor(Direction::South),
    {
        if self.y == 7 {
            None
        } else {
            Some(Position { x: self.x, y: self.y + 1 })
        }
    }

    fn south_east(&self) -> (next: Option<Self>)
        requires
            self.valid(),
        ensures
            next == self.spec_neighbor(Direction::SouthEast),
    {
        match self.south() {
            Some(p) => p.east(),
            None => None,
        }
    }

    fn east(&self) -> (next: Option<Self>)
        requires
            self.valid(),
        ensures
            next == self.spec_neighbor(Direction::East),
    {
        if self.x == 7 {
            None
        } else {
            Some(Position { x: self.x + 1, y: self.y })
        }
    }

    fn west(&self) -> (next: Option<Self>)
        requires
            self.valid(),
        ensures
            next == self.spec_neighbor(Direction::West),
    {
        if self.x == 0 {
            None
        } else {
            Some(Position { x: self.x - 1, y: self.y })
        }
    }

    fn south_west(&self) -> (next: Option<Self>)
        requires
            self.valid(),
        ensures
            next == self.spec_neighbor(Direction::SouthWest),
    {
        match self.south() {
            Some(p) => p.west(),
            None => None,
        }
    }

    /// The cell opposite this one through the centre of the board.
    #[verifier::when_used_as_spec(spec_rotate)]
    pub fn rotate(self) -> (turned: Self)
        requires
            self.valid(),
        ensures
            turned == self.spec_rotate(),
            turned.valid(),
    {
        Position { x: 7 - self.x, y: 7 - self.y }
    }

    /// The mirror image of this cell in the main diagonal.
    #[verifier::when_used_as_spec(spec_flip)]
    pub fn flip(self) -> (mirrored: Self)
        ensures
            mirrored == self.spec_flip(),
    {
        Position { x: self.y, y: self.x }
    }
}

/// Hands out the cells of the board in scanning order.
#[derive(Debug)]
pub struct PositionIter {
    index: usize,
}

impl PositionIter {
    #[verifier::type_invariant]
    spec fn bounded(self) -> bool {
        self.index <= CELLS
    }

    /// How many cells have been handed out.
    pub closed spec fn done(self) -> nat {
        self.index as nat
    }

    /// An iterator that has handed out nothing yet.
    pub fn new() -> (iter: Self)
        ensures
            iter.done() == 0,
    {
        PositionIter { index: 0 }
    }

    /// The next cell in scanning order, or `None` once all 64 have been
    /// handed out.
    pub fn next(&mut self) -> (item: Option<Position>)
        ensures
            old(self).done() <= CELLS,
            old(self).done() < CELLS ==> item == Some(Position::nth(old(self).done() as int))
                && final(self).done() == old(self).done() + 1,
            old(self).done() == CELLS ==> item is None && final(self).done() == CELLS,
    {
        proof {
            use_type_invariant(&*self);
        }
        if self.index >= CELLS {
            return None;
        }
        let x = self.index % 8;
        let y = self.index / 8;
        let position = Position { x, y };
        self.index += 1;
        Some(position)
    }

    /// Skips `n` cells and hands out the one after them; `None`, with the
    /// iterator used up, where fewer than `n + 1` cells are left.
    pub fn nth(&mut self, n: usize) -> (item: Option<Position>)
        ensures
            old(self).done() <= CELLS,
            old(self).done() + n < CELLS ==> item == Some(
                Position::nth(old(self).done() + n),
            ) && final(self).done() == old(self).done() + n + 1,
            old(self).done() + n >= CELLS ==> item is None && final(self).done() == CELLS,
    {
        proof {
            use_type_invariant(&*self);
        }
        if n >= CELLS - self.index {
            self.index = CELLS;
            None
        } else {
            self.index += n;
            self.next()
        }
    }

    /// The last cell that the iterator would hand out: the south-east corner,
    /// unless it is used up.
    pub fn last(self) -> (item: Option<Position>)
        ensures
            self.done() <= CELLS,
            self.done() < CELLS ==> item == Some(Position::nth(63)),
            self.done() == CELLS ==> item is None,
    {
        proof {
            use_type_invariant(&self);
        }
        if self.index >= CELLS {
            None
        } else {
            Some(Position { x: 7, y: 7 })
        }
    }
}

} // verus!
