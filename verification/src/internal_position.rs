//! A cell by column and row, both counted from 0.

use vstd::prelude::*;
use crate::direction::Direction;
use crate::position::Position;
use crate::transcript::column_of;
use crate::transcript_position::TranscriptPosition;

verus! {

/// A cell by column and row, both counted from 0.
#[derive(Clone, Copy, Debug, PartialEq, Hash, Eq, Structural)]
pub struct InternalPosition {
    pub x: usize,
    pub y: usize,
}

impl InternalPosition {
    /// Whether the cell lies on the board.
    pub open spec fn valid(self) -> bool {
        self.x <= 7 && self.y <= 7
    }

    /// The same cell as a position of the board.
    pub open spec fn position(self) -> Position {
        Position { x: self.x, y: self.y }
    }

    /// The cell that a letter and a number name.
    pub open spec fn spec_from(t: TranscriptPosition) -> InternalPosition {
        InternalPosition { x: column_of(t.x)->Some_0, y: (t.y - 1) as usize }
    }

    /// The cell one step away in direction `d`, if the board has one.
    pub open spec fn spec_direction(self, d: Direction) -> Option<InternalPosition> {
        match self.position().spec_neighbor(d) {
            Some(p) => Some(InternalPosition { x: p.x, y: p.y }),
            None => None,
        }
    }

    /// The adjacent cell in direction `d`, or `None` at the edge.
    pub fn direction(&self, d: &Direction) -> (next: Option<Self>)
        requires
            self.valid(),
        ensures
            next == self.spec_direction(*d),
    {
        match d {
            Direction::North => self.north(),
            Direction::East => self.east(),
            Direction::South => self.south(),
            Direction::West => self.west(),
            Direction::NorthEast => match self.north() {
                Some(p) => p.east(),
                None => None,
            },
            Direction::SouthEast => match self.south() {
                Some(p) => p.east(),
                None => None,
            },
            Direction::SouthWest => match self.south() {
                Some(p) => p.west(),
                None => None,
            },
            Direction::NorthWest => match self.north() {
                Some(p) => p.west(),
                None => None,
            },
        }
    }

    fn north(&self) -> (next: Option<Self>)
        requires
            self.valid(),
        ensures
            next == self.spec_direction(Direction::North),
    {
        if self.y == 0 {
            None
        } else {
            Some(InternalPosition { x: self.x, y: self.y - 1 })
        }
    }

    fn south(&self) -> (next: Option<Self>)
        requires
            self.valid(),
        ensures
            next == self.spec_direction(Direction::South),
    {
        if self.y == 7 {
            None
        } else {
            Some(InternalPosition { x: self.x, y: self.y + 1 })
        }
    }

    fn east(&self) -> (next: Option<Self>)
        requires
            self.valid(),
        ensures
            next == self.spec_direction(Direction::East),
    {
        if self.x == 7 {
            None
        } else {
            Some(InternalPosition { x: self.x + 1, y: self.y })
        }
    }

    fn west(&self) -> (next: Option<Self>)
        requires
            self.valid(),
        ensures
            next == self.spec_direction(Direction::West),
    {
        if self.x == 0 {
            None
        } else {
            Some(InternalPosition { x: self.x - 1, y: self.y })
        }
    }

    /// The cell that a letter and a number name, counted from 0.
    pub fn from_transcript(t: TranscriptPosition) -> (cell: Self)
        requires
            t.valid(),
        ensures
            cell == InternalPosition::spec_from(t),
            cell.valid(),
    {
        let x: usize = match t.x {
            'A' => 0,
            'B' => 1,
            'C' => 2,
            'D' => 3,
            'E' => 4,
            'F' => 5,
            'G' => 6,
            _ => 7,
        };
        InternalPosition { x, y: t.y - 1 }
    }
}

/// Naming a cell and reading the name gives the cell back.
pub proof fn lemma_named_and_read(i: InternalPosition)
    requires
        i.valid(),
    ensures
        TranscriptPosition::spec_from(i).valid(),
        InternalPosition::spec_from(TranscriptPosition::spec_from(i)) == i,
{
}

/// Reading a name and naming the cell gives the name back.
pub proof fn lemma_read_and_named(t: TranscriptPosition)
    requires
        t.valid(),
    ensures
        InternalPosition::spec_from(t).valid(),
        TranscriptPosition::spec_from(InternalPosition::spec_from(t)) == t,
{
}

} // verus!
