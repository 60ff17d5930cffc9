//! A cell as a transcript names it: the letter of its column and the number
//! of its row, counted from 1.

use vstd::prelude::*;
use crate::internal_position::InternalPosition;
use crate::text::{decimal, decimal_text, push_char};
use crate::transcript::{column_letter, column_of};

verus! {

/// A cell by the letter of its column and the number of its row. The first
/// cell is (A, 1), the last (H, 8).
#[derive(Clone, Copy, Debug, PartialEq, Eq, Structural)]
pub struct TranscriptPosition {
    pub x: char,
    pub y: usize,
}

impl TranscriptPosition {
    /// Whether the letter and the number name a cell of the board.
    pub open spec fn valid(self) -> bool {
        column_of(self.x) is Some && 1 <= self.y <= 8
    }

    /// The cell that counts its column and row from 0.
    pub open spec fn spec_from(i: InternalPosition) -> TranscriptPosition {
        TranscriptPosition { x: column_letter(i.x), y: (i.y + 1) as usize }
    }

    /// The text of the cell: the letter, then the number.
    pub fn format(&self) -> (out: String)
        ensures
            out@ == seq![self.x] + decimal_text(self.y as nat),
    {
        let mut out = String::new();
        push_char(&mut out, self.x);
        out.append(decimal(self.y).as_str());
        out
    }

    /// The name of a cell that is given by column and row, both counted
    /// from 0.
    pub fn from_internal(i: InternalPosition) -> (named: Self)
        requires
            i.valid(),
        ensures
            named == TranscriptPosition::spec_from(i),
            named.valid(),
    {
        let x = match i.x {
            0 => 'A',
            1 => 'B',
            2 => 'C',
            3 => 'D',
            4 => 'E',
            5 => 'F',
            6 => 'G',
            _ => 'H',
        };
        TranscriptPosition { x, y: i.y + 1 }
    }
}

} // verus!
