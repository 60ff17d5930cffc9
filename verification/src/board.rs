//! The 8x8 grid of cells.

use vstd::prelude::*;
use crate::position::{on_board, PositionIter, PositionState};
use crate::text::{decimal, decimal_text, push_char};

verus! {

/// The largest column index.
pub const MAX_X: usize = 7;

/// The largest row index.
pub const MAX_Y: usize = 7;

/// The grid: eight columns of eight cells.
#[derive(Clone, Copy, Debug, PartialEq)]
pub struct Board {
    data: [[PositionState; 8]; 8],
}

impl View for Board {
    type V = Seq<PositionState>;

    /// The 64 cells in scanning order: the cell in column `x` of row `y` is
    /// entry `y * 8 + x`.
    closed spec fn view(&self) -> Seq<PositionState> {
        Seq::new(64, |i: int| self.data@[i % 8]@[i / 8])
    }
}

/// The cell in column `x` of row `y` of a grid given in scanning order.
pub open spec fn cell(cells: Seq<PositionState>, x: int, y: int) -> PositionState {
    cells[y * 8 + x]
}

/// The grid with nothing on it.
pub open spec fn empty_cells() -> Seq<PositionState> {
    Seq::new(64, |i: int| PositionState::Empty)
}

/// The line above the picture of a grid: the letters of the columns.
pub open spec fn heading() -> Seq<char> {
    seq![
        ' ',
        ' ',
        'a',
        ' ',
        'b',
        ' ',
        'c',
        ' ',
        'd',
        ' ',
        'e',
        ' ',
        'f',
        ' ',
        'g',
        ' ',
        'h',
    ]
}

/// The picture of one cell: a blank, then a mark for what the cell holds.
pub open spec fn cell_picture(state: PositionState) -> Seq<char> {
    match state {
        PositionState::Empty => seq![' ', '\u{e2}', '\u{20ac}', '\u{a2}'],
        PositionState::Dark => seq![' ', 'D'],
        PositionState::Light => seq![' ', 'L'],
    }
}

/// The picture of the first `n` cells of row `y`, behind a line break and
/// the number of the row, counted from 1.
pub open spec fn row_picture(cells: Seq<PositionState>, y: int, n: int) -> Seq<char>
    decreases n,
{
    if n <= 0 {
        seq!['\n'] + decimal_text((y + 1) as nat)
    } else {
        row_picture(cells, y, n - 1) + cell_picture(cell(cells, n - 1, y))
    }
}

/// The heading and the pictures of the first `n` rows.
pub open spec fn rows_picture(cells: Seq<PositionState>, n: int) -> Seq<char>
    decreases n,
{
    if n <= 0 {
        heading()
    } else {
        rows_picture(cells, n - 1) + row_picture(cells, n - 1, 8)
    }
}

/// The picture of a grid: the heading, the eight rows, and a line break.
pub open spec fn picture(cells: Seq<PositionState>) -> Seq<char> {
    rows_picture(cells, 8).push('\n')
}

/// The grid as it looks after half a turn.
pub open spec fn rotated_cells(cells: Seq<PositionState>) -> Seq<PositionState> {
    Seq::new(64, |i: int| cells[63 - i])
}

impl Board {
    /// Every board has 64 cells.
    pub broadcast proof fn lemma_len(self)
        ensures
            #[trigger] self@.len() == 64,
    {
    }

    /// A board with no disk on it.
    pub fn empty() -> (board: Self)
        ensures
            board@ == empty_cells(),
    {
        let board = Board { data: [[PositionState::Empty; 8]; 8] };
        assert(board@ =~= empty_cells());
        board
    }

    /// What the cell in column `x` of row `y` holds.
    pub fn get(&self, x: usize, y: usize) -> (state: PositionState)
        requires
            on_board(x as int, y as int),
        ensures
            state == cell(self@, x as int, y as int),
    {
        self.data[x][y]
    }

    /// Puts `ps` into the cell in column `x` of row `y`.
    pub fn set(&mut self, x: usize, y: usize, ps: PositionState)
        requires
            on_board(x as int, y as int),
        ensures
            final(self)@ == old(self)@.update(y * 8 + x, ps),
    {
        self.data[x][y] = ps;
        assert(self@ =~= old(self)@.update(y * 8 + x, ps));
    }

    /// Turns over the disk in column `x` of row `y` and returns the new state
    /// of the cell; an empty cell stays empty.
    pub fn flip(&mut self, x: usize, y: usize) -> (state: PositionState)
        requires
            on_board(x as int, y as int),
        ensures
            state == cell(old(self)@, x as int, y as int).spec_opposite(),
            final(self)@ == old(self)@.update(y * 8 + x, state),
    {
        let s = self.get(x, y).opposite();
        self.set(x, y, s);
        s
    }

    /// An iterator over the cells of the board, in scanning order.
    pub fn iter(&self) -> (cells: PositionIter)
        ensures
            cells.done() == 0,
    {
        PositionIter::new()
    }

    /// A picture of the board for a reader: a heading of column letters,
    /// then one line for each row.
    pub fn to_string(&self) -> (out: String)
        ensures
            out@ == picture(self@),
    {
        let mut output = String::from_str("  a b c d e f g h");
        proof {
            reveal_strlit("  a b c d e f g h");
            assert(output@ =~= heading());
        }
        let mut y: usize = 0;
        while y <= MAX_Y
            invariant
                y <= 8,
                output@ == rows_picture(self@, y as int),
            decreases 8 - y,
        {
            let ghost before = output@;
            push_char(&mut output, '\n');
            output.append(decimal(y + 1).as_str());
            assert(output@ =~= before + row_picture(self@, y as int, 0));
            let mut x: usize = 0;
            while x <= MAX_X
                invariant
                    x <= 8,
                    y < 8,
                    output@ == before + row_picture(self@, y as int, x as int),
                decreases 8 - x,
            {
                let ghost sofar = output@;
                match self.get(x, y) {
                    PositionState::Empty => {
                        push_char(&mut output, ' ');
                        push_char(&mut output, '\u{e2}');
                        push_char(&mut output, '\u{20ac}');
                        push_char(&mut output, '\u{a2}');
                        assert(output@ =~= sofar + cell_picture(PositionState::Empty));
                    },
                    PositionState::Dark => {
                        push_char(&mut output, ' ');
                        push_char(&mut output, 'D');
                        assert(output@ =~= sofar + cell_picture(PositionState::Dark));
                    },
                    PositionState::Light => {
                        push_char(&mut output, ' ');
                        push_char(&mut output, 'L');
                        assert(output@ =~= sofar + cell_picture(PositionState::Light));
                    },
                }
                assert(output@ =~= before + row_picture(self@, y as int, x + 1));
                x += 1;
            }
            y += 1;
        }
        push_char(&mut output, '\n');
        output
    }

    /// The board after half a turn: each disk lies on the cell opposite its
    /// own through the centre.
    pub fn to_rotated(&self) -> (turned: Self)
        ensures
            turned@ == rotated_cells(self@),
    {
        let mut positions = self.iter();
        let mut new_board = Board::empty();
        loop
            invariant
                positions.done() <= 64,
                forall|i: int|
                    0 <= i < positions.done() ==> new_board@[63 - i] == self@[i],
            ensures
                forall|i: int| 0 <= i < 64 ==> new_board@[63 - i] == self@[i],
            decreases 64 - positions.done(),
        {
            let ghost before = new_board@;
            let ghost k = positions.done() as int;
            match positions.next() {
                None => {
                    break ;
                },
                Some(p) => {
                    let state = self.get(p.x, p.y);
                    let rp = p.rotate();
                    new_board.set(rp.x, rp.y, state);
                    assert(rp.y * 8 + rp.x == 63 - k);
                },
            }
        }
        proof {
            new_board.lemma_len();
            assert forall|i: int| 0 <= i < 64 implies new_board@[i] == self@[63 - i] by {
                assert(new_board@[63 - (63 - i)] == self@[63 - i]);
            }
            assert(new_board@ =~= rotated_cells(self@));
        }
        new_board
    }
}

} // verus!
