//! Finding the legal moves on a grid.

use vstd::prelude::*;
use crate::disk::Disk;
use crate::game::{view_of, Game};
use crate::grid::{Grid, GridIterator};
use crate::position::Position;
use crate::rules::{lemma_moves_split, moves_between, validate, ValidMoveView};

pub use crate::game::ValidMove;

verus! {

/// Finds the legal moves of the player to move on a grid, cell by cell.
#[derive(Debug)]
pub struct MoveIterator {
    grid_iterator: GridIterator,
}

impl MoveIterator {
    /// The legal moves that the iterator has yet to hand out, in scanning
    /// order.
    pub closed spec fn remaining(self) -> Seq<ValidMoveView> {
        moves_between(
            self.grid_iterator.scanned().cells(),
            self.grid_iterator.scanned().mover(),
            self.grid_iterator.done() as int,
            64,
        )
    }

    /// An iterator over the legal moves that lie on the cells that
    /// `grid_iterator` has yet to hand out.
    pub fn new(grid_iterator: GridIterator) -> (moves: Self)
        ensures
            moves.remaining() == moves_between(
                grid_iterator.scanned().cells(),
                grid_iterator.scanned().mover(),
                grid_iterator.done() as int,
                64,
            ),
    {
        MoveIterator { grid_iterator }
    }

    /// The next legal move in scanning order, or `None` when there is no
    /// other.
    pub fn next(&mut self) -> (item: Option<ValidMove>)
        ensures
            old(self).remaining().len() == 0 ==> item is None && final(self).remaining().len()
                == 0,
            old(self).remaining().len() > 0 ==> view_of(item) == Some(old(self).remaining()[0])
                && final(self).remaining() == old(self).remaining().skip(1),
    {
        let ghost grid = self.grid_iterator.scanned();
        let ghost lo = self.grid_iterator.done() as int;
        loop
            invariant
                self.grid_iterator.scanned() == grid,
                grid == old(self).grid_iterator.scanned(),
                lo == old(self).grid_iterator.done(),
                lo <= self.grid_iterator.done(),
                lo < 64 ==> self.grid_iterator.done() <= 64,
                moves_between(
                    grid.cells(),
                    grid.mover(),
                    lo,
                    self.grid_iterator.done() as int,
                ).len() == 0 || lo >= 64,
            decreases 64 - self.grid_iterator.done(),
        {
            let ghost k = self.grid_iterator.done() as int;
            match self.grid_iterator.next() {
                Some(position) => {
                    proof {
                        lemma_moves_split(grid.cells(), grid.mover(), lo, k, 64);
                        lemma_moves_split(grid.cells(), grid.mover(), k, k + 1, 64);
                        assert(moves_between(grid.cells(), grid.mover(), k, k).len() == 0);
                    }
                    let turn = self.grid_iterator.grid().turn();
                    match moves_for(self.grid_iterator.grid(), &position, &turn) {
                        Some(valid_move) => {
                            proof {
                                assert(moves_between(grid.cells(), grid.mover(), k, k + 1)
                                    =~= seq![valid_move@]);
                                assert(old(self).remaining() =~= seq![valid_move@]
                                    + self.remaining());
                                assert(self.remaining() =~= old(self).remaining().skip(1));
                            }
                            return Some(valid_move);
                        },
                        None => {
                            proof {
                                lemma_moves_split(grid.cells(), grid.mover(), lo, k, k + 1);
                            }
                            continue ;
                        },
                    }
                },
                None => {
                    proof {
                        if lo < 64 {
                            assert(k == 64);
                        }
                    }
                    return None;
                },
            }
        }
    }
}

/// Decides whether the player of colour `disk` may lay a disk on `position`
/// of the grid, and which disks that would turn over.
pub fn moves_for(grid: &Grid, position: &Position, disk: &Disk) -> (found: Option<ValidMove>)
    requires
        position.valid(),
    ensures
        view_of(found) == validate(grid.cells(), *position, *disk),
{
    Game::validate_move(grid.board(), position, *disk)
}

} // verus!
