//! A board together with the colour that is to move on it.

use vstd::prelude::*;
use crate::analyzer::MoveIterator;
use crate::board::{cell, empty_cells, Board};
use crate::disk::Disk;
use crate::position::{on_board, Position, PositionState, CELLS};
use crate::rules::legal_moves;

verus! {

/// What a cell of a grid holds.
pub type State = PositionState;

/// A board, and the colour of the player to move.
#[derive(Debug, PartialEq)]
pub struct Grid {
    pub turn: Disk,
    data: Board,
}

impl Clone for Grid {
    /// A second copy of the grid.
    fn clone(&self) -> (copy: Self)
        ensures
            copy == *self,
    {
        Grid { turn: self.turn, data: self.data }
    }
}

impl Grid {
    /// The 64 cells of the grid in scanning order.
    pub closed spec fn cells(self) -> Seq<PositionState> {
        self.data@
    }

    /// The colour of the player to move.
    pub closed spec fn mover(self) -> Disk {
        self.turn
    }

    /// A grid with no disk on it, dark to move.
    pub fn new() -> (grid: Self)
        ensures
            grid.cells() == empty_cells(),
            grid.mover() == Disk::Dark,
    {
        Grid { turn: Disk::Dark, data: Board::empty() }
    }

    /// The board of the grid.
    pub fn board(&self) -> (board: &Board)
        ensures
            board@ == self.cells(),
    {
        &self.data
    }

    /// The colour of the player to move.
    pub fn turn(&self) -> (turn: Disk)
        ensures
            turn == self.mover(),
    {
        self.turn
    }

    /// What the cell in column `x` of row `y` holds.
    pub fn get(&self, x: usize, y: usize) -> (state: State)
        requires
            on_board(x as int, y as int),
        ensures
            state == cell(self.cells(), x as int, y as int),
    {
        self.data.get(x, y)
    }

    /// Puts `state` into the cell in column `x` of row `y`.
    pub fn set(&mut self, x: usize, y: usize, state: State)
        requires
            on_board(x as int, y as int),
        ensures
            final(self).cells() == old(self).cells().update(y * 8 + x, state),
            final(self).mover() == old(self).mover(),
    {
        self.data.set(x, y, state);
    }

    /// Turns over the disk in column `x` of row `y` and returns the new state
    /// of the cell; an empty cell stays empty.
    pub fn flip(&mut self, x: usize, y: usize) -> (state: State)
        requires
            on_board(x as int, y as int),
        ensures
            state == cell(old(self).cells(), x as int, y as int).spec_opposite(),
            final(self).cells() == old(self).cells().update(y * 8 + x, state),
            final(self).mover() == old(self).mover(),
    {
        let s = self.get(x, y).opposite();
        self.set(x, y, s);
        s
    }

    /// An iterator over the cells of the grid, in scanning order.
    pub fn iter(&self) -> (cells: GridIterator)
        ensures
            cells.done() == 0,
            cells.scanned() == *self,
    {
        GridIterator::new(self)
    }

    /// An iterator over the legal moves of the player to move.
    pub fn moves(&self) -> (moves: MoveIterator)
        ensures
            moves.remaining() == legal_moves(self.cells(), self.mover()),
    {
        MoveIterator::new(GridIterator::new(self))
    }
}

/// Hands out the cells of a grid in scanning order, and keeps a copy of the
/// grid at hand.
#[derive(Debug)]
pub struct GridIterator {
    index: usize,
    pub grid: Grid,
}

impl GridIterator {
    /// How many cells have been handed out.
    pub closed spec fn done(self) -> nat {
        self.index as nat
    }

    /// The grid whose cells are handed out.
    pub closed spec fn scanned(self) -> Grid {
        self.grid
    }

    /// An iterator that has handed out nothing yet.
    pub fn new(grid: &Grid) -> (iter: Self)
        ensures
            iter.done() == 0,
            iter.scanned() == *grid,
    {
        GridIterator { index: 0, grid: grid.clone() }
    }

    /// The grid whose cells are handed out.
    pub fn grid(&self) -> (grid: &Grid)
        ensures
            *grid == self.scanned(),
    {
        &self.grid
    }

    /// The next cell in scanning order, or `None` once all 64 have been
    /// handed out.
    pub fn next(&mut self) -> (item: Option<Position>)
        ensures
            final(self).scanned() == old(self).scanned(),
            old(self).done() < CELLS ==> item == Some(Position::nth(old(self).done() as int))
                && final(self).done() == old(self).done() + 1,
            old(self).done() >= CELLS ==> item is None && final(self).done() == old(self).done(),
    {
        // check to see if our index is out of bounds.
        if self.index >= CELLS {
            return None;
        }
        // convert index into X and Y coordinates.
        let x = self.index % 8;
        let y = self.index / 8;
        let position = Position { x, y };
        self.index += 1;
        Some(position)
    }
}

} // verus!
