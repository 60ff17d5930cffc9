//! The rules of play, as mathematics: which disks a move turns over, which
//! moves are legal, and what a move does to the grid.
//!
//! A grid is a `Seq<PositionState>` of 64 cells in scanning order, as
//! [`Board`](crate::board::Board) shows itself.

use vstd::prelude::*;
use crate::board::cell;
use crate::direction::Direction;
use crate::disk::Disk;
use crate::position::{on_board, Position, PositionState};

verus! {

/// A legal move as a mathematical value: the cell on which the disk is laid
/// and the disks that it turns over.
pub struct ValidMoveView {
    pub position: Position,
    pub affected: Seq<Position>,
}

impl ValidMoveView {
    /// Whether the move's cell and all the disks it names lie on the board.
    pub open spec fn in_bounds(self) -> bool {
        &&& self.position.valid()
        &&& forall|i: int| 0 <= i < self.affected.len() ==> (#[trigger] self.affected[i]).valid()
    }
}

/// The number of cells from column `x`, row `y` to the edge of the board in
/// direction `d`, that cell included.
pub open spec fn room(x: int, y: int, d: Direction) -> int {
    if d.dx() > 0 {
        8 - x
    } else if d.dx() < 0 {
        x + 1
    } else if d.dy() > 0 {
        8 - y
    } else {
        y + 1
    }
}

/// The unbroken line of the opponent's disks that starts in column `x`, row
/// `y` and runs in direction `d`, seen by the player of colour `disk`.
pub open spec fn run(cells: Seq<PositionState>, x: int, y: int, d: Direction, disk: Disk) -> Seq<
    Position,
>
    decreases room(x, y, d),
{
    if on_board(x, y) && cell(cells, x, y) == PositionState::of(disk.spec_opposite()) {
        seq![Position::at(x, y)] + run(cells, x + d.dx(), y + d.dy(), d, disk)
    } else {
        Seq::empty()
    }
}

/// Whether the line of the opponent's disks that starts in column `x`, row
/// `y` and runs in direction `d` ends on a disk of the player's own colour.
pub open spec fn closes(cells: Seq<PositionState>, x: int, y: int, d: Direction, disk: Disk) -> bool
    decreases room(x, y, d),
{
    on_board(x, y) && (cell(cells, x, y) == PositionState::of(disk) || (cell(cells, x, y)
        == PositionState::of(disk.spec_opposite()) && closes(
        cells,
        x + d.dx(),
        y + d.dy(),
        d,
        disk,
    )))
}

/// The disks that a disk of colour `disk` laid on `p` turns over in
/// direction `d`: the opponent's disks between `p` and the nearest disk of
/// the player's own colour, if nothing but them lies between.
pub open spec fn captures(cells: Seq<PositionState>, p: Position, d: Direction, disk: Disk) -> Seq<
    Position,
> {
    if closes(cells, p.x + d.dx(), p.y + d.dy(), d, disk) {
        run(cells, p.x + d.dx(), p.y + d.dy(), d, disk)
    } else {
        Seq::empty()
    }
}

/// The disks turned over in the first `n` directions, clockwise from north.
pub open spec fn flips_upto(cells: Seq<PositionState>, p: Position, disk: Disk, n: int) -> Seq<
    Position,
>
    decreases n,
{
    if n <= 0 {
        Seq::empty()
    } else {
        flips_upto(cells, p, disk, n - 1) + captures(cells, p, Direction::spec_nth(n - 1), disk)
    }
}

/// All the disks that a disk of colour `disk` laid on `p` turns over.
pub open spec fn flips(cells: Seq<PositionState>, p: Position, disk: Disk) -> Seq<Position> {
    flips_upto(cells, p, disk, 8)
}

/// The move that the player of colour `disk` makes by laying a disk on `p`,
/// if that is legal: the cell must be free, and at least one disk must be
/// turned over.
pub open spec fn validate(cells: Seq<PositionState>, p: Position, disk: Disk) -> Option<
    ValidMoveView,
> {
    if p.valid() && cell(cells, p.x as int, p.y as int) == PositionState::Empty && flips(
        cells,
        p,
        disk,
    ).len() > 0 {
        Some(ValidMoveView { position: p, affected: flips(cells, p, disk) })
    } else {
        None
    }
}

/// Whether `m` is a legal move for the player of colour `disk`.
pub open spec fn legal(cells: Seq<PositionState>, m: ValidMoveView, disk: Disk) -> bool {
    validate(cells, m.position, disk) == Some(m)
}

/// The legal moves on the cells from the `lo`-th up to, but not including,
/// the `hi`-th in scanning order.
pub open spec fn moves_between(cells: Seq<PositionState>, disk: Disk, lo: int, hi: int) -> Seq<
    ValidMoveView,
>
    decreases hi - lo,
{
    if hi <= lo {
        Seq::empty()
    } else {
        match validate(cells, Position::nth(hi - 1), disk) {
            Some(m) => moves_between(cells, disk, lo, hi - 1).push(m),
            None => moves_between(cells, disk, lo, hi - 1),
        }
    }
}

/// All the legal moves of the player of colour `disk`, in scanning order.
pub open spec fn legal_moves(cells: Seq<PositionState>, disk: Disk) -> Seq<ValidMoveView> {
    moves_between(cells, disk, 0, 64)
}

/// Whether play has ended: neither player has a legal move.
pub open spec fn complete(cells: Seq<PositionState>) -> bool {
    legal_moves(cells, Disk::Dark).len() == 0 && legal_moves(cells, Disk::Light).len() == 0
}

/// The grid with the disks on the given cells turned over, one after the
/// other.
pub open spec fn flip_all(cells: Seq<PositionState>, affected: Seq<Position>) -> Seq<PositionState>
    decreases affected.len(),
{
    if affected.len() == 0 {
        cells
    } else {
        let p = affected.last();
        let before = flip_all(cells, affected.drop_last());
        before.update(p.index(), before[p.index()].spec_opposite())
    }
}

/// The grid after the player of colour `disk` has made the move `m`: a disk
/// of that colour lies on the move's cell, and the affected disks are turned
/// over.
pub open spec fn apply(cells: Seq<PositionState>, m: ValidMoveView, disk: Disk) -> Seq<
    PositionState,
> {
    flip_all(cells.update(m.position.index(), PositionState::of(disk)), m.affected)
}

/// The number of cells among the first `n` that hold `state`.
pub open spec fn count_upto(cells: Seq<PositionState>, state: PositionState, n: int) -> nat
    decreases n,
{
    if n <= 0 {
        0
    } else {
        count_upto(cells, state, n - 1) + if cells[n - 1] == state {
            1nat
        } else {
            0nat
        }
    }
}

/// The number of cells of the grid that hold `state`.
pub open spec fn count(cells: Seq<PositionState>, state: PositionState) -> nat {
    count_upto(cells, state, 64)
}

/// The number of free cells.
pub open spec fn empties(cells: Seq<PositionState>) -> nat {
    count(cells, PositionState::Empty)
}

/// Every disk of a line lies on the board and belongs to the opponent.
pub proof fn lemma_run(cells: Seq<PositionState>, x: int, y: int, d: Direction, disk: Disk)
    ensures
        forall|i: int|
            0 <= i < run(cells, x, y, d, disk).len() ==> {
                let p = #[trigger] run(cells, x, y, d, disk)[i];
                p.valid() && cells[p.index()] == PositionState::of(disk.spec_opposite())
            },
    decreases room(x, y, d),
{
    if on_board(x, y) && cell(cells, x, y) == PositionState::of(disk.spec_opposite()) {
        lemma_run(cells, x + d.dx(), y + d.dy(), d, disk);
        let head = seq![Position::at(x, y)];
        let tail = run(cells, x + d.dx(), y + d.dy(), d, disk);
        assert forall|i: int| 0 <= i < run(cells, x, y, d, disk).len() implies {
            let p = #[trigger] run(cells, x, y, d, disk)[i];
            p.valid() && cells[p.index()] == PositionState::of(disk.spec_opposite())
        } by {
            if i > 0 {
                assert(run(cells, x, y, d, disk)[i] == tail[i - 1]);
            }
        }
    }
}

/// Every disk that a move turns over lies on the board and belongs to the
/// opponent.
pub proof fn lemma_flips(cells: Seq<PositionState>, p: Position, disk: Disk, n: int)
    ensures
        forall|i: int|
            0 <= i < flips_upto(cells, p, disk, n).len() ==> {
                let q = #[trigger] flips_upto(cells, p, disk, n)[i];
                q.valid() && cells[q.index()] == PositionState::of(disk.spec_opposite())
            },
    decreases n,
{
    if n > 0 {
        lemma_flips(cells, p, disk, n - 1);
        let d = Direction::spec_nth(n - 1);
        lemma_run(cells, p.x + d.dx(), p.y + d.dy(), d, disk);
        let before = flips_upto(cells, p, disk, n - 1);
        let more = captures(cells, p, d, disk);
        assert forall|i: int| 0 <= i < flips_upto(cells, p, disk, n).len() implies {
            let q = #[trigger] flips_upto(cells, p, disk, n)[i];
            q.valid() && cells[q.index()] == PositionState::of(disk.spec_opposite())
        } by {
            if i < before.len() {
                assert(flips_upto(cells, p, disk, n)[i] == before[i]);
            } else {
                assert(flips_upto(cells, p, disk, n)[i] == more[i - before.len()]);
            }
        }
    }
}

/// A legal move lays its disk on a free cell of the board and turns over at
/// least one disk; all the disks it turns over lie on the board and belong
/// to the opponent.
pub proof fn lemma_legal(cells: Seq<PositionState>, m: ValidMoveView, disk: Disk)
    requires
        legal(cells, m, disk),
    ensures
        m.in_bounds(),
        cells[m.position.index()] == PositionState::Empty,
        m.affected.len() > 0,
        forall|i: int|
            0 <= i < m.affected.len() ==> cells[(#[trigger] m.affected[i]).index()]
                == PositionState::of(disk.spec_opposite()),
{
    lemma_flips(cells, m.position, disk, 8);
}

/// The moves listed for a stretch of cells are the moves listed for its
/// first part followed by those listed for the rest.
pub proof fn lemma_moves_split(cells: Seq<PositionState>, disk: Disk, lo: int, mid: int, hi: int)
    requires
        lo <= mid <= hi,
    ensures
        moves_between(cells, disk, lo, hi) == moves_between(cells, disk, lo, mid) + moves_between(
            cells,
            disk,
            mid,
            hi,
        ),
    decreases hi - mid,
{
    if mid < hi {
        lemma_moves_split(cells, disk, lo, mid, hi - 1);
        assert(moves_between(cells, disk, lo, hi) =~= moves_between(cells, disk, lo, mid)
            + moves_between(cells, disk, mid, hi));
    } else {
        assert(moves_between(cells, disk, lo, hi) =~= moves_between(cells, disk, lo, mid)
            + moves_between(cells, disk, mid, hi));
    }
}

/// Each move listed for a stretch of cells is legal.
pub proof fn lemma_moves_are_legal(cells: Seq<PositionState>, disk: Disk, lo: int, hi: int)
    requires
        0 <= lo,
    ensures
        forall|i: int|
            0 <= i < moves_between(cells, disk, lo, hi).len() ==> legal(
                cells,
                #[trigger] moves_between(cells, disk, lo, hi)[i],
                disk,
            ),
    decreases hi - lo,
{
    if lo < hi {
        lemma_moves_are_legal(cells, disk, lo, hi - 1);
        let before = moves_between(cells, disk, lo, hi - 1);
        assert forall|i: int| 0 <= i < moves_between(cells, disk, lo, hi).len() implies legal(
            cells,
            #[trigger] moves_between(cells, disk, lo, hi)[i],
            disk,
        ) by {
            if i < before.len() {
                assert(moves_between(cells, disk, lo, hi)[i] == before[i]);
            } else {
                let m = validate(cells, Position::nth(hi - 1), disk)->Some_0;
                assert(moves_between(cells, disk, lo, hi)[i] == m);
            }
        }
    }
}

/// No move is listed for a stretch of cells exactly if no cell of it allows
/// one.
pub proof fn lemma_no_moves(cells: Seq<PositionState>, disk: Disk, lo: int, hi: int)
    ensures
        moves_between(cells, disk, lo, hi).len() == 0 <==> forall|k: int|
            lo <= k < hi ==> (#[trigger] validate(cells, Position::nth(k), disk)) is None,
    decreases hi - lo,
{
    if lo < hi {
        lemma_no_moves(cells, disk, lo, hi - 1);
        if moves_between(cells, disk, lo, hi).len() == 0 {
            assert(validate(cells, Position::nth(hi - 1), disk) is None);
            assert forall|k: int| lo <= k < hi implies (#[trigger] validate(
                cells,
                Position::nth(k),
                disk,
            )) is None by {}
        }
    }
}

/// Every legal move is listed among the legal moves.
pub proof fn lemma_legal_is_listed(cells: Seq<PositionState>, m: ValidMoveView, disk: Disk)
    requires
        legal(cells, m, disk),
    ensures
        legal_moves(cells, disk).contains(m),
{
    let k = m.position.index();
    assert(Position::nth(k) == m.position);
    lemma_moves_split(cells, disk, 0, k + 1, 64);
    let upto = moves_between(cells, disk, 0, k + 1);
    assert(upto.last() == m);
    assert(legal_moves(cells, disk)[upto.len() - 1] == m);
}

/// What the legal moves are like: each lays a disk on a free cell of the
/// board and turns over at least one disk of the opponent.
pub proof fn lemma_legal_moves(cells: Seq<PositionState>, disk: Disk)
    ensures
        forall|i: int|
            0 <= i < legal_moves(cells, disk).len() ==> {
                let m = #[trigger] legal_moves(cells, disk)[i];
                &&& legal(cells, m, disk)
                &&& m.in_bounds()
                &&& cells[m.position.index()] == PositionState::Empty
                &&& m.affected.len() > 0
            },
{
    lemma_moves_are_legal(cells, disk, 0, 64);
    assert forall|i: int| 0 <= i < legal_moves(cells, disk).len() implies {
        let m = #[trigger] legal_moves(cells, disk)[i];
        &&& legal(cells, m, disk)
        &&& m.in_bounds()
        &&& cells[m.position.index()] == PositionState::Empty
        &&& m.affected.len() > 0
    } by {
        lemma_legal(cells, legal_moves(cells, disk)[i], disk);
    }
}

/// Turning disks over frees no cell and fills none.
pub proof fn lemma_flip_all_keeps_free(cells: Seq<PositionState>, affected: Seq<Position>)
    requires
        cells.len() == 64,
        forall|i: int| 0 <= i < affected.len() ==> (#[trigger] affected[i]).valid(),
    ensures
        flip_all(cells, affected).len() == 64,
        forall|k: int|
            0 <= k < 64 ==> ((#[trigger] flip_all(cells, affected)[k]) == PositionState::Empty
                <==> cells[k] == PositionState::Empty),
    decreases affected.len(),
{
    if affected.len() > 0 {
        assert forall|i: int| 0 <= i < affected.drop_last().len() implies (
        #[trigger] affected.drop_last()[i]).valid() by {
            assert(affected.drop_last()[i] == affected[i]);
        }
        lemma_flip_all_keeps_free(cells, affected.drop_last());
        assert(affected.last().valid());
    }
}

/// Two grids that agree, cell by cell, on whether a cell holds `state` hold
/// it equally often.
pub proof fn lemma_count_agree(
    a: Seq<PositionState>,
    b: Seq<PositionState>,
    state: PositionState,
    n: int,
)
    requires
        forall|k: int| 0 <= k < n ==> ((#[trigger] a[k]) == state <==> b[k] == state),
    ensures
        count_upto(a, state, n) == count_upto(b, state, n),
    decreases n,
{
    if n > 0 {
        lemma_count_agree(a, b, state, n - 1);
        assert(a[n - 1] == state <==> b[n - 1] == state);
    }
}

/// A grid that differs from another only in that cell `at` has lost `state`
/// holds `state` once less.
pub proof fn lemma_count_one_less(
    a: Seq<PositionState>,
    b: Seq<PositionState>,
    state: PositionState,
    at: int,
    n: int,
)
    requires
        0 <= at < n,
        a[at] == state,
        b[at] != state,
        forall|k: int| 0 <= k < n && k != at ==> ((#[trigger] a[k]) == state <==> b[k] == state),
    ensures
        count_upto(a, state, n) == count_upto(b, state, n) + 1,
    decreases n,
{
    if at == n - 1 {
        lemma_count_agree(a, b, state, n - 1);
    } else {
        lemma_count_one_less(a, b, state, at, n - 1);
        assert(a[n - 1] == state <==> b[n - 1] == state);
    }
}

/// A move onto a free cell of the board leaves one free cell less.
pub proof fn lemma_apply_fills_one(cells: Seq<PositionState>, m: ValidMoveView, disk: Disk)
    requires
        cells.len() == 64,
        m.in_bounds(),
        cells[m.position.index()] == PositionState::Empty,
    ensures
        apply(cells, m, disk).len() == 64,
        empties(cells) == empties(apply(cells, m, disk)) + 1,
{
    let laid = cells.update(m.position.index(), PositionState::of(disk));
    lemma_flip_all_keeps_free(laid, m.affected);
    let after = apply(cells, m, disk);
    assert forall|k: int| 0 <= k < 64 && k != m.position.index() implies ((#[trigger] cells[k])
        == PositionState::Empty <==> after[k] == PositionState::Empty) by {
        assert(after[k] == PositionState::Empty <==> laid[k] == PositionState::Empty);
    }
    assert(after[m.position.index()] == PositionState::Empty <==> laid[m.position.index()]
        == PositionState::Empty);
    lemma_count_one_less(cells, after, PositionState::Empty, m.position.index(), 64);
}

/// No more cells hold a given state than the stretch has cells.
pub proof fn lemma_count_bound(cells: Seq<PositionState>, state: PositionState, n: int)
    requires
        0 <= n,
    ensures
        count_upto(cells, state, n) <= n,
    decreases n,
{
    if n > 0 {
        lemma_count_bound(cells, state, n - 1);
    }
}

/// In every direction, a move turns over at least the disks that it turns
/// over in that direction.
pub proof fn lemma_flips_cover(
    cells: Seq<PositionState>,
    p: Position,
    disk: Disk,
    i: int,
    n: int,
)
    requires
        0 <= i < n,
    ensures
        flips_upto(cells, p, disk, n).len() >= captures(
            cells,
            p,
            Direction::spec_nth(i),
            disk,
        ).len(),
    decreases n,
{
    if i < n - 1 {
        lemma_flips_cover(cells, p, disk, i, n - 1);
    }
}

/// The moves listed for a stretch of cells lie on cells of that stretch, in
/// scanning order: a move listed later lies on a later cell.
pub proof fn lemma_moves_in_order(cells: Seq<PositionState>, disk: Disk, lo: int, hi: int)
    requires
        0 <= lo,
        hi <= 64,
    ensures
        forall|i: int|
            0 <= i < moves_between(cells, disk, lo, hi).len() ==> lo <= (
            #[trigger] moves_between(cells, disk, lo, hi)[i]).position.index() < hi,
        forall|i: int, j: int|
            0 <= i < j < moves_between(cells, disk, lo, hi).len() ==> (#[trigger] moves_between(
                cells,
                disk,
                lo,
                hi,
            )[i]).position.index() < (#[trigger] moves_between(
                cells,
                disk,
                lo,
                hi,
            )[j]).position.index(),
    decreases hi - lo,
{
    if lo < hi {
        lemma_moves_in_order(cells, disk, lo, hi - 1);
        let before = moves_between(cells, disk, lo, hi - 1);
        let all = moves_between(cells, disk, lo, hi);
        assert(Position::nth(hi - 1).index() == hi - 1);
        assert forall|i: int| 0 <= i < all.len() implies lo <= (#[trigger] all[i]).position.index()
            < hi by {
            if i < before.len() {
                assert(all[i] == before[i]);
            }
        }
        assert forall|i: int, j: int| 0 <= i < j < all.len() implies (
        #[trigger] all[i]).position.index() < (#[trigger] all[j]).position.index() by {
            assert(all[i] == before[i]);
            if j < before.len() {
                assert(all[j] == before[j]);
            }
        }
    }
}

} // verus!
