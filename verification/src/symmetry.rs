//! The two mirrors of the board, and what they do to a game. The rules do
//! not tell one direction from another, and the opening position looks the
//! same after half a turn of the board and in a mirror along the main
//! diagonal. So a game seen after half a turn, or in the mirror, is a game
//! again.

use vstd::multiset::Multiset;
use vstd::prelude::*;
use crate::board::cell;
use crate::direction::Direction;
use crate::disk::Disk;
use crate::game::GameView;
use crate::position::{on_board, Position, PositionState};
use crate::reach::{lemma_reaches_through, lemma_step, reaches, step};
use crate::rules::{
    apply, captures, closes, complete, flip_all, flips, flips_upto, legal, legal_moves,
    lemma_flip_all_keeps_free, lemma_legal, lemma_no_moves, room, run, validate, ValidMoveView,
};
use crate::transcript::{
    flipped, lemma_symmetry_on_board, on_board_entries, rotated, Transcript,
};

verus! {

/// A way to look at the board that leaves the opening position as it is.
pub enum Symmetry {
    /// Half a turn of the board.
    Rotate,
    /// The mirror along the diagonal from the north-west to the south-east
    /// corner.
    Flip,
}

impl Symmetry {
    /// The column on which the cell in column `x` of row `y` is seen.
    pub open spec fn x(self, x: int, y: int) -> int {
        match self {
            Symmetry::Rotate => 7 - x,
            Symmetry::Flip => y,
        }
    }

    /// The row on which the cell in column `x` of row `y` is seen.
    pub open spec fn y(self, x: int, y: int) -> int {
        match self {
            Symmetry::Rotate => 7 - y,
            Symmetry::Flip => x,
        }
    }

    /// The cell on which a cell is seen.
    pub open spec fn position(self, p: Position) -> Position {
        match self {
            Symmetry::Rotate => p.spec_rotate(),
            Symmetry::Flip => p.spec_flip(),
        }
    }

    /// The place in scanning order on which the `i`-th cell is seen.
    pub open spec fn index(self, i: int) -> int {
        match self {
            Symmetry::Rotate => 63 - i,
            Symmetry::Flip => (i % 8) * 8 + i / 8,
        }
    }

    /// The direction in which a line that runs in direction `d` is seen to
    /// run.
    pub open spec fn direction(self, d: Direction) -> Direction {
        match self {
            Symmetry::Rotate => match d {
                Direction::North => Direction::South,
                Direction::NorthEast => Direction::SouthWest,
                Direction::East => Direction::West,
                Direction::SouthEast => Direction::NorthWest,
                Direction::South => Direction::North,
                Direction::SouthWest => Direction::NorthEast,
                Direction::West => Direction::East,
                Direction::NorthWest => Direction::SouthEast,
            },
            Symmetry::Flip => match d {
                Direction::North => Direction::West,
                Direction::NorthEast => Direction::SouthWest,
                Direction::East => Direction::South,
                Direction::SouthEast => Direction::SouthEast,
                Direction::South => Direction::East,
                Direction::SouthWest => Direction::NorthEast,
                Direction::West => Direction::North,
                Direction::NorthWest => Direction::NorthWest,
            },
        }
    }

    /// The grid as it is seen: each cell shows what lies on the cell that is
    /// seen on it.
    pub open spec fn cells(self, cells: Seq<PositionState>) -> Seq<PositionState> {
        Seq::new(64, |i: int| cells[self.index(i)])
    }

    /// A list of cells as it is seen.
    pub open spec fn positions(self, cells: Seq<Position>) -> Seq<Position> {
        cells.map_values(|p: Position| self.position(p))
    }
}

/// A cell of the board is seen on a cell of the board, and shows there, on
/// the grid as it is seen, what it holds.
pub proof fn lemma_seen_cell(s: Symmetry, cells: Seq<PositionState>, x: int, y: int)
    requires
        cells.len() == 64,
    ensures
        on_board(s.x(x, y), s.y(x, y)) <==> on_board(x, y),
        on_board(x, y) ==> cell(s.cells(cells), s.x(x, y), s.y(x, y)) == cell(cells, x, y),
        on_board(x, y) ==> Position::at(s.x(x, y), s.y(x, y)) == s.position(Position::at(x, y)),
        on_board(x, y) ==> s.index(y * 8 + x) == s.y(x, y) * 8 + s.x(x, y),
        on_board(x, y) ==> s.index(s.y(x, y) * 8 + s.x(x, y)) == y * 8 + x,
{
}

/// A step in a direction is seen as a step in the direction as it is seen.
pub proof fn lemma_seen_step(s: Symmetry, x: int, y: int, d: Direction)
    ensures
        s.x(x + d.dx(), y + d.dy()) == s.x(x, y) + s.direction(d).dx(),
        s.y(x + d.dx(), y + d.dy()) == s.y(x, y) + s.direction(d).dy(),
        s.direction(s.direction(d)) == d,
{
}

/// A line of the opponent's disks is seen as a line of the opponent's disks,
/// and ends on an own disk if it is seen to end on one.
pub proof fn lemma_seen_run(
    s: Symmetry,
    cells: Seq<PositionState>,
    x: int,
    y: int,
    d: Direction,
    disk: Disk,
)
    requires
        cells.len() == 64,
    ensures
        run(s.cells(cells), s.x(x, y), s.y(x, y), s.direction(d), disk) == s.positions(
            run(cells, x, y, d, disk),
        ),
        closes(s.cells(cells), s.x(x, y), s.y(x, y), s.direction(d), disk) == closes(
            cells,
            x,
            y,
            d,
            disk,
        ),
    decreases room(x, y, d),
{
    lemma_seen_cell(s, cells, x, y);
    lemma_seen_step(s, x, y, d);
    if on_board(x, y) {
        lemma_seen_run(s, cells, x + d.dx(), y + d.dy(), d, disk);
        let seen = run(s.cells(cells), s.x(x, y), s.y(x, y), s.direction(d), disk);
        let there = run(cells, x, y, d, disk);
        if cell(cells, x, y) == PositionState::of(disk.spec_opposite()) {
            let tail = run(cells, x + d.dx(), y + d.dy(), d, disk);
            assert(there == seq![Position::at(x, y)] + tail);
            assert(seen =~= s.positions(there));
        } else {
            assert(seen =~= s.positions(there));
        }
    } else {
        assert(run(s.cells(cells), s.x(x, y), s.y(x, y), s.direction(d), disk) =~= s.positions(
            run(cells, x, y, d, disk),
        ));
    }
}

/// The disks that a move turns over in one direction are seen as the disks
/// that the move as it is seen turns over in the direction as it is seen.
pub proof fn lemma_seen_captures(
    s: Symmetry,
    cells: Seq<PositionState>,
    p: Position,
    d: Direction,
    disk: Disk,
)
    requires
        cells.len() == 64,
        p.valid(),
    ensures
        captures(s.cells(cells), s.position(p), s.direction(d), disk) == s.positions(
            captures(cells, p, d, disk),
        ),
{
    lemma_seen_cell(s, cells, p.x as int, p.y as int);
    lemma_seen_step(s, p.x as int, p.y as int, d);
    lemma_seen_run(s, cells, p.x + d.dx(), p.y + d.dy(), d, disk);
    assert(s.position(p).x == s.x(p.x as int, p.y as int));
    assert(s.position(p).y == s.y(p.x as int, p.y as int));
    if !closes(cells, p.x + d.dx(), p.y + d.dy(), d, disk) {
        assert(s.positions(Seq::<Position>::empty()) =~= Seq::<Position>::empty());
    }
}

/// The disks that a move as it is seen turns over in the first `n`
/// directions, in no order: for each of these directions, the disks turned
/// over in the direction that is seen as it, as they are seen.
pub open spec fn seen_by_direction(
    s: Symmetry,
    cells: Seq<PositionState>,
    p: Position,
    disk: Disk,
    n: int,
) -> Multiset<Position>
    decreases n,
{
    if n <= 0 {
        Multiset::empty()
    } else {
        seen_by_direction(s, cells, p, disk, n - 1).add(
            s.positions(
                captures(cells, p, s.direction(Direction::spec_nth(n - 1)), disk),
            ).to_multiset(),
        )
    }
}

/// The disks that a move turns over in the first `n` directions, as they are
/// seen, in no order.
pub open spec fn seen_in_order(
    s: Symmetry,
    cells: Seq<PositionState>,
    p: Position,
    disk: Disk,
    n: int,
) -> Multiset<Position>
    decreases n,
{
    if n <= 0 {
        Multiset::empty()
    } else {
        seen_in_order(s, cells, p, disk, n - 1).add(
            s.positions(captures(cells, p, Direction::spec_nth(n - 1), disk)).to_multiset(),
        )
    }
}

/// What the move as it is seen turns over in the first `n` directions.
pub proof fn lemma_seen_flips_by_direction(
    s: Symmetry,
    cells: Seq<PositionState>,
    p: Position,
    disk: Disk,
    n: int,
)
    requires
        cells.len() == 64,
        p.valid(),
    ensures
        flips_upto(s.cells(cells), s.position(p), disk, n).to_multiset() == seen_by_direction(
            s,
            cells,
            p,
            disk,
            n,
        ),
    decreases n,
{
    if n > 0 {
        lemma_seen_flips_by_direction(s, cells, p, disk, n - 1);
        let d = Direction::spec_nth(n - 1);
        lemma_seen_captures(s, cells, p, s.direction(d), disk);
        lemma_seen_step(s, 0, 0, d);
        vstd::seq_lib::lemma_multiset_commutative(
            flips_upto(s.cells(cells), s.position(p), disk, n - 1),
            captures(s.cells(cells), s.position(p), d, disk),
        );
    } else {
        Seq::<Position>::empty().to_multiset_ensures();
        vstd::seq_lib::to_multiset_len(Seq::<Position>::empty());
        assert(Seq::<Position>::empty().to_multiset() =~= Multiset::<Position>::empty());
    }
}

/// What the move turns over in the first `n` directions, as it is seen.
pub proof fn lemma_seen_flips_in_order(
    s: Symmetry,
    cells: Seq<PositionState>,
    p: Position,
    disk: Disk,
    n: int,
)
    ensures
        s.positions(flips_upto(cells, p, disk, n)).to_multiset() == seen_in_order(
            s,
            cells,
            p,
            disk,
            n,
        ),
    decreases n,
{
    if n > 0 {
        lemma_seen_flips_in_order(s, cells, p, disk, n - 1);
        let before = flips_upto(cells, p, disk, n - 1);
        let more = captures(cells, p, Direction::spec_nth(n - 1), disk);
        assert(s.positions(before + more) =~= s.positions(before) + s.positions(more));
        vstd::seq_lib::lemma_multiset_commutative(s.positions(before), s.positions(more));
    } else {
        assert(s.positions(Seq::<Position>::empty()) =~= Seq::<Position>::empty());
        Seq::<Position>::empty().to_multiset_ensures();
        vstd::seq_lib::to_multiset_len(Seq::<Position>::empty());
        assert(Seq::<Position>::empty().to_multiset() =~= Multiset::<Position>::empty());
    }
}

/// Taken over all eight directions, it makes no difference in which order
/// the directions are walked.
pub proof fn lemma_seen_all_directions(
    s: Symmetry,
    cells: Seq<PositionState>,
    p: Position,
    disk: Disk,
)
    ensures
        seen_by_direction(s, cells, p, disk, 8) == seen_in_order(s, cells, p, disk, 8),
{
    reveal_with_fuel(seen_by_direction, 9);
    reveal_with_fuel(seen_in_order, 9);
    assert(seen_by_direction(s, cells, p, disk, 8) =~= seen_in_order(s, cells, p, disk, 8));
}

/// The disks that a move as it is seen turns over are the disks that the
/// move turns over, as they are seen; the order apart.
pub proof fn lemma_seen_flips(s: Symmetry, cells: Seq<PositionState>, p: Position, disk: Disk)
    requires
        cells.len() == 64,
        p.valid(),
    ensures
        flips(s.cells(cells), s.position(p), disk).to_multiset() == s.positions(
            flips(cells, p, disk),
        ).to_multiset(),
        flips(s.cells(cells), s.position(p), disk).len() == flips(cells, p, disk).len(),
{
    lemma_seen_flips_by_direction(s, cells, p, disk, 8);
    lemma_seen_flips_in_order(s, cells, p, disk, 8);
    lemma_seen_all_directions(s, cells, p, disk);
    vstd::seq_lib::to_multiset_len(flips(s.cells(cells), s.position(p), disk));
    vstd::seq_lib::to_multiset_len(s.positions(flips(cells, p, disk)));
}

/// Seen twice over, a place in scanning order is where it was.
pub proof fn lemma_seen_index(s: Symmetry, i: int)
    requires
        0 <= i < 64,
    ensures
        0 <= s.index(i) < 64,
        s.index(s.index(i)) == i,
        s.position(Position::nth(i)) == Position::nth(s.index(i)),
        Position::nth(i).valid(),
        Position::nth(i).index() == i,
{
}

/// Seen twice over, a grid is what it was.
pub proof fn lemma_seen_twice(s: Symmetry, cells: Seq<PositionState>)
    requires
        cells.len() == 64,
    ensures
        s.cells(s.cells(cells)) == cells,
{
    assert forall|i: int| 0 <= i < 64 implies s.cells(s.cells(cells))[i] == cells[i] by {
        lemma_seen_index(s, i);
    }
    assert(s.cells(s.cells(cells)) =~= cells);
}

/// The grid with the disk on one cell turned over.
pub open spec fn flip_one(cells: Seq<PositionState>, p: Position) -> Seq<PositionState> {
    cells.update(p.index(), cells[p.index()].spec_opposite())
}

/// Turning over the disks of a list can be done with any one of them last.
pub proof fn lemma_flip_all_remove(cells: Seq<PositionState>, b: Seq<Position>, i: int)
    requires
        cells.len() == 64,
        forall|k: int| 0 <= k < b.len() ==> (#[trigger] b[k]).valid(),
        0 <= i < b.len(),
    ensures
        flip_all(cells, b) == flip_one(flip_all(cells, b.remove(i)), b[i]),
    decreases b.len(),
{
    if i == b.len() - 1 {
        assert(b.remove(i) =~= b.drop_last());
    } else {
        let head = b.drop_last();
        assert forall|k: int| 0 <= k < head.len() implies (#[trigger] head[k]).valid() by {
            assert(head[k] == b[k]);
        }
        lemma_flip_all_remove(cells, head, i);
        let without = head.remove(i);
        assert forall|k: int| 0 <= k < without.len() implies (#[trigger] without[k]).valid() by {
            if k < i {
                assert(without[k] == b[k]);
            } else {
                assert(without[k] == b[k + 1]);
            }
        }
        lemma_flip_all_keeps_free(cells, without);
        assert(b.remove(i).drop_last() =~= without);
        assert(b.remove(i).last() == b.last());
        let x = flip_all(cells, without);
        assert(b[i].valid());
        assert(b.last().valid());
        assert(flip_one(flip_one(x, b[i]), b.last()) =~= flip_one(flip_one(x, b.last()), b[i]));
    }
}

/// Turning over the disks of a list comes to the same in whatever order it
/// is done.
pub proof fn lemma_flip_all_permuted(cells: Seq<PositionState>, a: Seq<Position>, b: Seq<Position>)
    requires
        cells.len() == 64,
        forall|k: int| 0 <= k < a.len() ==> (#[trigger] a[k]).valid(),
        a.to_multiset() == b.to_multiset(),
    ensures
        flip_all(cells, a) == flip_all(cells, b),
    decreases a.len(),
{
    vstd::seq_lib::to_multiset_len(a);
    vstd::seq_lib::to_multiset_len(b);
    assert forall|k: int| 0 <= k < b.len() implies (#[trigger] b[k]).valid() by {
        assert(b.contains(b[k]));
        vstd::seq_lib::to_multiset_contains(b, b[k]);
        vstd::seq_lib::to_multiset_contains(a, b[k]);
        let j = choose|j: int| 0 <= j < a.len() && a[j] == b[k];
        assert(a[j].valid());
    }
    if a.len() == 0 {
        assert(a =~= b);
    } else {
        let x = a.last();
        assert(a.contains(x));
        vstd::seq_lib::to_multiset_contains(a, x);
        vstd::seq_lib::to_multiset_contains(b, x);
        let i = choose|i: int| 0 <= i < b.len() && b[i] == x;
        vstd::seq_lib::to_multiset_remove(a, a.len() - 1);
        vstd::seq_lib::to_multiset_remove(b, i);
        assert(a.remove(a.len() - 1) =~= a.drop_last());
        assert forall|k: int| 0 <= k < a.drop_last().len() implies (
        #[trigger] a.drop_last()[k]).valid() by {
            assert(a.drop_last()[k] == a[k]);
        }
        lemma_flip_all_permuted(cells, a.drop_last(), b.remove(i));
        lemma_flip_all_remove(cells, b, i);
    }
}

/// Turning over disks as they are seen, on the grid as it is seen, gives
/// the grid with the disks turned over as it is seen.
pub proof fn lemma_seen_flip_all(s: Symmetry, cells: Seq<PositionState>, a: Seq<Position>)
    requires
        cells.len() == 64,
        forall|k: int| 0 <= k < a.len() ==> (#[trigger] a[k]).valid(),
    ensures
        flip_all(s.cells(cells), s.positions(a)) == s.cells(flip_all(cells, a)),
    decreases a.len(),
{
    lemma_flip_all_keeps_free(cells, a);
    if a.len() == 0 {
        assert(s.positions(a) =~= Seq::<Position>::empty());
    } else {
        let head = a.drop_last();
        let p = a.last();
        assert forall|k: int| 0 <= k < head.len() implies (#[trigger] head[k]).valid() by {
            assert(head[k] == a[k]);
        }
        lemma_seen_flip_all(s, cells, head);
        lemma_flip_all_keeps_free(cells, head);
        assert(s.positions(a).drop_last() =~= s.positions(head));
        assert(s.positions(a).last() == s.position(p));
        let before = flip_all(cells, head);
        assert(p.valid());
        lemma_seen_cell(s, cells, p.x as int, p.y as int);
        assert(s.position(p).index() == s.index(p.index()));
        lemma_seen_index(s, p.index());
        assert forall|i: int| 0 <= i < 64 implies flip_one(s.cells(before), s.position(p))[i]
            == s.cells(flip_one(before, p))[i] by {
            lemma_seen_index(s, i);
        }
        assert(flip_one(s.cells(before), s.position(p)) =~= s.cells(flip_one(before, p)));
    }
}

/// A move as it is seen, made on the grid as it is seen, gives the grid after
/// the move as it is seen. The move as it is seen lies on the cell on which
/// the cell of the move is seen, and turns over the disks of the move as
/// they are seen, in whatever order.
pub proof fn lemma_seen_apply(
    s: Symmetry,
    cells: Seq<PositionState>,
    m: ValidMoveView,
    seen: ValidMoveView,
    disk: Disk,
)
    requires
        cells.len() == 64,
        m.in_bounds(),
        seen.position == s.position(m.position),
        seen.affected.to_multiset() == s.positions(m.affected).to_multiset(),
    ensures
        apply(s.cells(cells), seen, disk) == s.cells(apply(cells, m, disk)),
{
    let p = m.position;
    let laid = cells.update(p.index(), PositionState::of(disk));
    lemma_seen_cell(s, cells, p.x as int, p.y as int);
    assert(s.position(p).index() == s.index(p.index()));
    lemma_seen_index(s, p.index());
    assert forall|i: int| 0 <= i < 64 implies s.cells(cells).update(
        s.position(p).index(),
        PositionState::of(disk),
    )[i] == s.cells(laid)[i] by {
        lemma_seen_index(s, i);
    }
    assert(s.cells(cells).update(s.position(p).index(), PositionState::of(disk)) =~= s.cells(
        laid,
    ));
    let there = s.positions(m.affected);
    assert forall|k: int| 0 <= k < there.len() implies (#[trigger] there[k]).valid() by {
        assert(m.affected[k].valid());
        lemma_seen_cell(s, cells, m.affected[k].x as int, m.affected[k].y as int);
    }
    lemma_flip_all_permuted(s.cells(laid), there, seen.affected);
    lemma_seen_flip_all(s, laid, m.affected);
}

/// A move is legal exactly if it is seen as a legal move on the grid as it
/// is seen.
pub proof fn lemma_seen_validate(s: Symmetry, cells: Seq<PositionState>, p: Position, disk: Disk)
    requires
        cells.len() == 64,
        p.valid(),
    ensures
        s.position(p).valid(),
        validate(s.cells(cells), s.position(p), disk) is Some <==> validate(cells, p, disk)
            is Some,
        validate(cells, p, disk) is Some ==> {
            let m = validate(cells, p, disk)->Some_0;
            let seen = validate(s.cells(cells), s.position(p), disk)->Some_0;
            &&& seen.position == s.position(p)
            &&& seen.affected.to_multiset() == s.positions(m.affected).to_multiset()
            &&& m.in_bounds()
            &&& apply(s.cells(cells), seen, disk) == s.cells(apply(cells, m, disk))
        },
{
    lemma_seen_cell(s, cells, p.x as int, p.y as int);
    lemma_seen_flips(s, cells, p, disk);
    assert(s.position(p).x == s.x(p.x as int, p.y as int));
    assert(s.position(p).y == s.y(p.x as int, p.y as int));
    if validate(cells, p, disk) is Some {
        let m = validate(cells, p, disk)->Some_0;
        let seen = validate(s.cells(cells), s.position(p), disk)->Some_0;
        lemma_legal(cells, m, disk);
        lemma_seen_apply(s, cells, m, seen, disk);
    }
}

/// A player has a legal move exactly if the player has one on the grid as it
/// is seen, and so the game is over exactly if it is seen to be over.
pub proof fn lemma_seen_complete(s: Symmetry, cells: Seq<PositionState>)
    requires
        cells.len() == 64,
    ensures
        forall|disk: Disk|
            (#[trigger] legal_moves(s.cells(cells), disk)).len() == 0 <==> legal_moves(
                cells,
                disk,
            ).len() == 0,
        complete(s.cells(cells)) == complete(cells),
{
    assert forall|disk: Disk|
        (#[trigger] legal_moves(s.cells(cells), disk)).len() == 0 <==> legal_moves(
            cells,
            disk,
        ).len() == 0 by {
        lemma_no_moves(cells, disk, 0, 64);
        lemma_no_moves(s.cells(cells), disk, 0, 64);
        if legal_moves(cells, disk).len() == 0 {
            assert forall|k: int| 0 <= k < 64 implies (#[trigger] validate(
                s.cells(cells),
                Position::nth(k),
                disk,
            )) is None by {
                lemma_seen_index(s, k);
                let j = s.index(k);
                lemma_seen_index(s, j);
                lemma_seen_validate(s, cells, Position::nth(j), disk);
                assert(validate(cells, Position::nth(j), disk) is None);
            }
        }
        if legal_moves(s.cells(cells), disk).len() == 0 {
            assert forall|k: int| 0 <= k < 64 implies (#[trigger] validate(
                cells,
                Position::nth(k),
                disk,
            )) is None by {
                lemma_seen_index(s, k);
                lemma_seen_validate(s, cells, Position::nth(k), disk);
                assert(validate(s.cells(cells), Position::nth(s.index(k)), disk) is None);
            }
        }
    }
}

impl Symmetry {
    /// A transcript as it is seen.
    pub open spec fn transcript(self, entries: Seq<Transcript>) -> Seq<Transcript> {
        match self {
            Symmetry::Rotate => rotated(entries),
            Symmetry::Flip => flipped(entries),
        }
    }

    /// A game as it is seen.
    pub open spec fn game(self, g: GameView) -> GameView {
        GameView {
            board: self.cells(g.board),
            turn: g.turn,
            transcript: self.transcript(g.transcript),
        }
    }

    /// A game that may be missing, as it is seen.
    pub open spec fn game_if_any(self, g: Option<GameView>) -> Option<GameView> {
        match g {
            Some(g) => Some(self.game(g)),
            None => None,
        }
    }
}

/// The opening position is seen as the opening position.
pub proof fn lemma_seen_opening(s: Symmetry)
    ensures
        s.game(GameView::opening()) == GameView::opening(),
{
    let there = GameView::opening().board;
    assert forall|i: int| 0 <= i < 64 implies s.cells(there)[i] == there[i] by {
        lemma_seen_index(s, i);
    }
    assert(s.cells(there) =~= there);
    assert(s.transcript(Seq::<Transcript>::empty()) =~= Seq::<Transcript>::empty());
}

/// One more entry of a transcript does to a game as it is seen what it does
/// to the game, as it is seen.
pub proof fn lemma_seen_advance(s: Symmetry, g: GameView, entry: Transcript)
    requires
        g.wf(),
        entry matches Transcript::Play(p) ==> p.valid(),
    ensures
        s.game(g).advance(s.transcript(seq![entry])[0]) == s.game_if_any(g.advance(entry)),
{
    match entry {
        Transcript::Pass => {
            assert(s.transcript(g.transcript.push(Transcript::Pass)) =~= s.transcript(
                g.transcript,
            ).push(Transcript::Pass));
        },
        Transcript::Play(p) => {
            lemma_seen_validate(s, g.board, p, g.turn);
            assert(s.transcript(seq![entry])[0] == Transcript::Play(s.position(p)));
            assert(s.transcript(g.transcript.push(Transcript::Play(p))) =~= s.transcript(
                g.transcript,
            ).push(Transcript::Play(s.position(p))));
        },
    }
}

/// Replaying a transcript as it is seen gives the game that the transcript
/// records, as it is seen; and fails where replaying the transcript fails.
#[verifier::rlimit(50)]
pub proof fn lemma_seen_replay(s: Symmetry, entries: Seq<Transcript>, n: int)
    requires
        on_board_entries(entries),
        0 <= n <= entries.len(),
    ensures
        GameView::replay_upto(s.transcript(entries), n) == s.game_if_any(
            GameView::replay_upto(entries, n),
        ),
    decreases n,
{
    let seen = s.transcript(entries);
    if n > 0 {
        lemma_seen_replay(s, entries, n - 1);
        match GameView::replay_upto(entries, n - 1) {
            None => {
                assert(GameView::replay_upto(seen, n - 1) is None);
            },
            Some(g) => {
                GameView::lemma_replay_transcript(entries, n - 1);
                let entry = entries[n - 1];
                assert(entry matches Transcript::Play(p) ==> p.valid());
                lemma_seen_advance(s, g, entry);
                lemma_seen_entry(s, entries, n - 1);
                assert(GameView::replay_upto(seen, n - 1) == Some(s.game(g)));
                assert(GameView::replay_upto(seen, n) == s.game(g).advance(seen[n - 1]));
                assert(GameView::replay_upto(entries, n) == g.advance(entry));
            },
        }
    } else {
        lemma_seen_opening(s);
    }
}

/// An entry of a transcript as it is seen is the entry as it is seen.
pub proof fn lemma_seen_entry(s: Symmetry, entries: Seq<Transcript>, k: int)
    requires
        0 <= k < entries.len(),
    ensures
        s.transcript(entries).len() == entries.len(),
        s.transcript(entries)[k] == s.transcript(seq![entries[k]])[0],
{
}

/// A game seen after half a turn of the board, or in the mirror, is a game:
/// the transcript as it is seen replays without fault to the game as it is
/// seen, and that game is over exactly if the game is.
pub proof fn lemma_seen_game(s: Symmetry, entries: Seq<Transcript>)
    requires
        on_board_entries(entries),
        GameView::replay(entries) is Some,
    ensures
        GameView::replay(s.transcript(entries)) == Some(s.game(GameView::replay(entries)->Some_0)),
        s.game(GameView::replay(entries)->Some_0).is_complete() == GameView::replay(
            entries,
        )->Some_0.is_complete(),
        on_board_entries(s.transcript(entries)),
{
    lemma_seen_replay(s, entries, entries.len() as int);
    GameView::lemma_replay_transcript(entries, entries.len() as int);
    lemma_seen_complete(s, GameView::replay(entries)->Some_0.board);
    lemma_symmetry_on_board(entries);
}

/// The four transcripts that mirror a finished game are transcripts of
/// finished games: the game itself, the game after half a turn, the game in
/// the mirror, and the game after both.
pub proof fn lemma_mirror_images(entries: Seq<Transcript>)
    requires
        on_board_entries(entries),
        GameView::replay(entries) matches Some(g) && g.is_complete(),
    ensures
        GameView::replay(rotated(entries)) matches Some(g) && g.is_complete(),
        GameView::replay(flipped(entries)) matches Some(g) && g.is_complete(),
        GameView::replay(flipped(rotated(entries))) matches Some(g) && g.is_complete(),
{
    lemma_seen_game(Symmetry::Rotate, entries);
    lemma_seen_game(Symmetry::Flip, entries);
    lemma_seen_game(Symmetry::Flip, rotated(entries));
}

/// A turn of a game is seen as a turn of the game as it is seen.
pub proof fn lemma_seen_turn(s: Symmetry, a: GameView, b: GameView)
    requires
        a.wf(),
        step(a, b),
    ensures
        step(s.game(a), s.game(b)),
        s.game(a).wf(),
{
    lemma_seen_complete(s, a.board);
    if a.moves().len() == 0 && !a.is_complete() && b == a.pass() {
        assert(s.transcript(a.transcript.push(Transcript::Pass)) =~= s.transcript(
            a.transcript,
        ).push(Transcript::Pass));
        assert(s.game(b) == s.game(a).pass());
    } else {
        let m = choose|m: ValidMoveView| #[trigger] legal(a.board, m, a.turn) && b == a.play(m);
        lemma_legal(a.board, m, a.turn);
        lemma_seen_validate(s, a.board, m.position, a.turn);
        let seen = validate(s.cells(a.board), s.position(m.position), a.turn)->Some_0;
        assert(s.transcript(a.transcript.push(Transcript::Play(m.position))) =~= s.transcript(
            a.transcript,
        ).push(Transcript::Play(s.position(m.position))));
        assert(legal(s.game(a).board, seen, s.game(a).turn));
        assert(s.game(b) == s.game(a).play(seen));
    }
}

/// A game some turns on is seen as the game as it is seen, as many turns
/// on.
pub proof fn lemma_seen_reaches(s: Symmetry, a: GameView, n: nat, b: GameView)
    requires
        a.wf(),
        reaches(a, n, b),
    ensures
        reaches(s.game(a), n, s.game(b)),
    decreases n,
{
    if n > 0 {
        let mid = choose|mid: GameView| #[trigger] step(a, mid) && reaches(mid, (n - 1) as nat, b);
        lemma_seen_turn(s, a, mid);
        lemma_step(a, mid);
        lemma_seen_reaches(s, mid, (n - 1) as nat, b);
        lemma_reaches_through(s.game(a), s.game(mid), (n - 1) as nat, s.game(b));
    }
}

} // verus!
