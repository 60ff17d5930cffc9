//! The opening, and why a search may start behind the first move. Dark can
//! open on four cells, which mirror one another; so every finished game is
//! an outcome of the game after one of them, or the mirror image of one.

use vstd::prelude::*;
use crate::board::cell;
use crate::direction::Direction;
use crate::disk::Disk;
use crate::frontier::{first_cell, first_game, lemma_legal_seed};
use crate::game::GameView;
use crate::position::{on_board, Position, PositionState};
use crate::reach::{
    ends_as, lemma_ends_are_outcomes, lemma_outcomes_exact, lemma_reached_replays,
    lemma_reaches_continues, lemma_reaches_on_board, lemma_scanning, lemma_step, reaches, step,
};
use crate::rules::{captures, closes, flips_upto, legal, lemma_no_moves, run, validate, ValidMoveView};
use crate::symmetry::{
    lemma_mirror_images, lemma_seen_complete, lemma_seen_entry, lemma_seen_opening,
    lemma_seen_reaches, Symmetry,
};
use crate::transcript::{
    flipped, lemma_flip_twice, lemma_rotate_twice, lemma_symmetry_on_board, on_board_entries,
    rotated, Transcript,
};
use crate::tree::{outcomes, scanning};

verus! {

/// What the cells of the opening position hold.
pub proof fn lemma_opening_cells(x: int, y: int)
    requires
        on_board(x, y),
    ensures
        cell(GameView::opening().board, x, y) == if (x == 3 && y == 3) || (x == 4 && y == 4) {
            PositionState::Light
        } else if (x == 4 && y == 3) || (x == 3 && y == 4) {
            PositionState::Dark
        } else {
            PositionState::Empty
        },
{
}

/// Whether a cell is one of the four on which dark can open: D3, C4, F5 and
/// E6.
pub open spec fn opens(p: Position) -> bool {
    ||| p == first_cell()
    ||| p == first_cell().spec_flip()
    ||| p == first_cell().spec_rotate()
    ||| p == first_cell().spec_rotate().spec_flip()
}

/// A move that turns over a disk turns one over in some direction.
pub proof fn lemma_some_direction(cells: Seq<PositionState>, p: Position, disk: Disk, n: int)
    requires
        flips_upto(cells, p, disk, n).len() > 0,
    ensures
        exists|i: int|
            0 <= i < n && (#[trigger] captures(cells, p, Direction::spec_nth(i), disk)).len() > 0,
    decreases n,
{
    if n > 0 {
        if captures(cells, p, Direction::spec_nth(n - 1), disk).len() == 0 {
            assert(flips_upto(cells, p, disk, n) =~= flips_upto(cells, p, disk, n - 1));
            lemma_some_direction(cells, p, disk, n - 1);
        }
    }
}

/// A move that turns over a disk in some direction at the opening lies off
/// both diagonals of the board; for dark, it lies on D3, C4, F5 or E6.
pub proof fn lemma_opening_ray(p: Position, d: Direction, disk: Disk)
    requires
        p.valid(),
        captures(GameView::opening().board, p, d, disk).len() > 0,
    ensures
        p.x != p.y,
        p.x + p.y != 7,
        disk == Disk::Dark ==> opens(p),
{
    let cells = GameView::opening().board;
    let x = p.x + d.dx();
    let y = p.y + d.dy();
    reveal_with_fuel(closes, 4);
    assert(closes(cells, x, y, d, disk));
    assert(on_board(x, y));
    lemma_opening_cells(x, y);
    if on_board(x + d.dx(), y + d.dy()) {
        lemma_opening_cells(x + d.dx(), y + d.dy());
        if on_board(x + 2 * d.dx(), y + 2 * d.dy()) {
            lemma_opening_cells(x + 2 * d.dx(), y + 2 * d.dy());
        }
    }
    assert(run(cells, x, y, d, disk).len() > 0);
    assert(cell(cells, x, y) == PositionState::of(disk.spec_opposite()));
}

/// A legal move at the opening lies off both diagonals of the board; for
/// dark, it lies on D3, C4, F5 or E6.
pub proof fn lemma_opening_move(p: Position, disk: Disk)
    requires
        validate(GameView::opening().board, p, disk) is Some,
    ensures
        p.x != p.y,
        p.x + p.y != 7,
        disk == Disk::Dark ==> opens(p),
{
    let cells = GameView::opening().board;
    lemma_some_direction(cells, p, disk, 8);
    let i = choose|i: int|
        0 <= i < 8 && (#[trigger] captures(cells, p, Direction::spec_nth(i), disk)).len() > 0;
    lemma_opening_ray(p, Direction::spec_nth(i), disk);
}

/// Whether the first `n` entries of a transcript are passes.
pub open spec fn passes_upto(entries: Seq<Transcript>, n: int) -> bool {
    forall|k: int| 0 <= k < n ==> (#[trigger] entries[k]) == Transcript::Pass
}

/// After nothing but passes the board is as it was at the opening.
pub proof fn lemma_passes_keep_opening(entries: Seq<Transcript>, n: int)
    requires
        0 <= n <= entries.len(),
        passes_upto(entries, n),
    ensures
        GameView::replay_upto(entries, n) matches Some(g) && g.board == GameView::opening().board,
    decreases n,
{
    if n > 0 {
        lemma_passes_keep_opening(entries, n - 1);
        assert(entries[n - 1] == Transcript::Pass);
    }
}

/// The first move of a game: the place of the first entry that is no pass,
/// if there is one among the first `n`.
pub open spec fn first_move(entries: Seq<Transcript>, n: int) -> int
    decreases n,
{
    if n <= 0 {
        0
    } else if passes_upto(entries, n - 1) {
        n - 1
    } else {
        first_move(entries, n - 1)
    }
}

/// If not all of the first `n` entries are passes, the first move is a move,
/// and only passes come before it.
pub proof fn lemma_first_move(entries: Seq<Transcript>, n: int)
    requires
        0 <= n <= entries.len(),
        !passes_upto(entries, n),
    ensures
        0 <= first_move(entries, n) < n,
        passes_upto(entries, first_move(entries, n)),
        entries[first_move(entries, n)] is Play,
    decreases n,
{
    if n > 0 {
        if passes_upto(entries, n - 1) {
            match entries[n - 1] {
                Transcript::Pass => {
                    assert(passes_upto(entries, n));
                },
                Transcript::Play(_) => {},
            }
        } else {
            lemma_first_move(entries, n - 1);
        }
    }
}

/// The first move of a finished game lies off both diagonals of the board.
pub proof fn lemma_first_move_off_diagonals(entries: Seq<Transcript>)
    requires
        GameView::replay(entries) matches Some(g) && g.is_complete(),
    ensures
        0 <= first_move(entries, entries.len() as int) < entries.len(),
        entries[first_move(entries, entries.len() as int)] matches Transcript::Play(p) && p.x
            != p.y && p.x + p.y != 7,
{
    let n = entries.len() as int;
    if passes_upto(entries, n) {
        lemma_passes_keep_opening(entries, n);
        lemma_legal_seed();
        lemma_no_moves(GameView::opening().board, Disk::Dark, 0, 64);
        assert(Position::nth(19) == first_cell());
        assert(validate(GameView::opening().board, Position::nth(19), Disk::Dark) is Some);
    } else {
        lemma_first_move(entries, n);
        let k = first_move(entries, n);
        lemma_passes_keep_opening(entries, k);
        let before = GameView::replay_upto(entries, k)->Some_0;
        if GameView::replay_upto(entries, k + 1) is None {
            GameView::lemma_replay_stays_none(entries, k + 1, n);
        }
        let p = entries[k]->Play_0;
        assert(validate(before.board, p, before.turn) is Some);
        lemma_opening_move(p, before.turn);
    }
}

/// The four transcripts that mirror a finished game differ from one another:
/// they are four games, not fewer.
pub proof fn lemma_mirror_images_differ(entries: Seq<Transcript>)
    requires
        on_board_entries(entries),
        GameView::replay(entries) matches Some(g) && g.is_complete(),
    ensures
        rotated(entries) != entries,
        flipped(entries) != entries,
        flipped(rotated(entries)) != entries,
        rotated(entries) != flipped(entries),
        rotated(entries) != flipped(rotated(entries)),
        flipped(entries) != flipped(rotated(entries)),
{
    lemma_first_move_off_diagonals(entries);
    let k = first_move(entries, entries.len() as int);
    let p = entries[k]->Play_0;
    assert(p.valid());
    assert(rotated(entries)[k] == Transcript::Play(p.spec_rotate()));
    assert(flipped(entries)[k] == Transcript::Play(p.spec_flip()));
    assert(flipped(rotated(entries))[k] == Transcript::Play(p.spec_rotate().spec_flip()));
}

/// Whatever a search from a game played from the opening hands out can be
/// sent on four times: its transcript and the three transcripts that mirror
/// it all replay, without fault, to finished games, and no two of the four
/// are the same.
pub proof fn lemma_outcome_mirrors(start: Seq<Transcript>, end: GameView)
    requires
        on_board_entries(start),
        GameView::replay(start) matches Some(g) && outcomes(g).contains(end),
    ensures
        on_board_entries(end.transcript),
        GameView::replay(end.transcript) == Some(end),
        end.is_complete(),
        GameView::replay(rotated(end.transcript)) matches Some(g) && g.is_complete(),
        GameView::replay(flipped(end.transcript)) matches Some(g) && g.is_complete(),
        GameView::replay(flipped(rotated(end.transcript))) matches Some(g) && g.is_complete(),
        rotated(end.transcript) != end.transcript,
        flipped(end.transcript) != end.transcript,
        flipped(rotated(end.transcript)) != end.transcript,
        rotated(end.transcript) != flipped(end.transcript),
        rotated(end.transcript) != flipped(rotated(end.transcript)),
        flipped(end.transcript) != flipped(rotated(end.transcript)),
{
    let g = GameView::replay(start)->Some_0;
    GameView::lemma_replay_transcript(start, start.len() as int);
    assert(start.take(start.len() as int) =~= start);
    lemma_outcomes_exact(g);
    assert(ends_as(g, end));
    let n = choose|n: nat| #[trigger] reaches(g, n, end);
    lemma_reached_replays(g, n, end);
    lemma_reaches_on_board(g, n, end);
    lemma_mirror_images(end.transcript);
    lemma_mirror_images_differ(end.transcript);
}

/// A finished game opens with a move of dark onto D3, C4, F5 or E6.
pub proof fn lemma_first_entry(n: nat, end: GameView)
    requires
        reaches(GameView::opening(), n, end),
        end.is_complete(),
    ensures
        end.transcript.len() > 0,
        end.transcript[0] matches Transcript::Play(p) && opens(p),
{
    let opening = GameView::opening();
    lemma_legal_seed();
    lemma_no_moves(opening.board, Disk::Dark, 0, 64);
    assert(Position::nth(19) == first_cell());
    assert(validate(opening.board, Position::nth(19), Disk::Dark) is Some);
    assert(n > 0);
    let mid = choose|mid: GameView| #[trigger] step(opening, mid) && reaches(mid, (n - 1) as nat, end);
    lemma_step(opening, mid);
    lemma_reaches_continues(mid, (n - 1) as nat, end);
    let m = choose|m: ValidMoveView| #[trigger]
        legal(opening.board, m, opening.turn) && mid == opening.play(m);
    assert(mid.transcript[0] == Transcript::Play(m.position));
    assert(end.transcript.subrange(0, mid.transcript.len() as int)[0] == mid.transcript[0]);
    lemma_opening_move(m.position, Disk::Dark);
}

/// A finished game that opens on D3 is an outcome of the game after D3.
proof fn lemma_through_first_move(n: nat, end: GameView)
    requires
        reaches(GameView::opening(), n, end),
        end.is_complete(),
        end.transcript.len() > 0,
        end.transcript[0] == Transcript::Play(first_cell()),
    ensures
        outcomes(first_game()).contains(end),
{
    let opening = GameView::opening();
    lemma_legal_seed();
    if n == 0 {
        assert(opening.transcript.len() == 0);
    } else {
        let mid = choose|mid: GameView|
            #[trigger] step(opening, mid) && reaches(mid, (n - 1) as nat, end);
        lemma_step(opening, mid);
        lemma_reaches_continues(mid, (n - 1) as nat, end);
        assert(mid.transcript[0] == end.transcript.subrange(0, mid.transcript.len() as int)[0]);
        if opening.moves().len() == 0 && !opening.is_complete() && mid == opening.pass() {
            assert(mid.transcript[0] == Transcript::Pass);
        } else {
            let m = choose|m: ValidMoveView| #[trigger]
                legal(opening.board, m, opening.turn) && mid == opening.play(m);
            assert(mid.transcript[0] == Transcript::Play(m.position));
            assert(mid == first_game());
            lemma_scanning();
            lemma_ends_are_outcomes(scanning(), mid, (n - 1) as nat, end);
        }
    }
}

/// A finished game that can be played from the opening is seen as such a
/// game.
pub proof fn lemma_seen_end(s: Symmetry, n: nat, end: GameView)
    requires
        reaches(GameView::opening(), n, end),
        end.is_complete(),
    ensures
        reaches(GameView::opening(), n, s.game(end)),
        s.game(end).is_complete(),
{
    let opening = GameView::opening();
    lemma_seen_opening(s);
    lemma_seen_reaches(s, opening, n, end);
    lemma_reaches_continues(opening, n, end);
    lemma_seen_complete(s, end.board);
}

/// A finished game that opens on the cell on which D3 is seen is seen as an
/// outcome of the game after D3.
pub proof fn lemma_seen_through_first_move(s: Symmetry, n: nat, end: GameView)
    requires
        reaches(GameView::opening(), n, end),
        end.is_complete(),
        end.transcript.len() > 0,
        end.transcript[0] == Transcript::Play(s.position(first_cell())),
    ensures
        outcomes(first_game()).contains(s.game(end)),
{
    lemma_seen_end(s, n, end);
    lemma_seen_entry(s, end.transcript, 0);
    assert(s.position(s.position(first_cell())) == first_cell());
    assert(s.game(end).transcript[0] == Transcript::Play(first_cell()));
    lemma_through_first_move(n, s.game(end));
}

/// A finished game that opens on F5 is seen, in the mirror and then after
/// half a turn, as an outcome of the game after D3.
proof fn lemma_seen_twice_over(n: nat, end: GameView) -> (found: GameView)
    requires
        reaches(GameView::opening(), n, end),
        end.is_complete(),
        on_board_entries(end.transcript),
        end.transcript.len() > 0,
        end.transcript[0] == Transcript::Play(first_cell().spec_rotate().spec_flip()),
    ensures
        outcomes(first_game()).contains(found),
        found.transcript == rotated(flipped(end.transcript)),
{
    let half = Symmetry::Flip.game(end);
    lemma_seen_end(Symmetry::Flip, n, end);
    lemma_seen_entry(Symmetry::Flip, end.transcript, 0);
    assert(half.transcript[0] == Transcript::Play(first_cell().spec_rotate()));
    lemma_seen_through_first_move(Symmetry::Rotate, n, half);
    Symmetry::Rotate.game(half)
}

/// Mirroring a transcript that was mirrored and then turned, after turning
/// it once more, gives the transcript back.
proof fn lemma_back_again(entries: Seq<Transcript>)
    requires
        on_board_entries(entries),
    ensures
        flipped(rotated(rotated(flipped(entries)))) == entries,
{
    lemma_symmetry_on_board(entries);
    lemma_rotate_twice(flipped(entries));
    lemma_flip_twice(entries);
}

/// Whether `image` is `entries` or one of the three transcripts that mirror
/// it.
pub open spec fn mirrors(entries: Seq<Transcript>, image: Seq<Transcript>) -> bool {
    ||| image == entries
    ||| image == rotated(entries)
    ||| image == flipped(entries)
    ||| image == flipped(rotated(entries))
}

/// The games after the first move D3 stand for all: every finished game
/// that can be played from the opening is an outcome of the game after D3,
/// or mirrors one.
pub proof fn lemma_first_move_stands_for_all(end: GameView)
    requires
        ends_as(GameView::opening(), end),
    ensures
        exists|found: GameView|
            #[trigger] outcomes(first_game()).contains(found) && mirrors(
                found.transcript,
                end.transcript,
            ),
{
    let opening = GameView::opening();
    let n = choose|n: nat| #[trigger] reaches(opening, n, end);
    lemma_reaches_on_board(opening, n, end);
    lemma_first_entry(n, end);
    let entries = end.transcript;
    let p = entries[0]->Play_0;
    if p == first_cell() {
        lemma_through_first_move(n, end);
        assert(mirrors(end.transcript, entries));
    } else if p == first_cell().spec_flip() {
        lemma_seen_through_first_move(Symmetry::Flip, n, end);
        lemma_flip_twice(entries);
        assert(mirrors(Symmetry::Flip.game(end).transcript, entries));
    } else if p == first_cell().spec_rotate() {
        lemma_seen_through_first_move(Symmetry::Rotate, n, end);
        lemma_rotate_twice(entries);
        assert(mirrors(Symmetry::Rotate.game(end).transcript, entries));
    } else {
        let found = lemma_seen_twice_over(n, end);
        lemma_back_again(entries);
        assert(mirrors(found.transcript, entries));
    }
}

} // verus!
