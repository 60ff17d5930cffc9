//! A game in progress: the board, whose turn it is, and the moves so far.

use vstd::prelude::*;
use crate::board::{empty_cells, Board};
use crate::direction::{Direction, DIRECTIONS};
use crate::disk::{Disk, DiskIter};
use crate::position::{Position, PositionIter, PositionState, CELLS};
use crate::rules::{
    apply, captures, closes, complete, count, count_upto, flip_all, flips_upto, legal,
    legal_moves, lemma_count_bound, lemma_legal, lemma_moves_split,
    lemma_no_moves, moves_between, room, run, validate, ValidMoveView,
};
use crate::transcript::Transcript;

verus! {

/// A legal move: a free cell, and the opponent's disks that a disk laid there
/// turns over. There is always at least one such disk.
#[derive(Debug, Ord, PartialOrd, Hash, Eq, PartialEq)]
pub struct ValidMove {
    pub position: Position,
    pub affected: Vec<Position>,
}

impl View for ValidMove {
    type V = ValidMoveView;

    open spec fn view(&self) -> ValidMoveView {
        ValidMoveView { position: self.position, affected: self.affected@ }
    }
}

/// The view of a move that may be missing.
pub open spec fn view_of(found: Option<ValidMove>) -> Option<ValidMoveView> {
    match found {
        Some(m) => Some(m@),
        None => None,
    }
}

impl Clone for ValidMove {
    /// A second copy of the move.
    fn clone(&self) -> (copy: Self)
        ensures
            copy@ == self@,
    {
        ValidMove { position: self.position, affected: self.affected.clone() }
    }
}

/// The views of a list of moves.
pub open spec fn views(moves: Seq<ValidMove>) -> Seq<ValidMoveView> {
    moves.map_values(|m: ValidMove| m@)
}

/// A game as a mathematical value: the grid in scanning order, the colour
/// to move, and the entries so far.
pub struct GameView {
    pub board: Seq<PositionState>,
    pub turn: Disk,
    pub transcript: Seq<Transcript>,
}

impl GameView {
    /// The position from which every game starts: four disks in the centre,
    /// dark to move.
    pub open spec fn opening() -> GameView {
        GameView {
            board: empty_cells().update(27, PositionState::Light).update(
                28,
                PositionState::Dark,
            ).update(35, PositionState::Dark).update(36, PositionState::Light),
            turn: Disk::Dark,
            transcript: Seq::empty(),
        }
    }

    /// Whether the grid has its 64 cells.
    pub open spec fn wf(self) -> bool {
        self.board.len() == 64
    }

    /// The legal moves of the player to move, in scanning order.
    pub open spec fn moves(self) -> Seq<ValidMoveView> {
        legal_moves(self.board, self.turn)
    }

    /// The game after the player to move has made the move `m`.
    pub open spec fn play(self, m: ValidMoveView) -> GameView {
        GameView {
            board: apply(self.board, m, self.turn),
            turn: self.turn.spec_opposite(),
            transcript: self.transcript.push(Transcript::Play(m.position)),
        }
    }

    /// The game after the player to move has passed.
    pub open spec fn pass(self) -> GameView {
        GameView {
            board: self.board,
            turn: self.turn.spec_opposite(),
            transcript: self.transcript.push(Transcript::Pass),
        }
    }

    /// Whether the game is over: neither player has a legal move.
    pub open spec fn is_complete(self) -> bool {
        complete(self.board)
    }

    /// The game after one more entry of a transcript, if the entry is a pass
    /// or a legal move.
    pub open spec fn advance(self, entry: Transcript) -> Option<GameView> {
        match entry {
            Transcript::Pass => Some(self.pass()),
            Transcript::Play(p) => match validate(self.board, p, self.turn) {
                Some(m) => Some(self.play(m)),
                None => None,
            },
        }
    }

    /// The game after the first `n` entries of a transcript, played from the
    /// opening; `None` if one of them is not a legal move.
    pub open spec fn replay_upto(entries: Seq<Transcript>, n: int) -> Option<GameView>
        decreases n,
    {
        if n <= 0 {
            Some(GameView::opening())
        } else {
            match GameView::replay_upto(entries, n - 1) {
                None => None,
                Some(g) => g.advance(entries[n - 1]),
            }
        }
    }

    /// The game that a transcript records, if every move in it is legal.
    pub open spec fn replay(entries: Seq<Transcript>) -> Option<GameView> {
        GameView::replay_upto(entries, entries.len() as int)
    }
}

/// A move of a transcript that the rules do not allow.
#[derive(Clone, Copy, Debug, PartialEq, Eq, Structural)]
pub struct InvalidReplay {
    /// The place of the entry in the transcript, counted from 0.
    pub ply: usize,
    /// The cell that the entry names.
    pub position: Position,
}

/// Finds the legal moves of one player on one board, cell by cell.
#[derive(Debug)]
pub struct ValidMoveIterator {
    disk: Disk,
    board: Board,
    position_iter: PositionIter,
}

impl ValidMoveIterator {
    /// The legal moves that the iterator has yet to hand out, in scanning
    /// order.
    pub closed spec fn remaining(self) -> Seq<ValidMoveView> {
        moves_between(self.board@, self.disk, self.position_iter.done() as int, 64)
    }

    /// An iterator over all the legal moves of the player of colour `disk`.
    pub fn new(board: Board, disk: Disk) -> (iter: Self)
        ensures
            iter.remaining() == legal_moves(board@, disk),
    {
        ValidMoveIterator { disk, board, position_iter: board.iter() }
    }

    /// The next legal move in scanning order, or `None` when there is no
    /// other.
    pub fn next(&mut self) -> (item: Option<ValidMove>)
        ensures
            old(self).remaining().len() == 0 ==> item is None && final(self).remaining().len()
                == 0,
            old(self).remaining().len() > 0 ==> view_of(item) == Some(old(self).remaining()[0])
                && final(self).remaining() == old(self).remaining().skip(1),
    {
        loop
            invariant
                self.board == old(self).board,
                self.disk == old(self).disk,
                old(self).position_iter.done() <= self.position_iter.done(),
                moves_between(
                    self.board@,
                    self.disk,
                    old(self).position_iter.done() as int,
                    self.position_iter.done() as int,
                ).len() == 0,
            decreases CELLS - self.position_iter.done(),
        {
            let ghost lo = old(self).position_iter.done() as int;
            let ghost k = self.position_iter.done() as int;
            match self.position_iter.next() {
                Some(position) => {
                    proof {
                        lemma_moves_split(self.board@, self.disk, lo, k, 64);
                        lemma_moves_split(self.board@, self.disk, k, k + 1, 64);
                        assert(moves_between(self.board@, self.disk, k, k).len() == 0);
                    }
                    match Game::validate_move(&self.board, &position, self.disk) {
                        Some(valid_move) => {
                            proof {
                                assert(moves_between(self.board@, self.disk, k, k + 1)
                                    =~= seq![valid_move@]);
                                assert(old(self).remaining() =~= seq![valid_move@]
                                    + self.remaining());
                                assert(self.remaining() =~= old(self).remaining().skip(1));
                            }
                            return Some(valid_move);
                        },
                        None => {
                            proof {
                                lemma_moves_split(self.board@, self.disk, lo, k, k + 1);
                            }
                            continue ;
                        },
                    }
                },
                None => {
                    proof {
                        assert(k == 64);
                    }
                    return None;
                },
            }
        }
    }
}

/// A game: the board, the colour to move, and the transcript of the moves
/// and passes that led here.
#[derive(Debug)]
pub struct Game {
    pub transcript: Vec<Transcript>,
    turn: Disk,
    board: Board,
}

impl View for Game {
    type V = GameView;

    closed spec fn view(&self) -> GameView {
        GameView { board: self.board@, turn: self.turn, transcript: self.transcript@ }
    }
}

impl Clone for Game {
    /// A second copy of the game.
    fn clone(&self) -> (copy: Self)
        ensures
            copy@ == self@,
    {
        Game { transcript: self.transcript.clone(), turn: self.turn, board: self.board }
    }
}

impl Game {
    /// The grid of a game has its 64 cells.
    pub broadcast proof fn lemma_view(&self)
        ensures
            (#[trigger] self@).wf(),
    {
        self.board.lemma_len();
    }

    /// A game at the opening position.
    pub fn new() -> (game: Self)
        ensures
            game@ == GameView::opening(),
    {
        let mut board = Board::empty();
        board.set(3, 3, PositionState::Light);
        board.set(4, 3, PositionState::Dark);
        board.set(3, 4, PositionState::Dark);
        board.set(4, 4, PositionState::Light);
        Game { transcript: Vec::new(), turn: Disk::Dark, board }
    }

    /// The board as it stands.
    pub fn board(&self) -> (board: &Board)
        ensures
            board@ == self@.board,
    {
        &self.board
    }

    /// The colour of the player to move.
    pub fn turn(&self) -> (turn: Disk)
        ensures
            turn == self@.turn,
    {
        self.turn
    }

    /// Plays a transcript from the opening. The first entry that is not a
    /// legal move is reported, and nothing after it is looked at.
    pub fn replay(transcript: &[Transcript]) -> (played: Result<Self, InvalidReplay>)
        ensures
            played matches Ok(g) ==> GameView::replay(transcript@) == Some(g@) && g@.transcript
                == transcript@,
            played matches Err(e) ==> {
                &&& e.ply < transcript@.len()
                &&& transcript@[e.ply as int] == Transcript::Play(e.position)
                &&& GameView::replay_upto(transcript@, e.ply as int) is Some
                &&& GameView::replay_upto(transcript@, e.ply + 1) is None
                &&& GameView::replay(transcript@) is None
            },
    {
        let mut game = Game::new();
        let mut i: usize = 0;
        while i < transcript.len()
            invariant
                i <= transcript.len(),
                GameView::replay_upto(transcript@, i as int) == Some(game@),
            decreases transcript.len() - i,
        {
            let t = &transcript[i];
            match t.to_position() {
                None => {
                    game = game.pass();
                },
                Some(position) => {
                    let found = if position.x <= 7 && position.y <= 7 {
                        Game::validate_move(&game.board, &position, game.turn)
                    } else {
                        None
                    };
                    match found {
                        Some(valid_move) => {
                            proof {
                                lemma_legal(game@.board, valid_move@, game@.turn);
                            }
                            game = game.play(valid_move);
                        },
                        None => {
                            proof {
                                GameView::lemma_replay_stays_none(
                                    transcript@,
                                    i + 1,
                                    transcript@.len() as int,
                                );
                            }
                            return Err(InvalidReplay { ply: i, position });
                        },
                    }
                },
            }
            i += 1;
        }
        proof {
            GameView::lemma_replay_transcript(transcript@, transcript@.len() as int);
            assert(transcript@.take(transcript@.len() as int) =~= transcript@);
        }
        Ok(game)
    }

    /// The game that a transcript records.
    pub fn from_transcript(transcript: &[Transcript]) -> (game: Self)
        requires
            GameView::replay(transcript@) is Some,
        ensures
            GameView::replay(transcript@) == Some(game@),
            game@.transcript == transcript@,
    {
        match Game::replay(transcript) {
            Ok(game) => game,
            Err(_) => unreached(),
        }
    }

    /// The game after the player to move has made the move `vm`. The game
    /// itself stays as it is.
    pub fn play(&self, vm: ValidMove) -> (next: Self)
        requires
            vm@.in_bounds(),
        ensures
            next@ == self@.play(vm@),
    {
        let mut g = self.clone();
        g.board.set(vm.position.x, vm.position.y, g.turn.into());
        let mut i: usize = 0;
        while i < vm.affected.len()
            invariant
                i <= vm.affected.len(),
                vm@.in_bounds(),
                g.turn == self.turn,
                g.transcript@ == self.transcript@,
                g.board@ == flip_all(
                    self.board@.update(vm.position.index(), PositionState::of(self.turn)),
                    vm.affected@.take(i as int),
                ),
            decreases vm.affected.len() - i,
        {
            let flip = vm.affected[i];
            assert(vm@.affected[i as int].valid());
            assert(vm.affected@.take(i + 1).drop_last() =~= vm.affected@.take(i as int));
            g.board.flip(flip.x, flip.y);
            i += 1;
        }
        assert(vm.affected@.take(i as int) =~= vm.affected@);
        g.transcript.push(vm.position.into());
        Game::end_turn(g)
    }

    /// The game after the player to move has passed. Whether that player had
    /// a move is not looked at: the caller passes only where there is none.
    pub fn pass(&self) -> (next: Self)
        ensures
            next@ == self@.pass(),
    {
        let mut g = self.clone();
        g.transcript.push(Transcript::Pass);
        Game::end_turn(g)
    }

    /// Whether the game is over: neither the player to move nor the other
    /// has a legal move.
    pub fn is_complete(&self) -> (over: bool)
        ensures
            over == self@.is_complete(),
    {
        let mut positions = PositionIter::new();
        loop
            invariant
                positions.done() <= CELLS,
                forall|k: int|
                    0 <= k < positions.done() ==> (#[trigger] validate(
                        self.board@,
                        Position::nth(k),
                        Disk::Dark,
                    )) is None,
                forall|k: int|
                    0 <= k < positions.done() ==> (#[trigger] validate(
                        self.board@,
                        Position::nth(k),
                        Disk::Light,
                    )) is None,
            decreases CELLS - positions.done(),
        {
            let ghost k = positions.done() as int;
            proof {
                lemma_no_moves(self.board@, Disk::Dark, 0, 64);
                lemma_no_moves(self.board@, Disk::Light, 0, 64);
            }
            match positions.next() {
                None => {
                    return true;
                },
                Some(p) => {
                    let mut disks = DiskIter::new();
                    loop
                        invariant
                            p == Position::nth(k),
                            0 <= k < 64,
                            disks.done() <= 2,
                            disks.done() >= 1 ==> validate(self.board@, p, Disk::Dark) is None,
                            disks.done() >= 2 ==> validate(self.board@, p, Disk::Light) is None,
                            complete(self.board@) ==> validate(self.board@, p, Disk::Dark) is None
                                && validate(self.board@, p, Disk::Light) is None,
                        ensures
                            validate(self.board@, p, Disk::Dark) is None,
                            validate(self.board@, p, Disk::Light) is None,
                        decreases 2 - disks.done(),
                    {
                        match disks.next() {
                            None => {
                                break ;
                            },
                            Some(d) => {
                                if Game::validate_move(&self.board, &p, d).is_some() {
                                    return false;
                                }
                            },
                        }
                    }
                },
            }
        }
    }

    /// How many disks each colour has on the board: dark first, then light.
    pub fn score(&self) -> (score: (usize, usize))
        ensures
            score.0 == count(self@.board, PositionState::Dark),
            score.1 == count(self@.board, PositionState::Light),
    {
        let mut dark_score: usize = 0;
        let mut light_score: usize = 0;
        let mut positions = self.board.iter();
        loop
            invariant
                positions.done() <= CELLS,
                dark_score == count_upto(
                    self.board@,
                    PositionState::Dark,
                    positions.done() as int,
                ),
                light_score == count_upto(
                    self.board@,
                    PositionState::Light,
                    positions.done() as int,
                ),
            ensures
                dark_score == count(self.board@, PositionState::Dark),
                light_score == count(self.board@, PositionState::Light),
            decreases CELLS - positions.done(),
        {
            proof {
                lemma_count_bound(self.board@, PositionState::Dark, positions.done() as int);
                lemma_count_bound(self.board@, PositionState::Light, positions.done() as int);
            }
            match positions.next() {
                None => {
                    break ;
                },
                Some(p) => {
                    match self.board.get(p.x, p.y) {
                        PositionState::Empty => {
                            continue ;
                        },
                        PositionState::Dark => {
                            dark_score += 1;
                        },
                        PositionState::Light => {
                            light_score += 1;
                        },
                    }
                },
            }
        }
        (dark_score, light_score)
    }

    /// Who is to move next, in words: the name of the colour, or "Complete"
    /// where the game is over.
    pub fn next_turn(&self) -> (label: String)
        ensures
            label@ == if self@.is_complete() {
                "Complete"@
            } else {
                self@.turn.name()
            },
    {
        if self.is_complete() {
            String::from_str("Complete")
        } else {
            self.turn.to_string()
        }
    }

    /// An iterator over the legal moves of the player to move.
    pub fn move_iter(&self) -> (iter: ValidMoveIterator)
        ensures
            iter.remaining() == self@.moves(),
    {
        ValidMoveIterator::new(self.board, self.turn)
    }

    /// The legal moves of the player to move, in scanning order. Each lays a
    /// disk on a free cell and turns over at least one disk.
    pub fn valid_moves(&self) -> (moves: Vec<ValidMove>)
        ensures
            views(moves@) == self@.moves(),
            forall|i: int|
                0 <= i < moves@.len() ==> {
                    let m = (#[trigger] moves@[i])@;
                    &&& legal(self@.board, m, self@.turn)
                    &&& m.in_bounds()
                    &&& self@.board[m.position.index()] == PositionState::Empty
                    &&& m.affected.len() > 0
                },
    {
        let mut iter = self.move_iter();
        let mut moves: Vec<ValidMove> = Vec::new();
        loop
            invariant
                views(moves@) + iter.remaining() == self@.moves(),
            ensures
                views(moves@) == self@.moves(),
            decreases iter.remaining().len(),
        {
            match iter.next() {
                None => {
                    assert(views(moves@) + iter.remaining() =~= views(moves@));
                    break ;
                },
                Some(m) => {
                    let ghost before = moves@;
                    moves.push(m);
                    assert(views(moves@) =~= views(before).push(m@));
                    assert(views(moves@) + iter.remaining() =~= self@.moves());
                },
            }
        }
        proof {
            crate::rules::lemma_legal_moves(self@.board, self@.turn);
            assert forall|i: int| 0 <= i < moves@.len() implies {
                let m = (#[trigger] moves@[i])@;
                &&& legal(self@.board, m, self@.turn)
                &&& m.in_bounds()
                &&& self@.board[m.position.index()] == PositionState::Empty
                &&& m.affected.len() > 0
            } by {
                assert(views(moves@)[i] == moves@[i]@);
                assert(self@.moves()[i] == moves@[i]@);
            }
        }
        moves
    }

    /// Hands the turn to the other player.
    pub fn end_turn(game: Game) -> (next: Self)
        ensures
            next@ == (GameView { turn: game@.turn.spec_opposite(), ..game@ }),
    {
        let mut game = game;
        game.turn = game.turn.opposite();
        game
    }

    /// Decides whether the player of colour `disk` may lay a disk on
    /// `position`, and which disks that would turn over.
    pub fn validate_move(board: &Board, position: &Position, disk: Disk) -> (found: Option<
        ValidMove,
    >)
        requires
            position.valid(),
        ensures
            view_of(found) == validate(board@, *position, disk),
    {
        if board.get(position.x, position.y) != PositionState::Empty {
            return None;
        }
        let disk_state: PositionState = disk.into();
        let mut flippable: Vec<Position> = Vec::new();
        let mut i: usize = 0;
        while i < DIRECTIONS
            invariant
                i <= DIRECTIONS,
                position.valid(),
                disk_state == PositionState::of(disk),
                flippable@ == flips_upto(board@, *position, disk, i as int),
            decreases DIRECTIONS - i,
        {
            let direction = Direction::nth(i);
            let mut current_position = *position;
            let mut maybe_flippable: Vec<Position> = Vec::new();
            let ghost start_x = position.x + direction.dx();
            let ghost start_y = position.y + direction.dy();
            loop
                invariant_except_break
                    current_position.valid(),
                    run(board@, start_x, start_y, direction, disk) == maybe_flippable@ + run(
                        board@,
                        current_position.x + direction.dx(),
                        current_position.y + direction.dy(),
                        direction,
                        disk,
                    ),
                    closes(board@, start_x, start_y, direction, disk) == closes(
                        board@,
                        current_position.x + direction.dx(),
                        current_position.y + direction.dy(),
                        direction,
                        disk,
                    ),
                    flippable@ == flips_upto(board@, *position, disk, i as int),
                invariant
                    i < DIRECTIONS,
                    position.valid(),
                    disk_state == PositionState::of(disk),
                    direction == Direction::spec_nth(i as int),
                    start_x == position.x + direction.dx(),
                    start_y == position.y + direction.dy(),
                ensures
                    flippable@ == flips_upto(board@, *position, disk, i as int) + captures(
                        board@,
                        *position,
                        direction,
                        disk,
                    ),
                decreases
                        room(
                            current_position.x as int,
                            current_position.y as int,
                            direction,
                        ),
            {
                match current_position.neighbor(&direction) {
                    None => {
                        break ;
                    },
                    Some(new_position) => {
                        let np_state = board.get(new_position.x, new_position.y);
                        if np_state == PositionState::Empty {
                            break ;
                        } else if np_state != disk_state {
                            maybe_flippable.push(new_position);
                            current_position = new_position;
                            continue ;
                        } else {
                            proof {
                                assert(run(
                                    board@,
                                    new_position.x as int,
                                    new_position.y as int,
                                    direction,
                                    disk,
                                ) =~= Seq::<Position>::empty());
                                assert(maybe_flippable@ + Seq::<Position>::empty()
                                    =~= maybe_flippable@);
                            }
                            flippable.append(&mut maybe_flippable);
                            break ;
                        }
                    },
                }
            }
            i += 1;
        }
        if flippable.is_empty() {
            None
        } else {
            Some(ValidMove { position: *position, affected: flippable })
        }
    }
}

impl GameView {
    /// A game replayed from a transcript holds the entries that were played,
    /// and a grid of 64 cells.
    pub proof fn lemma_replay_transcript(entries: Seq<Transcript>, n: int)
        requires
            0 <= n <= entries.len(),
            GameView::replay_upto(entries, n) is Some,
        ensures
            GameView::replay_upto(entries, n)->Some_0.transcript == entries.take(n),
            GameView::replay_upto(entries, n)->Some_0.wf(),
        decreases n,
    {
        if n > 0 {
            GameView::lemma_replay_transcript(entries, n - 1);
            let before = GameView::replay_upto(entries, n - 1)->Some_0;
            let after = GameView::replay_upto(entries, n)->Some_0;
            match entries[n - 1] {
                Transcript::Pass => {},
                Transcript::Play(p) => {
                    let m = validate(before.board, p, before.turn)->Some_0;
                    lemma_legal(before.board, m, before.turn);
                    crate::rules::lemma_apply_fills_one(before.board, m, before.turn);
                },
            }
            assert(after.transcript =~= entries.take(n));
        } else {
            assert(GameView::opening().transcript =~= entries.take(0));
        }
    }

    /// Once a transcript has failed, more entries do not mend it.
    pub proof fn lemma_replay_stays_none(entries: Seq<Transcript>, n: int, m: int)
        requires
            n <= m,
            GameView::replay_upto(entries, n) is None,
        ensures
            GameView::replay_upto(entries, m) is None,
        decreases m - n,
    {
        if n < m {
            GameView::lemma_replay_stays_none(entries, n, m - 1);
        }
    }
}

} // verus!
