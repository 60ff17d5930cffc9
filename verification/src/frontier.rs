//! The games that lie a given number of turns ahead of a game, as
//! mathematics, and what they have to do with a search of the game.

use vstd::prelude::*;
use crate::board::cell;
use crate::direction::Direction;
use crate::disk::Disk;
use crate::game::GameView;
use crate::position::{Position, PositionState};
use crate::reach::{
    continues, lemma_continues, lemma_continues_further, lemma_reaches_through, reaches, step,
};
use crate::rules::{captures, closes, lemma_flips_cover, lemma_legal_moves, run, validate};
use crate::tree::{
    lemma_lines_concat, lemma_lines_of_plays, lemma_lines_reverse, lemma_lines_single,
    lemma_play_decreases, lines, lines_of_all, plays,
};

verus! {

/// The games one turn after `g`: those that the legal moves lead to, the
/// move found last in scanning order first; where the player to move has no
/// legal move, the game after the pass; and a finished game itself, which
/// stays as it is.
pub open spec fn successors(g: GameView) -> Seq<GameView> {
    if g.is_complete() {
        seq![g]
    } else if g.moves().len() == 0 {
        seq![g.pass()]
    } else {
        plays(g, g.moves().reverse())
    }
}

/// The games one turn after those of a frontier, in the order of the
/// frontier.
pub open spec fn expand_level(frontier: Seq<GameView>) -> Seq<GameView>
    decreases frontier.len(),
{
    if frontier.len() == 0 {
        Seq::empty()
    } else {
        expand_level(frontier.drop_last()) + successors(frontier.last())
    }
}

/// The games `depth` turns after `g`, finished games staying where the game
/// ended before that.
pub open spec fn expand(g: GameView, depth: nat) -> Seq<GameView>
    decreases depth,
{
    if depth == 0 {
        seq![g]
    } else {
        expand_level(expand(g, (depth - 1) as nat))
    }
}

/// Whether every game of a frontier is finished.
pub open spec fn all_complete(frontier: Seq<GameView>) -> bool {
    forall|i: int| 0 <= i < frontier.len() ==> (#[trigger] frontier[i]).is_complete()
}

/// Whether every game of a frontier has a grid of 64 cells.
pub open spec fn all_wf(frontier: Seq<GameView>) -> bool {
    forall|i: int| 0 <= i < frontier.len() ==> (#[trigger] frontier[i]).wf()
}

/// A frontier of finished games stays as it is.
pub proof fn lemma_expand_level_complete(frontier: Seq<GameView>)
    requires
        all_complete(frontier),
    ensures
        expand_level(frontier) == frontier,
    decreases frontier.len(),
{
    if frontier.len() > 0 {
        let head = frontier.drop_last();
        assert forall|i: int| 0 <= i < head.len() implies (#[trigger] head[i]).is_complete() by {
            assert(head[i] == frontier[i]);
        }
        lemma_expand_level_complete(head);
        assert(frontier.last().is_complete());
        assert(head + seq![frontier.last()] =~= frontier);
    } else {
        assert(expand_level(frontier) =~= frontier);
    }
}

/// Once every game of the frontier is finished, more turns change nothing.
pub proof fn lemma_expand_stable(g: GameView, reached: nat, depth: nat)
    requires
        reached <= depth,
        all_complete(expand(g, reached)),
    ensures
        expand(g, depth) == expand(g, reached),
    decreases depth,
{
    if reached < depth {
        lemma_expand_stable(g, reached, (depth - 1) as nat);
        lemma_expand_level_complete(expand(g, reached));
    }
}

/// Every game has a successor, every successor has a grid of 64 cells, and
/// every successor continues the game.
pub proof fn lemma_successors(g: GameView)
    requires
        g.wf(),
    ensures
        successors(g).len() > 0,
        all_wf(successors(g)),
        forall|i: int| 0 <= i < successors(g).len() ==> continues(g, #[trigger] successors(g)[i]),
{
    if g.is_complete() {
        assert(reaches(g, 0, g));
    } else if g.moves().len() == 0 {
        assert(step(g, g.pass()));
        assert(reaches(g.pass(), 0, g.pass()));
        lemma_reaches_through(g, g.pass(), 0, g.pass());
    } else {
        lemma_legal_moves(g.board, g.turn);
        let turned = g.moves().reverse();
        assert forall|i: int| 0 <= i < successors(g).len() implies (#[trigger] successors(
            g,
        )[i]).wf() && continues(g, successors(g)[i]) by {
            let m = turned[i];
            assert(m == g.moves()[g.moves().len() - 1 - i]);
            lemma_play_decreases(g, m);
            assert(successors(g)[i] == g.play(m));
            assert(step(g, g.play(m)));
            assert(reaches(g.play(m), 0, g.play(m)));
            lemma_reaches_through(g, g.play(m), 0, g.play(m));
        }
    }
}

/// A turn keeps the grids of a frontier at 64 cells.
pub proof fn lemma_expand_level_wf(frontier: Seq<GameView>)
    requires
        all_wf(frontier),
    ensures
        all_wf(expand_level(frontier)),
    decreases frontier.len(),
{
    if frontier.len() > 0 {
        let head = frontier.drop_last();
        assert forall|i: int| 0 <= i < head.len() implies (#[trigger] head[i]).wf() by {
            assert(head[i] == frontier[i]);
        }
        lemma_expand_level_wf(head);
        assert(frontier.last().wf());
        lemma_successors(frontier.last());
        let a = expand_level(head);
        let b = successors(frontier.last());
        assert forall|i: int| 0 <= i < expand_level(frontier).len() implies (
        #[trigger] expand_level(frontier)[i]).wf() by {
            if i < a.len() {
                assert(expand_level(frontier)[i] == a[i]);
            } else {
                assert(expand_level(frontier)[i] == b[i - a.len()]);
            }
        }
    }
}

/// The games that lie ahead of a game with a grid of 64 cells have such
/// grids too.
pub proof fn lemma_expand_wf(g: GameView, depth: nat)
    requires
        g.wf(),
    ensures
        all_wf(expand(g, depth)),
    decreases depth,
{
    if depth > 0 {
        lemma_expand_wf(g, (depth - 1) as nat);
        lemma_expand_level_wf(expand(g, (depth - 1) as nat));
    }
}

/// Each game of a frontier is continued by a game one turn on.
pub proof fn lemma_expand_level_continues(frontier: Seq<GameView>, i: int)
    requires
        all_wf(frontier),
        0 <= i < frontier.len(),
    ensures
        exists|j: int|
            0 <= j < expand_level(frontier).len() && continues(
                frontier[i],
                #[trigger] expand_level(frontier)[j],
            ),
    decreases frontier.len(),
{
    let head = frontier.drop_last();
    let a = expand_level(head);
    let b = successors(frontier.last());
    if i == frontier.len() - 1 {
        assert(frontier.last().wf());
        lemma_successors(frontier.last());
        assert(continues(frontier[i], b[0]));
        assert(expand_level(frontier)[a.len() as int] == b[0]);
    } else {
        assert forall|k: int| 0 <= k < head.len() implies (#[trigger] head[k]).wf() by {
            assert(head[k] == frontier[k]);
        }
        lemma_expand_level_continues(head, i);
        let j = choose|j: int| 0 <= j < a.len() && continues(head[i], #[trigger] a[j]);
        assert(expand_level(frontier)[j] == a[j]);
    }
}

/// The frontier never loses a line of play: each game that lies `shallow`
/// turns ahead is continued by a game that lies `deep` turns ahead, for any
/// `deep` that is no less than `shallow`, and its transcript is the start of
/// the transcript of that game.
pub proof fn lemma_expand_continues(g: GameView, shallow: nat, deep: nat, i: int)
    requires
        g.wf(),
        shallow <= deep,
        0 <= i < expand(g, shallow).len(),
    ensures
        exists|j: int|
            0 <= j < expand(g, deep).len() && continues(
                expand(g, shallow)[i],
                #[trigger] expand(g, deep)[j],
            ) && expand(g, shallow)[i].transcript.is_prefix_of(expand(g, deep)[j].transcript),
    decreases deep,
{
    let a = expand(g, shallow)[i];
    lemma_expand_wf(g, shallow);
    assert(a.wf());
    if shallow == deep {
        assert(reaches(a, 0, a));
        lemma_continues(a, a);
        assert(continues(a, expand(g, deep)[i]));
    } else {
        let before = expand(g, (deep - 1) as nat);
        lemma_expand_continues(g, shallow, (deep - 1) as nat, i);
        let k = choose|k: int| 0 <= k < before.len() && continues(a, #[trigger] before[k]);
        lemma_expand_wf(g, (deep - 1) as nat);
        lemma_expand_level_continues(before, k);
        let j = choose|j: int|
            0 <= j < expand_level(before).len() && continues(
                before[k],
                #[trigger] expand_level(before)[j],
            );
        lemma_continues_further(a, before[k], expand(g, deep)[j]);
        lemma_continues(a, expand(g, deep)[j]);
    }
}

/// The lines of a game are the lines of its successors.
pub proof fn lemma_lines_of_successors(g: GameView)
    requires
        g.wf(),
    ensures
        lines_of_all(successors(g)) == lines(g),
{
    if g.is_complete() {
        lemma_lines_single(g);
    } else if g.moves().len() == 0 {
        lemma_lines_single(g.pass());
    } else {
        lemma_legal_moves(g.board, g.turn);
        lemma_lines_of_plays(g, g.moves());
        assert(plays(g, g.moves().reverse()) =~= plays(g, g.moves()).reverse());
        lemma_lines_reverse(plays(g, g.moves()));
    }
}

/// A turn keeps the lines of a frontier.
pub proof fn lemma_lines_of_level(frontier: Seq<GameView>)
    requires
        all_wf(frontier),
    ensures
        lines_of_all(expand_level(frontier)) == lines_of_all(frontier),
    decreases frontier.len(),
{
    if frontier.len() > 0 {
        let head = frontier.drop_last();
        assert forall|i: int| 0 <= i < head.len() implies (#[trigger] head[i]).wf() by {
            assert(head[i] == frontier[i]);
        }
        lemma_lines_of_level(head);
        assert(frontier.last().wf());
        lemma_lines_of_successors(frontier.last());
        lemma_lines_concat(expand_level(head), successors(frontier.last()));
    }
}

/// Searching each game that lies `depth` turns ahead of `g` finds, taken
/// together, exactly the finished games that a single search from `g`
/// finds: none is lost, and none is found twice over.
pub proof fn lemma_partition(g: GameView, depth: nat)
    requires
        g.wf(),
    ensures
        lines_of_all(expand(g, depth)) == lines(g),
    decreases depth,
{
    if depth == 0 {
        lemma_lines_single(g);
    } else {
        lemma_partition(g, (depth - 1) as nat);
        lemma_expand_wf(g, (depth - 1) as nat);
        lemma_lines_of_level(expand(g, (depth - 1) as nat));
    }
}

/// The cell of the first move, D3.
pub open spec fn first_cell() -> Position {
    Position { x: 3, y: 2 }
}

/// The game after the first move.
pub open spec fn first_game() -> GameView {
    GameView::opening().play(
        validate(GameView::opening().board, first_cell(), Disk::Dark)->Some_0,
    )
}

/// Dark may open on D3: the disk laid there turns over the light disk on D4.
pub proof fn lemma_legal_seed()
    ensures
        validate(GameView::opening().board, first_cell(), Disk::Dark) is Some,
        first_game().wf(),
{
    let cells = GameView::opening().board;
    let p = Position { x: 3, y: 2 };
    let south = Direction::South;
    let dark = Disk::Dark;
    assert(Direction::spec_nth(4) == south);
    assert(cell(cells, 3, 3) == PositionState::Light);
    assert(cell(cells, 3, 4) == PositionState::Dark);
    assert(cell(cells, 3, 2) == PositionState::Empty);
    assert(closes(cells, 3, 4, south, dark));
    assert(closes(cells, 3, 3, south, dark));
    assert(run(cells, 3, 3, south, dark).len() > 0);
    assert(captures(cells, p, south, dark).len() > 0);
    lemma_flips_cover(cells, p, dark, 4, 8);
    let m = validate(cells, p, dark)->Some_0;
    lemma_play_decreases(GameView::opening(), m);
}


} // verus!
