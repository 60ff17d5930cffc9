//! The tree of all games, as mathematics: the finished games that can be
//! reached from a game, in the order in which a depth-first search meets
//! them, and as a collection without order.

use vstd::multiset::Multiset;
use vstd::prelude::*;
use crate::disk::Disk;
use crate::game::GameView;
use crate::rules::{
    empties, legal, lemma_apply_fills_one, lemma_legal, lemma_legal_moves, ValidMoveView,
};

verus! {

/// A bound on the number of turns that a game can still last: every move
/// fills a cell, and a pass is followed by a move unless the game is over.
pub open spec fn measure(g: GameView) -> nat {
    2 * empties(g.board) + if g.moves().len() == 0 {
        1nat
    } else {
        0nat
    }
}

/// A legal move brings the end of the game nearer.
pub proof fn lemma_play_decreases(g: GameView, m: ValidMoveView)
    requires
        g.wf(),
        legal(g.board, m, g.turn),
    ensures
        g.play(m).wf(),
        measure(g.play(m)) < measure(g),
{
    lemma_legal(g.board, m, g.turn);
    lemma_apply_fills_one(g.board, m, g.turn);
}

/// A forced pass in a game that is not over brings its end nearer.
pub proof fn lemma_pass_decreases(g: GameView)
    requires
        g.wf(),
        !g.is_complete(),
        g.moves().len() == 0,
    ensures
        g.pass().wf(),
        measure(g.pass()) < measure(g),
{
    assert(g.pass().moves().len() > 0) by {
        match g.turn {
            Disk::Dark => {},
            Disk::Light => {},
        }
    }
}

/// An order in which to try the moves of a game: for each game, a list of
/// moves.
pub type Order = spec_fn(GameView) -> Seq<ValidMoveView>;

/// The order that tries the legal moves of each game in scanning order.
pub open spec fn scanning() -> Order {
    |g: GameView| g.moves()
}

/// The order that tries the legal moves of each game against scanning order.
pub open spec fn against() -> Order {
    |g: GameView| g.moves().reverse()
}

/// The finished games that can be reached from `g`, in the order in which a
/// depth-first search meets them when it tries the moves of each game in the
/// order `ord`. A player without a legal move passes; a game in which
/// neither player has one is finished and is its own single outcome.
pub open spec fn outcomes_by(ord: Order, g: GameView) -> Seq<GameView>
    decreases measure(g), 1nat, 0nat,
{
    if !g.wf() {
        Seq::empty()
    } else if g.is_complete() {
        seq![g]
    } else if g.moves().len() == 0 {
        proof {
            lemma_pass_decreases(g);
        }
        outcomes_by(ord, g.pass())
    } else {
        outcomes_of_by(ord, g, ord(g))
    }
}

/// The finished games that can be reached from `g` by first making one of
/// the moves `tries`: those reached through the first of them, then those
/// reached through the second, and so on, each part in the order of a
/// search that follows `ord`. A move that is not legal leads nowhere.
pub open spec fn outcomes_of_by(ord: Order, g: GameView, tries: Seq<ValidMoveView>) -> Seq<
    GameView,
>
    decreases measure(g), 0nat, tries.len(),
{
    if !g.wf() || tries.len() == 0 {
        Seq::empty()
    } else if legal(g.board, tries[0], g.turn) {
        proof {
            lemma_play_decreases(g, tries[0]);
        }
        outcomes_by(ord, g.play(tries[0])) + outcomes_of_by(ord, g, tries.skip(1))
    } else {
        outcomes_of_by(ord, g, tries.skip(1))
    }
}

/// The finished games that can be reached from `g`, in the order in which a
/// depth-first search meets them when it tries the legal moves of each game
/// in scanning order.
pub open spec fn outcomes(g: GameView) -> Seq<GameView> {
    outcomes_by(scanning(), g)
}

/// The finished games that can be reached from `g` by first making one of
/// the moves `tries`, in the order of a search in scanning order.
pub open spec fn outcomes_of(g: GameView, tries: Seq<ValidMoveView>) -> Seq<GameView> {
    outcomes_of_by(scanning(), g, tries)
}

/// Every game has an outcome.
pub proof fn lemma_outcomes_nonempty(g: GameView)
    requires
        g.wf(),
    ensures
        outcomes(g).len() > 0,
    decreases measure(g),
{
    if g.is_complete() {
    } else if g.moves().len() == 0 {
        lemma_pass_decreases(g);
        lemma_outcomes_nonempty(g.pass());
    } else {
        lemma_legal_moves(g.board, g.turn);
        let m = g.moves()[0];
        lemma_play_decreases(g, m);
        lemma_outcomes_nonempty(g.play(m));
        assert(outcomes(g) == outcomes_of(g, g.moves()));
        assert(outcomes_of(g, g.moves()) == outcomes(g.play(m)) + outcomes_of(
            g,
            g.moves().skip(1),
        ));
    }
}

/// The outcomes of a game in which the player to move has a legal move are
/// those reached through its legal moves, taken in scanning order.
pub proof fn lemma_outcomes_by_moves(g: GameView)
    requires
        g.wf(),
        g.moves().len() > 0,
    ensures
        outcomes(g) == outcomes_of(g, g.moves()),
{
    assert(!g.is_complete()) by {
        match g.turn {
            Disk::Dark => {},
            Disk::Light => {},
        }
    }
}

/// The games that each of the moves `moves` leads to from `g`.
pub open spec fn plays(g: GameView, moves: Seq<ValidMoveView>) -> Seq<GameView> {
    moves.map_values(|m: ValidMoveView| g.play(m))
}

/// The finished games that can be reached from `g`, each as often as a
/// search finds it, in no order.
pub open spec fn lines(g: GameView) -> Multiset<GameView> {
    outcomes(g).to_multiset()
}

/// The finished games that can be reached from the games of a list, taken
/// together.
pub open spec fn lines_of_all(games: Seq<GameView>) -> Multiset<GameView>
    decreases games.len(),
{
    if games.len() == 0 {
        Multiset::empty()
    } else {
        lines_of_all(games.drop_last()).add(lines(games.last()))
    }
}

/// The lines of a list of one game are the lines of that game.
pub proof fn lemma_lines_single(g: GameView)
    ensures
        lines_of_all(seq![g]) == lines(g),
{
    let one = seq![g];
    assert(one.drop_last() =~= Seq::<GameView>::empty());
    assert(lines_of_all(one.drop_last()) =~= Multiset::<GameView>::empty());
    assert(lines_of_all(one) =~= lines(g));
}

/// The lines of two lists laid end to end are those of the one together
/// with those of the other.
pub proof fn lemma_lines_concat(a: Seq<GameView>, b: Seq<GameView>)
    ensures
        lines_of_all(a + b) == lines_of_all(a).add(lines_of_all(b)),
    decreases b.len(),
{
    if b.len() == 0 {
        assert(a + b =~= a);
        assert(lines_of_all(a).add(lines_of_all(b)) =~= lines_of_all(a));
    } else {
        lemma_lines_concat(a, b.drop_last());
        assert((a + b).drop_last() =~= a + b.drop_last());
        assert((a + b).last() == b.last());
        assert(lines_of_all(a + b) =~= lines_of_all(a).add(lines_of_all(b)));
    }
}

/// The lines of a list do not depend on the direction in which it is read.
pub proof fn lemma_lines_reverse(a: Seq<GameView>)
    ensures
        lines_of_all(a.reverse()) == lines_of_all(a),
    decreases a.len(),
{
    if a.len() > 0 {
        let head = a.drop_last();
        lemma_lines_reverse(head);
        assert(a.reverse() =~= seq![a.last()] + head.reverse());
        lemma_lines_concat(seq![a.last()], head.reverse());
        lemma_lines_single(a.last());
        assert(lines_of_all(a.reverse()) =~= lines_of_all(a));
    } else {
        assert(a.reverse() =~= a);
    }
}

/// The finished games reached through a list of legal moves are the lines of
/// the games that the moves lead to.
pub proof fn lemma_lines_of_plays(g: GameView, tries: Seq<ValidMoveView>)
    requires
        g.wf(),
        forall|i: int| 0 <= i < tries.len() ==> legal(g.board, #[trigger] tries[i], g.turn),
    ensures
        outcomes_of(g, tries).to_multiset() == lines_of_all(plays(g, tries)),
    decreases tries.len(),
{
    if tries.len() == 0 {
        assert(plays(g, tries) =~= Seq::<GameView>::empty());
        assert(outcomes_of(g, tries).to_multiset() =~= Multiset::<GameView>::empty()) by {
            outcomes_of(g, tries).to_multiset_ensures();
        }
    } else {
        let tail = tries.skip(1);
        assert forall|i: int| 0 <= i < tail.len() implies legal(
            g.board,
            #[trigger] tail[i],
            g.turn,
        ) by {
            assert(tail[i] == tries[i + 1]);
        }
        lemma_lines_of_plays(g, tail);
        assert(legal(g.board, tries[0], g.turn));
        let first = outcomes(g.play(tries[0]));
        vstd::seq_lib::lemma_multiset_commutative(first, outcomes_of(g, tail));
        assert(plays(g, tries) =~= seq![g.play(tries[0])] + plays(g, tail));
        lemma_lines_concat(seq![g.play(tries[0])], plays(g, tail));
        lemma_lines_single(g.play(tries[0]));
    }
}

/// The lines of a list are those of the list without its `i`-th game,
/// together with those of that game.
pub proof fn lemma_lines_remove(games: Seq<GameView>, i: int)
    requires
        0 <= i < games.len(),
    ensures
        lines_of_all(games) == lines_of_all(games.remove(i)).add(lines(games[i])),
    decreases games.len(),
{
    if i == games.len() - 1 {
        assert(games.remove(i) =~= games.drop_last());
    } else {
        lemma_lines_remove(games.drop_last(), i);
        assert(games.remove(i).drop_last() =~= games.drop_last().remove(i));
        assert(games.remove(i).last() == games.last());
        assert(lines_of_all(games) =~= lines_of_all(games.remove(i)).add(lines(games[i])));
    }
}

/// The lines reached through a list of moves do not depend on the order of
/// the moves.
pub proof fn lemma_lines_permutation(g: GameView, a: Seq<ValidMoveView>, b: Seq<ValidMoveView>)
    requires
        a.to_multiset() == b.to_multiset(),
    ensures
        lines_of_all(plays(g, a)) == lines_of_all(plays(g, b)),
    decreases a.len(),
{
    vstd::seq_lib::to_multiset_len(a);
    vstd::seq_lib::to_multiset_len(b);
    if a.len() == 0 {
        assert(plays(g, a) =~= plays(g, b));
    } else {
        let x = a.last();
        assert(a.contains(x));
        vstd::seq_lib::to_multiset_contains(a, x);
        vstd::seq_lib::to_multiset_contains(b, x);
        let i = choose|i: int| 0 <= i < b.len() && b[i] == x;
        vstd::seq_lib::to_multiset_remove(a, a.len() - 1);
        vstd::seq_lib::to_multiset_remove(b, i);
        assert(a.remove(a.len() - 1) =~= a.drop_last());
        lemma_lines_permutation(g, a.drop_last(), b.remove(i));
        lemma_lines_remove(plays(g, b), i);
        assert(plays(g, b).remove(i) =~= plays(g, b.remove(i)));
        assert(plays(g, a).drop_last() =~= plays(g, a.drop_last()));
    }
}

/// Every line of the game after a legal move is a line of the game before
/// it.
pub proof fn lemma_lines_after_move(g: GameView, m: ValidMoveView)
    requires
        g.wf(),
        g.moves().contains(m),
    ensures
        lines(g.play(m)).subset_of(lines(g)),
        g.play(m).wf(),
        measure(g.play(m)) < measure(g),
{
    lemma_legal_moves(g.board, g.turn);
    let k = choose|k: int| 0 <= k < g.moves().len() && g.moves()[k] == m;
    assert(legal(g.board, g.moves()[k], g.turn));
    lemma_play_decreases(g, m);
    lemma_outcomes_by_moves(g);
    lemma_lines_of_plays(g, g.moves());
    lemma_lines_remove(plays(g, g.moves()), k);
    assert(plays(g, g.moves())[k] == g.play(m));
}

/// The lines of a game in which the player to move must pass are those of
/// the game after the pass.
pub proof fn lemma_lines_after_pass(g: GameView)
    requires
        g.wf(),
        !g.is_complete(),
        g.moves().len() == 0,
    ensures
        lines(g.pass()) == lines(g),
        g.pass().wf(),
        measure(g.pass()) < measure(g),
{
    lemma_pass_decreases(g);
}

/// A finished game is its own single line.
pub proof fn lemma_lines_complete(g: GameView)
    requires
        g.wf(),
        g.is_complete(),
    ensures
        lines(g).contains(g),
        outcomes(g) == seq![g],
{
    assert(seq![g][0] == g);
    vstd::seq_lib::to_multiset_contains(seq![g], g);
}

/// The first outcome of a game that is not over is the first outcome of the
/// game after the first legal move in scanning order, or after the pass
/// where there is no legal move.
pub proof fn lemma_first_outcome(g: GameView)
    requires
        g.wf(),
        !g.is_complete(),
    ensures
        g.moves().len() > 0 ==> {
            let next = g.play(g.moves()[0]);
            &&& next.wf()
            &&& measure(next) < measure(g)
            &&& outcomes(next).len() > 0
            &&& outcomes(g)[0] == outcomes(next)[0]
        },
        g.moves().len() == 0 ==> {
            let next = g.pass();
            &&& next.wf()
            &&& measure(next) < measure(g)
            &&& outcomes(next).len() > 0
            &&& outcomes(g)[0] == outcomes(next)[0]
        },
{
    if g.moves().len() > 0 {
        lemma_legal_moves(g.board, g.turn);
        let m = g.moves()[0];
        lemma_play_decreases(g, m);
        lemma_outcomes_nonempty(g.play(m));
        assert(outcomes(g) == outcomes_of(g, g.moves()));
        assert(outcomes_of(g, g.moves()) == outcomes(g.play(m)) + outcomes_of(
            g,
            g.moves().skip(1),
        ));
    } else {
        lemma_pass_decreases(g);
        lemma_outcomes_nonempty(g.pass());
    }
}

} // verus!
