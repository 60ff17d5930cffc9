//! What the rules allow, stated without a search: the games that a game can
//! turn into, turn by turn, and the finished games in which it can end. A
//! search finds exactly these, and each of them once.

use vstd::prelude::*;
use crate::disk::Disk;
use crate::game::GameView;
use crate::rules::{
    legal, lemma_legal, lemma_legal_is_listed, lemma_moves_in_order,
    ValidMoveView,
};
use crate::transcript::{on_board_entries, Transcript};
use crate::tree::{
    against, lemma_pass_decreases, lemma_play_decreases, measure, outcomes, outcomes_by,
    outcomes_of_by, scanning, Order,
};

verus! {

/// Whether `b` is the game `a` one turn on: after a legal move, or, where the
/// player to move has none and the game is not over, after a pass.
pub open spec fn step(a: GameView, b: GameView) -> bool {
    ||| exists|m: ValidMoveView| #[trigger] legal(a.board, m, a.turn) && b == a.play(m)
    ||| a.moves().len() == 0 && !a.is_complete() && b == a.pass()
}

/// Whether `b` is the game `a` exactly `n` turns on.
pub open spec fn reaches(a: GameView, n: nat, b: GameView) -> bool
    decreases n,
{
    if n == 0 {
        a == b
    } else {
        exists|mid: GameView| #[trigger] step(a, mid) && reaches(mid, (n - 1) as nat, b)
    }
}

/// Whether the game `g` can end as `end`: `end` is finished, and is `g` some
/// number of turns on.
pub open spec fn ends_as(g: GameView, end: GameView) -> bool {
    end.is_complete() && exists|n: nat| #[trigger] reaches(g, n, end)
}

/// Whether `b` continues the game `a`: it is `a` some number of turns on.
pub open spec fn continues(a: GameView, b: GameView) -> bool {
    exists|n: nat| #[trigger] reaches(a, n, b)
}

/// Whether no two moves of a list lie on the same cell.
pub open spec fn apart(tries: Seq<ValidMoveView>) -> bool {
    forall|i: int, j: int|
        0 <= i < j < tries.len() ==> (#[trigger] tries[i]).position != (
        #[trigger] tries[j]).position
}

/// Whether an order tries every legal move of every game.
pub open spec fn covers(ord: Order) -> bool {
    forall|g: GameView, m: ValidMoveView|
        g.wf() && #[trigger] legal(g.board, m, g.turn) ==> (#[trigger] ord(g)).contains(m)
}

/// Whether an order tries no cell of any game twice.
pub open spec fn exact(ord: Order) -> bool {
    forall|g: GameView| g.wf() ==> apart(#[trigger] ord(g))
}

/// A game that is a turn away from a game that reaches an end reaches that
/// end itself, one turn later.
pub proof fn lemma_reaches_through(a: GameView, mid: GameView, n: nat, b: GameView)
    requires
        step(a, mid),
        reaches(mid, n, b),
    ensures
        reaches(a, n + 1, b),
{
    assert(reaches(mid, ((n + 1) - 1) as nat, b));
}

/// A turn adds one entry to the transcript and keeps the grid at 64 cells.
pub proof fn lemma_step(a: GameView, b: GameView)
    requires
        a.wf(),
        step(a, b),
    ensures
        b.wf(),
        b.transcript.len() == a.transcript.len() + 1,
        b.transcript.drop_last() == a.transcript,
        measure(b) < measure(a),
{
    if a.moves().len() == 0 && !a.is_complete() && b == a.pass() {
        lemma_pass_decreases(a);
        assert(b.transcript.drop_last() =~= a.transcript);
    } else {
        let m = choose|m: ValidMoveView| #[trigger] legal(a.board, m, a.turn) && b == a.play(m);
        lemma_play_decreases(a, m);
        assert(b.transcript.drop_last() =~= a.transcript);
    }
}

/// A game `n` turns on has the transcript of the game it came from, and `n`
/// entries more.
pub proof fn lemma_reaches_continues(a: GameView, n: nat, b: GameView)
    requires
        a.wf(),
        reaches(a, n, b),
    ensures
        b.wf(),
        b.transcript.len() == a.transcript.len() + n,
        a.transcript.is_prefix_of(b.transcript),
    decreases n,
{
    if n > 0 {
        let mid = choose|mid: GameView| #[trigger] step(a, mid) && reaches(mid, (n - 1) as nat, b);
        lemma_step(a, mid);
        lemma_reaches_continues(mid, (n - 1) as nat, b);
        assert forall|i: int| 0 <= i < a.transcript.len() implies a.transcript[i]
            == b.transcript[i] by {
            assert(a.transcript[i] == mid.transcript.drop_last()[i]);
            assert(mid.transcript[i] == b.transcript.subrange(0, mid.transcript.len() as int)[i]);
        }
        assert(a.transcript =~= b.transcript.subrange(0, a.transcript.len() as int));
    } else {
        assert(a.transcript =~= b.transcript.subrange(0, a.transcript.len() as int));
    }
}

/// A game that continues a game has the transcript of that game, and
/// perhaps more entries behind it; where the one names only cells of the
/// board, so does the other.
pub proof fn lemma_continues(a: GameView, b: GameView)
    requires
        a.wf(),
        continues(a, b),
    ensures
        b.wf(),
        a.transcript.is_prefix_of(b.transcript),
        on_board_entries(a.transcript) ==> on_board_entries(b.transcript),
{
    let n = choose|n: nat| #[trigger] reaches(a, n, b);
    lemma_reaches_continues(a, n, b);
    lemma_reaches_on_board(a, n, b);
}

/// A game that continues a game which continues a third continues the
/// third.
pub proof fn lemma_continues_further(a: GameView, b: GameView, c: GameView)
    requires
        continues(a, b),
        continues(b, c),
    ensures
        continues(a, c),
{
    let n = choose|n: nat| #[trigger] reaches(a, n, b);
    let m = choose|m: nat| #[trigger] reaches(b, m, c);
    lemma_reaches_further(a, n, b, m, c);
}

/// A game `n` turns on from a game, and then `m` turns on, is that game
/// `n + m` turns on.
pub proof fn lemma_reaches_further(a: GameView, n: nat, b: GameView, m: nat, c: GameView)
    requires
        reaches(a, n, b),
        reaches(b, m, c),
    ensures
        reaches(a, n + m, c),
    decreases n,
{
    if n > 0 {
        let mid = choose|mid: GameView| #[trigger] step(a, mid) && reaches(mid, (n - 1) as nat, b);
        lemma_reaches_further(mid, (n - 1) as nat, b, m, c);
        lemma_reaches_through(a, mid, (n - 1 + m) as nat, c);
    }
}

/// A game that names only cells of the board still does so any number of
/// turns on.
pub proof fn lemma_reaches_on_board(a: GameView, n: nat, b: GameView)
    requires
        a.wf(),
        reaches(a, n, b),
    ensures
        on_board_entries(a.transcript) ==> on_board_entries(b.transcript),
    decreases n,
{
    if n > 0 {
        let mid = choose|mid: GameView| #[trigger] step(a, mid) && reaches(mid, (n - 1) as nat, b);
        lemma_step(a, mid);
        lemma_reaches_on_board(mid, (n - 1) as nat, b);
        if on_board_entries(a.transcript) {
            assert forall|i: int| 0 <= i < mid.transcript.len() implies ((
            #[trigger] mid.transcript[i]) matches Transcript::Play(p) ==> p.valid()) by {
                if i < a.transcript.len() {
                    assert(mid.transcript[i] == mid.transcript.drop_last()[i]);
                } else if !(a.moves().len() == 0 && !a.is_complete() && mid == a.pass()) {
                    let m = choose|m: ValidMoveView| #[trigger]
                        legal(a.board, m, a.turn) && mid == a.play(m);
                    lemma_legal(a.board, m, a.turn);
                }
            }
        }
    }
}

/// A finished game allows no further turn.
pub proof fn lemma_complete_is_final(g: GameView, next: GameView)
    requires
        g.wf(),
        g.is_complete(),
    ensures
        !step(g, next),
{
    if step(g, next) {
        let m = choose|m: ValidMoveView| #[trigger] legal(g.board, m, g.turn) && next == g.play(m);
        lemma_legal_is_listed(g.board, m, g.turn);
        match g.turn {
            Disk::Dark => {},
            Disk::Light => {},
        }
    }
}

/// Whatever the order of a search, each game that it finds is one in which
/// the game searched can end.
pub proof fn lemma_outcomes_are_ends(ord: Order, g: GameView)
    requires
        g.wf(),
    ensures
        forall|i: int|
            0 <= i < outcomes_by(ord, g).len() ==> ends_as(g, #[trigger] outcomes_by(ord, g)[i]),
    decreases measure(g), 1nat, 0nat,
{
    if g.is_complete() {
        assert(reaches(g, 0, g));
        assert(outcomes_by(ord, g) == seq![g]);
    } else if g.moves().len() == 0 {
        lemma_pass_decreases(g);
        lemma_outcomes_are_ends(ord, g.pass());
        assert(outcomes_by(ord, g) == outcomes_by(ord, g.pass()));
        assert forall|i: int| 0 <= i < outcomes_by(ord, g).len() implies ends_as(
            g,
            #[trigger] outcomes_by(ord, g)[i],
        ) by {
            let e = outcomes_by(ord, g.pass())[i];
            assert(ends_as(g.pass(), e));
            let n = choose|n: nat| #[trigger] reaches(g.pass(), n, e);
            assert(step(g, g.pass()));
            lemma_reaches_through(g, g.pass(), n, e);
        }
    } else {
        lemma_outcomes_of_are_ends(ord, g, ord(g));
        assert(outcomes_by(ord, g) == outcomes_of_by(ord, g, ord(g)));
    }
}

/// Whatever the order of a search, each game that it finds through a list of
/// moves is one in which the game searched can end.
pub proof fn lemma_outcomes_of_are_ends(ord: Order, g: GameView, tries: Seq<ValidMoveView>)
    requires
        g.wf(),
    ensures
        forall|i: int|
            0 <= i < outcomes_of_by(ord, g, tries).len() ==> ends_as(
                g,
                #[trigger] outcomes_of_by(ord, g, tries)[i],
            ),
    decreases measure(g), 0nat, tries.len(),
{
    if tries.len() == 0 {
        assert(outcomes_of_by(ord, g, tries) =~= Seq::<GameView>::empty());
    } else {
        lemma_outcomes_of_are_ends(ord, g, tries.skip(1));
        let others = outcomes_of_by(ord, g, tries.skip(1));
        if legal(g.board, tries[0], g.turn) {
            let next = g.play(tries[0]);
            lemma_play_decreases(g, tries[0]);
            lemma_outcomes_are_ends(ord, next);
            let first = outcomes_by(ord, next);
            assert(outcomes_of_by(ord, g, tries) == first + others);
            assert forall|i: int| 0 <= i < outcomes_of_by(ord, g, tries).len() implies ends_as(
                g,
                #[trigger] outcomes_of_by(ord, g, tries)[i],
            ) by {
                if i < first.len() {
                    assert(outcomes_of_by(ord, g, tries)[i] == first[i]);
                    assert(ends_as(next, first[i]));
                    let n = choose|n: nat| #[trigger] reaches(next, n, first[i]);
                    assert(step(g, next));
                    lemma_reaches_through(g, next, n, first[i]);
                } else {
                    assert(outcomes_of_by(ord, g, tries)[i] == others[i - first.len()]);
                    assert(ends_as(g, others[i - first.len()]));
                }
            }
        } else {
            assert(outcomes_of_by(ord, g, tries) == others);
        }
    }
}

/// What a search finds behind one move of a list, it finds through the
/// list.
pub proof fn lemma_found_through(
    ord: Order,
    g: GameView,
    tries: Seq<ValidMoveView>,
    k: int,
    end: GameView,
)
    requires
        g.wf(),
        0 <= k < tries.len(),
        legal(g.board, tries[k], g.turn),
        outcomes_by(ord, g.play(tries[k])).contains(end),
    ensures
        outcomes_of_by(ord, g, tries).contains(end),
    decreases tries.len(),
{
    let others = outcomes_of_by(ord, g, tries.skip(1));
    let first = if legal(g.board, tries[0], g.turn) {
        outcomes_by(ord, g.play(tries[0]))
    } else {
        Seq::<GameView>::empty()
    };
    assert(outcomes_of_by(ord, g, tries) =~= first + others);
    if k == 0 {
        let i = choose|i: int| 0 <= i < first.len() && first[i] == end;
        assert((first + others)[i] == end);
    } else {
        assert(tries.skip(1)[k - 1] == tries[k]);
        lemma_found_through(ord, g, tries.skip(1), k - 1, end);
        let j = choose|j: int| 0 <= j < others.len() && others[j] == end;
        assert((first + others)[first.len() + j] == end);
    }
}

/// A search that tries every legal move finds every game in which the game
/// searched can end.
pub proof fn lemma_ends_are_outcomes(ord: Order, g: GameView, n: nat, end: GameView)
    requires
        g.wf(),
        covers(ord),
        end.is_complete(),
        reaches(g, n, end),
    ensures
        outcomes_by(ord, g).contains(end),
    decreases n,
{
    if n == 0 {
        assert(outcomes_by(ord, g) == seq![g]);
        assert(seq![g][0] == end);
    } else {
        let mid = choose|mid: GameView| #[trigger] step(g, mid) && reaches(mid, (n - 1) as nat, end);
        if g.is_complete() {
            lemma_complete_is_final(g, mid);
        } else if g.moves().len() == 0 && mid == g.pass() {
            lemma_pass_decreases(g);
            lemma_ends_are_outcomes(ord, mid, (n - 1) as nat, end);
        } else {
            let m = choose|m: ValidMoveView| #[trigger] legal(g.board, m, g.turn) && mid == g.play(m);
            lemma_legal_is_listed(g.board, m, g.turn);
            lemma_play_decreases(g, m);
            lemma_ends_are_outcomes(ord, mid, (n - 1) as nat, end);
            let tries = ord(g);
            assert(tries.contains(m));
            let k = choose|k: int| 0 <= k < tries.len() && tries[k] == m;
            lemma_found_through(ord, g, tries, k, end);
            assert(outcomes_by(ord, g) == outcomes_of_by(ord, g, ord(g)));
        }
    }
}

/// Whether `end` continues `g` with a move onto the cell of one of `tries`.
pub open spec fn goes_through(g: GameView, tries: Seq<ValidMoveView>, end: GameView) -> bool {
    &&& end.transcript.len() > g.transcript.len()
    &&& exists|k: int|
        0 <= k < tries.len() && end.transcript[g.transcript.len() as int] == Transcript::Play(
            (#[trigger] tries[k]).position,
        )
}

/// A search that tries no cell twice finds no game twice.
pub proof fn lemma_outcomes_distinct(ord: Order, g: GameView)
    requires
        g.wf(),
        exact(ord),
    ensures
        outcomes_by(ord, g).no_duplicates(),
    decreases measure(g), 1nat, 0nat,
{
    if g.is_complete() {
        assert(outcomes_by(ord, g) == seq![g]);
    } else if g.moves().len() == 0 {
        lemma_pass_decreases(g);
        lemma_outcomes_distinct(ord, g.pass());
    } else {
        assert(apart(ord(g)));
        lemma_outcomes_of_distinct(ord, g, ord(g));
    }
}

/// A search that tries no cell twice finds no game twice through a list of
/// moves onto different cells, and each game that it finds goes through one
/// of the moves.
pub proof fn lemma_outcomes_of_distinct(ord: Order, g: GameView, tries: Seq<ValidMoveView>)
    requires
        g.wf(),
        exact(ord),
        apart(tries),
    ensures
        outcomes_of_by(ord, g, tries).no_duplicates(),
        forall|i: int|
            0 <= i < outcomes_of_by(ord, g, tries).len() ==> goes_through(
                g,
                tries,
                #[trigger] outcomes_of_by(ord, g, tries)[i],
            ),
    decreases measure(g), 0nat, tries.len(),
{
    if tries.len() == 0 {
        assert(outcomes_of_by(ord, g, tries) =~= Seq::<GameView>::empty());
    } else {
        let tail = tries.skip(1);
        assert forall|i: int, j: int| 0 <= i < j < tail.len() implies (#[trigger] tail[i]).position
            != (#[trigger] tail[j]).position by {
            assert(tail[i] == tries[i + 1]);
            assert(tail[j] == tries[j + 1]);
        }
        lemma_outcomes_of_distinct(ord, g, tail);
        let others = outcomes_of_by(ord, g, tail);
        let at = g.transcript.len() as int;
        assert forall|j: int| 0 <= j < others.len() implies goes_through(
            g,
            tries,
            #[trigger] others[j],
        ) && others[j].transcript[at] != Transcript::Play(tries[0].position) by {
            assert(goes_through(g, tail, others[j]));
            let k = choose|k: int|
                0 <= k < tail.len() && others[j].transcript[at] == Transcript::Play(
                    (#[trigger] tail[k]).position,
                );
            assert(tail[k] == tries[k + 1]);
            assert(tries[0].position != tries[k + 1].position);
        }
        if legal(g.board, tries[0], g.turn) {
            let next = g.play(tries[0]);
            lemma_play_decreases(g, tries[0]);
            lemma_outcomes_distinct(ord, next);
            lemma_outcomes_are_ends(ord, next);
            let first = outcomes_by(ord, next);
            assert(outcomes_of_by(ord, g, tries) == first + others);
            assert forall|i: int| 0 <= i < first.len() implies goes_through(
                g,
                tries,
                #[trigger] first[i],
            ) && first[i].transcript[at] == Transcript::Play(tries[0].position) by {
                assert(ends_as(next, first[i]));
                let n = choose|n: nat| #[trigger] reaches(next, n, first[i]);
                lemma_reaches_continues(next, n, first[i]);
                assert(next.transcript[at] == Transcript::Play(tries[0].position));
                assert(first[i].transcript.subrange(0, next.transcript.len() as int)[at]
                    == next.transcript[at]);
            }
            assert forall|i: int, j: int|
                0 <= i < first.len() && 0 <= j < others.len() implies first[i] != others[j] by {
                assert(first[i].transcript[at] == Transcript::Play(tries[0].position));
                assert(others[j].transcript[at] != Transcript::Play(tries[0].position));
            }
            vstd::seq_lib::lemma_no_dup_in_concat(first, others);
            assert forall|i: int| 0 <= i < (first + others).len() implies goes_through(
                g,
                tries,
                #[trigger] (first + others)[i],
            ) by {
                if i < first.len() {
                    assert((first + others)[i] == first[i]);
                } else {
                    assert((first + others)[i] == others[i - first.len()]);
                }
            }
        } else {
            assert(outcomes_of_by(ord, g, tries) == others);
        }
    }
}

/// Scanning order tries every legal move, and no cell twice.
pub proof fn lemma_scanning()
    ensures
        covers(scanning()),
        exact(scanning()),
{
    assert forall|g: GameView, m: ValidMoveView|
        g.wf() && #[trigger] legal(g.board, m, g.turn) implies (#[trigger] scanning()(
        g,
    )).contains(m) by {
        lemma_legal_is_listed(g.board, m, g.turn);
    }
    assert forall|g: GameView| g.wf() implies apart(#[trigger] scanning()(g)) by {
        lemma_moves_in_order(g.board, g.turn, 0, 64);
    }
}

/// The order against scanning order tries every legal move, and no cell
/// twice.
pub proof fn lemma_against()
    ensures
        covers(against()),
        exact(against()),
{
    assert forall|g: GameView, m: ValidMoveView|
        g.wf() && #[trigger] legal(g.board, m, g.turn) implies (#[trigger] against()(
        g,
    )).contains(m) by {
        lemma_legal_is_listed(g.board, m, g.turn);
        let k = choose|k: int| 0 <= k < g.moves().len() && g.moves()[k] == m;
        assert(g.moves().reverse()[g.moves().len() - 1 - k] == m);
    }
    assert forall|g: GameView| g.wf() implies apart(#[trigger] against()(g)) by {
        lemma_moves_in_order(g.board, g.turn, 0, 64);
        let r = g.moves().reverse();
        assert forall|i: int, j: int| 0 <= i < j < r.len() implies (#[trigger] r[i]).position != (
        #[trigger] r[j]).position by {
            assert(r[i] == g.moves()[g.moves().len() - 1 - i]);
            assert(r[j] == g.moves()[g.moves().len() - 1 - j]);
        }
    }
}

/// A search that tries every legal move of every game, and no cell twice,
/// finds exactly the games in which the game searched can end, each of them
/// once.
pub proof fn lemma_search_is_exact(ord: Order, g: GameView)
    requires
        g.wf(),
        covers(ord),
        exact(ord),
    ensures
        outcomes_by(ord, g).no_duplicates(),
        forall|end: GameView| #[trigger] outcomes_by(ord, g).contains(end) <==> ends_as(g, end),
{
    lemma_outcomes_distinct(ord, g);
    lemma_outcomes_are_ends(ord, g);
    assert forall|end: GameView| ends_as(g, end) implies #[trigger] outcomes_by(ord, g).contains(
        end,
    ) by {
        let n = choose|n: nat| #[trigger] reaches(g, n, end);
        lemma_ends_are_outcomes(ord, g, n, end);
    }
}

/// A search in scanning order finds exactly the games in which the game
/// searched can end, each of them once.
pub proof fn lemma_outcomes_exact(g: GameView)
    requires
        g.wf(),
    ensures
        outcomes(g).no_duplicates(),
        forall|end: GameView| #[trigger] outcomes(g).contains(end) <==> ends_as(g, end),
{
    lemma_scanning();
    lemma_search_is_exact(scanning(), g);
}

/// Two searches that try every legal move of every game, and no cell twice,
/// find the same games, each of them once, whatever their orders.
pub proof fn lemma_orders_agree(first: Order, second: Order, g: GameView)
    requires
        g.wf(),
        covers(first),
        exact(first),
        covers(second),
        exact(second),
    ensures
        outcomes_by(first, g).to_multiset() == outcomes_by(second, g).to_multiset(),
{
    let a = outcomes_by(first, g);
    let b = outcomes_by(second, g);
    lemma_search_is_exact(first, g);
    lemma_search_is_exact(second, g);
    a.lemma_multiset_has_no_duplicates();
    b.lemma_multiset_has_no_duplicates();
    assert forall|end: GameView| a.to_multiset().count(end) == b.to_multiset().count(end) by {
        vstd::seq_lib::to_multiset_contains(a, end);
        vstd::seq_lib::to_multiset_contains(b, end);
        assert(a.contains(end) <==> b.contains(end));
    }
    assert(a.to_multiset() =~= b.to_multiset());
}

/// Replaying the first entries of a transcript does not depend on the
/// entries behind them.
pub proof fn lemma_replay_of_prefix(a: Seq<Transcript>, b: Seq<Transcript>, n: int)
    requires
        0 <= n <= a.len(),
        a.is_prefix_of(b),
    ensures
        GameView::replay_upto(a, n) == GameView::replay_upto(b, n),
    decreases n,
{
    if n > 0 {
        lemma_replay_of_prefix(a, b, n - 1);
        assert(a[n - 1] == b.subrange(0, a.len() as int)[n - 1]);
    }
}

/// A game that its own transcript replays to is still such a game a turn
/// later.
pub proof fn lemma_step_replays(a: GameView, b: GameView)
    requires
        a.wf(),
        step(a, b),
        GameView::replay(a.transcript) == Some(a),
    ensures
        GameView::replay(b.transcript) == Some(b),
{
    lemma_step(a, b);
    let n = a.transcript.len() as int;
    assert(a.transcript =~= b.transcript.subrange(0, n)) by {
        assert(b.transcript.drop_last() == a.transcript);
    }
    lemma_replay_of_prefix(a.transcript, b.transcript, n);
    assert(GameView::replay_upto(b.transcript, n) == Some(a));
    if a.moves().len() == 0 && !a.is_complete() && b == a.pass() {
        assert(b.transcript[n] == Transcript::Pass);
    } else {
        let m = choose|m: ValidMoveView| #[trigger] legal(a.board, m, a.turn) && b == a.play(m);
        assert(b.transcript[n] == Transcript::Play(m.position));
    }
    assert(GameView::replay_upto(b.transcript, n + 1) == Some(b));
}

/// The transcript of a game that was reached by the rules from a game which
/// its own transcript replays to, such as the opening, replays to that game
/// in turn: what a search hands out can be read back.
pub proof fn lemma_reached_replays(a: GameView, n: nat, b: GameView)
    requires
        a.wf(),
        reaches(a, n, b),
        GameView::replay(a.transcript) == Some(a),
    ensures
        GameView::replay(b.transcript) == Some(b),
    decreases n,
{
    if n > 0 {
        let mid = choose|mid: GameView| #[trigger] step(a, mid) && reaches(mid, (n - 1) as nat, b);
        lemma_step(a, mid);
        lemma_step_replays(a, mid);
        lemma_reached_replays(mid, (n - 1) as nat, b);
    }
}

} // verus!
