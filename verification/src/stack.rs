//! The stack of a depth-first search, as mathematics: what a search that
//! has come to a given stack of frames will still find.

use vstd::multiset::Multiset;
use vstd::prelude::*;
use crate::disk::Disk;
use crate::game::GameView;
use crate::rules::{legal, lemma_legal_moves, ValidMoveView};
use crate::tree::{
    lemma_lines_of_plays, lemma_lines_permutation, lemma_outcomes_by_moves,
    lemma_outcomes_nonempty, lemma_play_decreases, lines, measure, outcomes, outcomes_by,
    outcomes_of_by, scanning, Order,
};

verus! {

/// One frame of a depth-first search: a game, and the moves from it that
/// the search has yet to try, the next one first.
pub struct NodeView {
    pub game: GameView,
    pub tries: Seq<ValidMoveView>,
}

impl NodeView {
    /// The frame of a game that the search has just reached, with all its
    /// legal moves to try, in scanning order.
    pub open spec fn fresh(g: GameView) -> NodeView {
        NodeView { game: g, tries: g.moves() }
    }

    /// Whether the frame holds a grid of 64 cells and only legal moves.
    pub open spec fn wf(self) -> bool {
        &&& self.game.wf()
        &&& forall|i: int|
            0 <= i < self.tries.len() ==> legal(
                self.game.board,
                #[trigger] self.tries[i],
                self.game.turn,
            )
    }

    /// The finished games that a search which follows `ord` will find
    /// through the moves that this frame has yet to try.
    pub open spec fn outcomes_by(self, ord: Order) -> Seq<GameView> {
        outcomes_of_by(ord, self.game, self.tries)
    }

    /// The finished games that a search in scanning order will find through
    /// the moves that this frame has yet to try.
    pub open spec fn outcomes(self) -> Seq<GameView> {
        self.outcomes_by(scanning())
    }
}

/// Whether a search can go on from a stack of frames: every frame is well
/// formed, and the top frame, if it has no move to try, is that of a game in
/// which the player to move has none.
pub open spec fn stack_wf(stack: Seq<NodeView>) -> bool {
    &&& forall|i: int| 0 <= i < stack.len() ==> (#[trigger] stack[i]).wf()
    &&& stack.len() > 0 && stack.last().tries.len() == 0 ==> stack.last().game.moves().len() == 0
}

/// The finished games that a search which follows `ord` will find through
/// the moves that the frames of a stack have yet to try, those of the top
/// frame first.
pub open spec fn rest_by(ord: Order, stack: Seq<NodeView>) -> Seq<GameView>
    decreases stack.len(),
{
    if stack.len() == 0 {
        Seq::empty()
    } else {
        stack.last().outcomes_by(ord) + rest_by(ord, stack.drop_last())
    }
}

/// The finished games that a search which follows `ord` will still find from
/// a stack of frames, in the order in which it will find them. The game of
/// the top frame is still to be looked at; those of the frames below have
/// been.
pub open spec fn pending_by(ord: Order, stack: Seq<NodeView>) -> Seq<GameView> {
    if stack.len() == 0 {
        Seq::empty()
    } else if stack.last().tries.len() == 0 {
        outcomes_by(ord, stack.last().game) + rest_by(ord, stack.drop_last())
    } else {
        rest_by(ord, stack)
    }
}

/// What `rest_by` gives for a search in scanning order.
pub open spec fn rest(stack: Seq<NodeView>) -> Seq<GameView> {
    rest_by(scanning(), stack)
}

/// What `pending_by` gives for a search in scanning order.
pub open spec fn pending(stack: Seq<NodeView>) -> Seq<GameView> {
    pending_by(scanning(), stack)
}

/// A search that has just reached a game will find the outcomes of that
/// game, and then what the frames below have left.
pub proof fn lemma_pending_fresh(below: Seq<NodeView>, g: GameView)
    requires
        g.wf(),
    ensures
        pending(below.push(NodeView::fresh(g))) == outcomes(g) + rest(below),
        NodeView::fresh(g).wf(),
{
    let stack = below.push(NodeView::fresh(g));
    assert(stack.drop_last() =~= below);
    lemma_legal_moves(g.board, g.turn);
    if g.moves().len() > 0 {
        lemma_outcomes_by_moves(g);
    }
}

/// A search from a stack on which it can go on has something left to find.
pub proof fn lemma_pending_nonempty(stack: Seq<NodeView>)
    requires
        stack_wf(stack),
        stack.len() > 0,
    ensures
        pending(stack).len() > 0,
{
    let top = stack.last();
    assert(top.wf());
    if top.tries.len() == 0 {
        lemma_outcomes_nonempty(top.game);
    } else {
        assert(legal(top.game.board, top.tries[0], top.game.turn));
        lemma_play_decreases(top.game, top.tries[0]);
        lemma_outcomes_nonempty(top.game.play(top.tries[0]));
    }
}

/// How far the search is from its next outcome, at most.
pub open spec fn depth_left(stack: Seq<NodeView>) -> nat {
    if stack.len() == 0 {
        0
    } else {
        measure(stack.last().game) + 1
    }
}

/// Whether a frame is one that a search may build on reaching the game `g`:
/// it holds `g` and the legal moves of `g`, in any order.
pub open spec fn builds(g: GameView, node: NodeView) -> bool {
    node.game == g && node.tries.to_multiset() == g.moves().to_multiset()
}

/// A frame built for a game is well formed, and the search finds through it
/// the lines of the game.
pub proof fn lemma_built(g: GameView, node: NodeView)
    requires
        g.wf(),
        builds(g, node),
    ensures
        node.wf(),
        node.tries.len() == g.moves().len(),
        node.tries.len() > 0 ==> node.outcomes().to_multiset() == lines(g),
{
    lemma_legal_moves(g.board, g.turn);
    vstd::seq_lib::to_multiset_len(node.tries);
    vstd::seq_lib::to_multiset_len(g.moves());
    assert forall|i: int| 0 <= i < node.tries.len() implies legal(
        g.board,
        #[trigger] node.tries[i],
        g.turn,
    ) by {
        let m = node.tries[i];
        assert(node.tries.contains(m));
        vstd::seq_lib::to_multiset_contains(node.tries, m);
        vstd::seq_lib::to_multiset_contains(g.moves(), m);
        let k = choose|k: int| 0 <= k < g.moves().len() && g.moves()[k] == m;
        assert(legal(g.board, g.moves()[k], g.turn));
    }
    if node.tries.len() > 0 {
        lemma_lines_of_plays(g, node.tries);
        lemma_lines_of_plays(g, g.moves());
        lemma_lines_permutation(g, node.tries, g.moves());
        lemma_outcomes_by_moves(g);
    }
}

/// The finished games that a search will still find from a stack of frames,
/// each as often as it will find it, in no order.
pub open spec fn pending_lines(stack: Seq<NodeView>) -> Multiset<GameView> {
    pending(stack).to_multiset()
}

/// A search that has just built a frame for a game will find the lines of
/// that game, and what the frames below have left.
pub proof fn lemma_pending_built(below: Seq<NodeView>, g: GameView, node: NodeView)
    requires
        g.wf(),
        builds(g, node),
    ensures
        pending_lines(below.push(node)) == lines(g).add(rest(below).to_multiset()),
        node.wf(),
        node.tries.len() == 0 ==> g.moves().len() == 0,
{
    lemma_built(g, node);
    let stack = below.push(node);
    assert(stack.drop_last() =~= below);
    if node.tries.len() == 0 {
        vstd::seq_lib::lemma_multiset_commutative(outcomes(g), rest(below));
    } else {
        vstd::seq_lib::lemma_multiset_commutative(node.outcomes(), rest(below));
    }
}

/// A search that follows `ord` and has just built, for a game, the frame
/// with the moves that `ord` gives will find the outcomes of that game, and
/// then what the frames below have left.
pub proof fn lemma_pending_built_by(ord: Order, below: Seq<NodeView>, g: GameView, node: NodeView)
    requires
        g.wf(),
        builds(g, node),
        node.tries == ord(g),
    ensures
        pending_by(ord, below.push(node)) == outcomes_by(ord, g) + rest_by(ord, below),
{
    let stack = below.push(node);
    assert(stack.drop_last() =~= below);
    vstd::seq_lib::to_multiset_len(node.tries);
    vstd::seq_lib::to_multiset_len(g.moves());
    if node.tries.len() > 0 {
        assert(!g.is_complete()) by {
            match g.turn {
                Disk::Dark => {},
                Disk::Light => {},
            }
        }
    }
}

/// Frames without a move to try add nothing to what a search will find:
/// with the frames from the `k`-th on empty, the stack cut off there leaves
/// as much to find as the whole.
pub proof fn lemma_rest_trimmed(ord: Order, stack: Seq<NodeView>, k: int)
    requires
        0 <= k <= stack.len(),
        forall|i: int| k <= i < stack.len() ==> (#[trigger] stack[i]).tries.len() == 0,
    ensures
        rest_by(ord, stack) == rest_by(ord, stack.take(k)),
    decreases stack.len() - k,
{
    if k < stack.len() {
        let head = stack.drop_last();
        assert(stack.last().tries.len() == 0);
        assert(stack.last().outcomes_by(ord) =~= Seq::<GameView>::empty());
        assert(rest_by(ord, stack) =~= rest_by(ord, head));
        lemma_rest_trimmed(ord, head, k);
        assert(head.take(k) =~= stack.take(k));
    } else {
        assert(stack.take(k) =~= stack);
    }
}

} // verus!
