//! Searches of the tree of games.

use rand::seq::SliceRandom;
use vstd::multiset::Multiset;
use vstd::prelude::*;
use crate::game::{views, Game, GameView, ValidMove};
use crate::stack::{
    builds, depth_left, lemma_pending_built, lemma_pending_built_by, lemma_pending_nonempty,
    lemma_rest_trimmed, pending, pending_by, pending_lines, rest, rest_by, stack_wf, NodeView,
};
use crate::tree::{
    lemma_pass_decreases, lemma_play_decreases, lines, outcomes, outcomes_by, scanning, Order,
};

pub mod incremental;
pub mod parallel;
pub mod random;

verus! {

/// One frame of a depth-first search: a game, and the moves from it that
/// are still to be tried. The move to try next is the last of the list.
pub struct Node {
    game: Game,
    valid_moves: Vec<ValidMove>,
}

impl View for Node {
    type V = NodeView;

    closed spec fn view(&self) -> NodeView {
        NodeView { game: self.game@, tries: views(self.valid_moves@).reverse() }
    }
}

/// The views of the frames of a stack.
pub open spec fn stack_view(nodes: Seq<Node>) -> Seq<NodeView> {
    nodes.map_values(|n: Node| n@)
}

/// The list of moves in the opposite order.
pub fn reversed(moves: Vec<ValidMove>) -> (turned: Vec<ValidMove>)
    ensures
        views(turned@) == views(moves@).reverse(),
{
    let mut moves = moves;
    let mut turned: Vec<ValidMove> = Vec::new();
    let ghost all = moves@;
    loop
        invariant
            moves@ == all.take(all.len() - turned@.len()),
            turned@.len() <= all.len(),
            forall|j: int| 0 <= j < turned@.len() ==> turned@[j] == all[all.len() - 1 - j],
        ensures
            turned@.len() == all.len(),
            forall|j: int| 0 <= j < turned@.len() ==> turned@[j] == all[all.len() - 1 - j],
        decreases moves@.len(),
    {
        match moves.pop() {
            None => {
                break ;
            },
            Some(m) => {
                turned.push(m);
                assert(moves@ =~= all.take(all.len() - turned@.len()));
            },
        }
    }
    assert(views(turned@) =~= views(all).reverse());
    turned
}

impl Node {
    /// The frame of a game that a search has just reached: all its legal
    /// moves are to be tried, in scanning order.
    pub fn new(g: &Game) -> (node: Node)
        ensures
            node@ == NodeView::fresh(g@),
    {
        NodeBuilder::left(g)
    }

    /// The frame of a game with a given list of moves to try, the last of
    /// the list first.
    pub fn with_moves(g: &Game, valid_moves: Vec<ValidMove>) -> (node: Node)
        ensures
            node@ == (NodeView { game: g@, tries: views(valid_moves@).reverse() }),
    {
        Node { game: g.clone(), valid_moves }
    }

    /// The game of this frame.
    pub fn game(&self) -> (game: &Game)
        ensures
            game@ == self@.game,
    {
        &self.game
    }

    /// The game of this frame, taken out of it.
    pub fn into_game(self) -> (game: Game)
        ensures
            game@ == self@.game,
    {
        self.game
    }

    /// Whether no move is left to try.
    pub fn is_exhausted(&self) -> (done: bool)
        ensures
            done == (self@.tries.len() == 0),
    {
        self.valid_moves.is_empty()
    }

    /// Takes the move to try next out of the frame, if one is left.
    pub fn take_move(&mut self) -> (next: Option<ValidMove>)
        ensures
            final(self)@.game == old(self)@.game,
            old(self)@.tries.len() == 0 ==> next is None && final(self)@ == old(self)@,
            old(self)@.tries.len() > 0 ==> crate::game::view_of(next) == Some(old(self)@.tries[0])
                && final(self)@.tries == old(self)@.tries.skip(1),
    {
        let ghost before = self.valid_moves@;
        let next = self.valid_moves.pop();
        proof {
            if before.len() > 0 {
                assert(views(self.valid_moves@).reverse() =~= views(before).reverse().skip(1));
            }
        }
        next
    }
}

/// Takes from the top of a stack the frames that have no move left to try.
pub fn trim(index: &mut Vec<Node>)
    ensures
        final(index)@.len() <= old(index)@.len(),
        final(index)@ == old(index)@.take(final(index)@.len() as int),
        forall|i: int|
            final(index)@.len() <= i < old(index)@.len() ==> (#[trigger] old(
                index,
            )@[i])@.tries.len() == 0,
        final(index)@.len() > 0 ==> final(index)@.last()@.tries.len() > 0,
{
    loop
        invariant
            index@.len() <= old(index)@.len(),
            index@ == old(index)@.take(index@.len() as int),
            forall|i: int|
                index@.len() <= i < old(index)@.len() ==> (#[trigger] old(index)@[i])@.tries.len()
                    == 0,
        ensures
            index@.len() <= old(index)@.len(),
            index@ == old(index)@.take(index@.len() as int),
            forall|i: int|
                index@.len() <= i < old(index)@.len() ==> (#[trigger] old(index)@[i])@.tries.len()
                    == 0,
            index@.len() > 0 ==> index@.last()@.tries.len() > 0,
        decreases index@.len(),
    {
        let n = index.len();
        if n == 0 {
            break ;
        }
        if index[n - 1].is_exhausted() {
            let _ = index.pop();
            assert(index@ =~= old(index)@.take(index@.len() as int));
        } else {
            break ;
        }
    }
}

/// What is left of a stack of frames after the frames without a move to try
/// have been taken from its top: a stack from which a search can go on, and
/// on which it will find what the frames of the whole stack had left.
pub proof fn lemma_trimmed(ord: Order, whole: Seq<Node>, kept: Seq<Node>)
    requires
        forall|i: int| 0 <= i < whole.len() ==> (#[trigger] whole[i])@.wf(),
        kept.len() <= whole.len(),
        kept == whole.take(kept.len() as int),
        forall|i: int| kept.len() <= i < whole.len() ==> (#[trigger] whole[i])@.tries.len() == 0,
        kept.len() > 0 ==> kept.last()@.tries.len() > 0,
    ensures
        stack_wf(stack_view(kept)),
        pending_by(ord, stack_view(kept)) == rest_by(ord, stack_view(whole)),
{
    let stack = stack_view(whole);
    let k = kept.len() as int;
    assert(stack_view(kept) =~= stack.take(k));
    assert forall|i: int| k <= i < stack.len() implies (#[trigger] stack[i]).tries.len() == 0 by {
        assert(stack[i] == whole[i]@);
    }
    lemma_rest_trimmed(ord, stack, k);
    assert forall|i: int| 0 <= i < stack_view(kept).len() implies (#[trigger] stack_view(
        kept,
    )[i]).wf() by {
        assert(stack_view(kept)[i] == whole[i]@);
    }
    if k > 0 {
        assert(stack_view(kept).last() == kept.last()@);
    }
}

/// Whether the frames that `f` builds try the moves in the order `ord`.
pub open spec fn follows<F: Fn(&Game) -> Node>(f: F, ord: Order) -> bool {
    forall|g: &Game, n: Node| call_ensures(f, (g,), n) ==> n@.tries == ord(g@)
}

/// Puts a list of moves into a random order.
///
/// Trusted: this is `SliceRandom::shuffle` of the crate rand, driven by the
/// generator of the calling thread (`rand::thread_rng`). It swaps entries of
/// the list in place, so the list holds the same moves afterwards, each as
/// often as before. Nothing is said of the order. The generator fails only
/// where the system has no randomness to seed it with.
#[verifier::external_body]
fn shuffle(moves: &mut Vec<ValidMove>)
    ensures
        views(final(moves)@).to_multiset() == views(old(moves)@).to_multiset(),
{
    moves.shuffle(&mut rand::thread_rng());
}

/// The ways to order the moves of a frame.
pub struct NodeBuilder {}

impl NodeBuilder {
    /// The frame that tries the legal moves in scanning order.
    pub fn left(g: &Game) -> (node: Node)
        ensures
            node@ == NodeView::fresh(g@),
            builds(g@, node@),
    {
        // these are popped from the list, so first used should be last in it
        let valid_moves = reversed(g.valid_moves());
        proof {
            assert(views(valid_moves@).reverse() =~= g@.moves());
        }
        Node::with_moves(g, valid_moves)
    }

    /// The frame that tries the legal moves against scanning order.
    pub fn right(g: &Game) -> (node: Node)
        ensures
            node@ == (NodeView { game: g@, tries: g@.moves().reverse() }),
            builds(g@, node@),
    {
        let valid_moves = g.valid_moves();
        proof {
            g@.moves().lemma_reverse_to_multiset();
        }
        Node::with_moves(g, valid_moves)
    }

    /// The frame that tries the legal moves in an order left to chance.
    pub fn random(g: &Game) -> (node: Node)
        ensures
            builds(g@, node@),
    {
        let mut valid_moves = g.valid_moves();
        shuffle(&mut valid_moves);
        proof {
            views(valid_moves@).lemma_reverse_to_multiset();
        }
        Node::with_moves(g, valid_moves)
    }
}

/// Whether `f` can build the frames of a search: it takes every game, and
/// what it returns for a game holds that game and its legal moves, in some
/// order.
pub open spec fn builder_ok<F: Fn(&Game) -> Node>(f: F) -> bool {
    &&& forall|g: &Game| call_requires(f, (g,))
    &&& forall|g: &Game, n: Node| call_ensures(f, (g,), n) ==> builds(g@, n@)
}

/// A depth-first search of the games that can follow a given game, with the
/// order in which the moves of each game are tried left to a builder of
/// frames. It hands out the finished games one by one and keeps its place
/// between calls.
pub struct DepthFirstIterator<F: Fn(&Game) -> Node> {
    node_builder: F,
    index: Vec<Node>,
}

impl<F: Fn(&Game) -> Node> DepthFirstIterator<F> {
    #[verifier::type_invariant]
    spec fn inv(self) -> bool {
        stack_wf(stack_view(self.index@)) && builder_ok(self.node_builder)
    }

    /// The finished games that the search has yet to hand out, each as often
    /// as it will hand it out.
    pub closed spec fn remaining(self) -> Multiset<GameView> {
        pending_lines(stack_view(self.index@))
    }

    /// The finished games that the search has yet to hand out, in the order
    /// in which it will hand them out if its builder follows `ord`.
    pub closed spec fn remaining_by(self, ord: Order) -> Seq<GameView> {
        pending_by(ord, stack_view(self.index@))
    }

    /// The builder of the frames of the search.
    pub closed spec fn builder(self) -> F {
        self.node_builder
    }

    /// A search of the games that can follow `game`, with its frames built by
    /// `node_builder`. Whatever the order of the moves, it will hand out
    /// every line of `game` once; where the builder follows an order, it will
    /// hand out the outcomes of `game` in the sequence of that order.
    pub fn new(node_builder: F, game: &Game) -> (search: Self)
        requires
            builder_ok(node_builder),
        ensures
            search.builder() == node_builder,
            search.remaining() == lines(game@),
            forall|ord: Order|
                follows(node_builder, ord) ==> #[trigger] search.remaining_by(ord) == outcomes_by(
                    ord,
                    game@,
                ),
    {
        let root = node_builder(game);
        let mut index: Vec<Node> = Vec::new();
        let ghost node = root@;
        index.push(root);
        proof {
            game.lemma_view();
            lemma_pending_built(Seq::<NodeView>::empty(), game@, node);
            assert(stack_view(index@) =~= Seq::<NodeView>::empty().push(node));
            assert(rest(Seq::<NodeView>::empty()) =~= Seq::<GameView>::empty());
            Seq::<GameView>::empty().to_multiset_ensures();
            vstd::seq_lib::to_multiset_len(Seq::<GameView>::empty());
            assert(rest(Seq::<NodeView>::empty()).to_multiset() =~= Multiset::<
                GameView,
            >::empty());
            assert(lines(game@).add(Multiset::<GameView>::empty()) =~= lines(game@));
            assert(stack_view(index@).last() == node);
            assert forall|i: int| 0 <= i < stack_view(index@).len() implies (
            #[trigger] stack_view(index@)[i]).wf() by {
                assert(stack_view(index@)[i] == node);
            }
            assert(builds(game@, node));
            assert(stack_wf(stack_view(index@)));
            assert(builder_ok(node_builder));
            assert forall|ord: Order| follows(node_builder, ord) implies #[trigger] pending_by(
                ord,
                stack_view(index@),
            ) == outcomes_by(ord, game@) by {
                lemma_pending_built_by(ord, Seq::<NodeView>::empty(), game@, node);
                assert(rest_by(ord, Seq::<NodeView>::empty()) =~= Seq::<GameView>::empty());
                assert(outcomes_by(ord, game@) + Seq::<GameView>::empty() =~= outcomes_by(
                    ord,
                    game@,
                ));
            }
        }
        DepthFirstIterator { node_builder, index }
    }

    /// The frame for a game that the search has just reached.
    fn new_node(node_builder: &F, game: &Game) -> (node: Node)
        requires
            builder_ok(*node_builder),
        ensures
            builds(game@, node@),
            forall|ord: Order| follows(*node_builder, ord) ==> node@.tries == #[trigger] ord(game@),
    {
        node_builder(game)
    }

    /// Runs the search on from a stack of frames up to the next finished
    /// game.
    fn advance(node_builder: &F, index: &mut Vec<Node>) -> (item: Option<Game>)
        requires
            builder_ok(*node_builder),
            stack_wf(stack_view(old(index)@)),
        ensures
            stack_wf(stack_view(final(index)@)),
            item is None ==> old(index)@.len() == 0 && final(index)@.len() == 0,
            item is Some ==> pending_lines(stack_view(old(index)@)).contains(item->Some_0@)
                && pending_lines(stack_view(final(index)@)) == pending_lines(
                stack_view(old(index)@),
            ).remove(item->Some_0@),
            item is Some ==> forall|ord: Order|
                follows(*node_builder, ord) ==> {
                    let before = #[trigger] pending_by(ord, stack_view(old(index)@));
                    &&& before.len() > 0
                    &&& item->Some_0@ == before[0]
                    &&& pending_by(ord, stack_view(final(index)@)) == before.skip(1)
                },
    {
        loop
            invariant
                builder_ok(*node_builder),
                stack_wf(stack_view(index@)),
                index@.len() == 0 ==> old(index)@.len() == 0,
                pending_lines(stack_view(index@)) == pending_lines(stack_view(old(index)@)),
                forall|ord: Order|
                    follows(*node_builder, ord) ==> pending_by(ord, stack_view(index@))
                        == #[trigger] pending_by(ord, stack_view(old(index)@)),
            decreases depth_left(stack_view(index@)),
        {
            let ghost stack = stack_view(index@);
            let ghost whole = index@;
            let mut current_node = match index.pop() {
                None => {
                    return None;
                },
                Some(s) => s,
            };
            let ghost below = stack_view(index@);
            let ghost top = current_node@;
            proof {
                assert(below =~= stack.drop_last());
                assert(top == stack.last());
                assert(top.wf());
                assert forall|i: int| 0 <= i < index@.len() implies (#[trigger] index@[i])@.wf() by {
                    assert(stack[i] == whole[i]@);
                    assert(whole[i] == index@[i]);
                }
            }
            match current_node.take_move() {
                None => {
                    if current_node.game().is_complete() {
                        let ghost untrimmed = index@;
                        trim(index);
                        proof {
                            lemma_trimmed(scanning(), untrimmed, index@);
                            assert(pending(stack) =~= seq![top.game] + rest(below));
                            assert(pending(stack).remove(0) =~= rest(below));
                            vstd::seq_lib::to_multiset_remove(pending(stack), 0);
                            assert(pending(stack).contains(top.game));
                            vstd::seq_lib::to_multiset_contains(pending(stack), top.game);
                            assert forall|ord: Order| follows(*node_builder, ord) implies {
                                let before = #[trigger] pending_by(ord, stack_view(old(index)@));
                                &&& before.len() > 0
                                &&& top.game == before[0]
                                &&& pending_by(ord, stack_view(index@)) == before.skip(1)
                            } by {
                                lemma_trimmed(ord, untrimmed, index@);
                                assert(pending_by(ord, stack) =~= seq![top.game] + rest_by(
                                    ord,
                                    below,
                                ));
                                assert(pending_by(ord, stack).skip(1) =~= rest_by(ord, below));
                            }
                        }
                        return Some(current_node.into_game());
                    } else {
                        let new_game = current_node.game().pass();
                        let node = Self::new_node(node_builder, &new_game);
                        let ghost built = node@;
                        proof {
                            lemma_pass_decreases(top.game);
                            lemma_pending_built(below, new_game@, built);
                            assert(outcomes(top.game) == outcomes(new_game@));
                            vstd::seq_lib::lemma_multiset_commutative(
                                outcomes(top.game),
                                rest(below),
                            );
                        }
                        index.push(node);
                        proof {
                            assert(stack_view(index@) =~= below.push(built));
                            assert forall|i: int|
                                0 <= i < stack_view(index@).len() implies (#[trigger] stack_view(
                                index@,
                            )[i]).wf() by {
                                if i < below.len() {
                                    assert(stack_view(index@)[i] == stack[i]);
                                }
                            }
                            assert forall|ord: Order|
                                follows(*node_builder, ord) implies pending_by(
                                ord,
                                stack_view(index@),
                            ) == #[trigger] pending_by(ord, stack_view(old(index)@)) by {
                                assert(built.tries == ord(new_game@));
                                lemma_pending_built_by(ord, below, new_game@, built);
                                assert(outcomes_by(ord, top.game) == outcomes_by(ord, new_game@));
                                assert(pending_by(ord, stack) == pending_by(
                                    ord,
                                    stack_view(old(index)@),
                                ));
                            }
                        }
                    }
                },
                Some(valid_move) => {
                    proof {
                        assert(crate::rules::legal(top.game.board, top.tries[0], top.game.turn));
                        crate::rules::lemma_legal(top.game.board, valid_move@, top.game.turn);
                    }
                    let new_game = current_node.game().play(valid_move);
                    let node = Self::new_node(node_builder, &new_game);
                    let ghost parent = current_node@;
                    let ghost built = node@;
                    index.push(current_node);
                    index.push(node);
                    proof {
                        lemma_play_decreases(top.game, top.tries[0]);
                        let middle = below.push(parent);
                        lemma_pending_built(middle, new_game@, built);
                        assert(middle.drop_last() =~= below);
                        assert(stack_view(index@) =~= middle.push(built));
                        assert(parent.tries == top.tries.skip(1));
                        assert(rest(middle) == parent.outcomes() + rest(below));
                        assert(pending(stack) == top.outcomes() + rest(below));
                        assert(top.outcomes() == outcomes(new_game@) + parent.outcomes());
                        assert(pending(stack) =~= outcomes(new_game@) + rest(middle));
                        vstd::seq_lib::lemma_multiset_commutative(
                            outcomes(new_game@),
                            rest(middle),
                        );
                        assert forall|i: int|
                            0 <= i < stack_view(index@).len() implies (#[trigger] stack_view(
                            index@,
                        )[i]).wf() by {
                            if i < below.len() {
                                assert(stack_view(index@)[i] == stack[i]);
                            } else if i == below.len() {
                                assert(stack_view(index@)[i] == parent);
                                assert forall|j: int|
                                    0 <= j < parent.tries.len() implies crate::rules::legal(
                                    parent.game.board,
                                    #[trigger] parent.tries[j],
                                    parent.game.turn,
                                ) by {
                                    assert(parent.tries[j] == top.tries[j + 1]);
                                }
                            }
                        }
                        assert forall|ord: Order| follows(*node_builder, ord) implies pending_by(
                            ord,
                            stack_view(index@),
                        ) == #[trigger] pending_by(ord, stack_view(old(index)@)) by {
                            assert(built.tries == ord(new_game@));
                            lemma_pending_built_by(ord, middle, new_game@, built);
                            assert(rest_by(ord, middle) == parent.outcomes_by(ord) + rest_by(
                                ord,
                                below,
                            ));
                            assert(pending_by(ord, stack) == top.outcomes_by(ord) + rest_by(
                                ord,
                                below,
                            ));
                            assert(top.outcomes_by(ord) == outcomes_by(ord, new_game@)
                                + parent.outcomes_by(ord));
                            assert(pending_by(ord, stack) =~= outcomes_by(ord, new_game@)
                                + rest_by(ord, middle));
                            assert(pending_by(ord, stack) == pending_by(
                                ord,
                                stack_view(old(index)@),
                            ));
                        }
                    }
                },
            }
        }
    }

    /// The next finished game of the search, or `None` when every line has
    /// been handed out. The game is one of those that were left, and is left
    /// no longer; where the builder follows an order, it is the first of
    /// those that were left in the sequence of that order.
    pub fn next(&mut self) -> (item: Option<Game>)
        ensures
            final(self).builder() == old(self).builder(),
            old(self).remaining().len() == 0 <==> item is None,
            item is None ==> final(self).remaining().len() == 0,
            item is Some ==> old(self).remaining().contains(item->Some_0@),
            item is Some ==> final(self).remaining() == old(self).remaining().remove(
                item->Some_0@,
            ),
            item is Some ==> forall|ord: Order|
                follows(old(self).builder(), ord) ==> {
                    let before = #[trigger] old(self).remaining_by(ord);
                    &&& before.len() > 0
                    &&& item->Some_0@ == before[0]
                    &&& final(self).remaining_by(ord) == before.skip(1)
                },
    {
        proof {
            use_type_invariant(&*self);
        }
        let ghost stack = stack_view(self.index@);
        let mut index: Vec<Node> = Vec::new();
        std::mem::swap(&mut self.index, &mut index);
        let item = Self::advance(&self.node_builder, &mut index);
        proof {
            vstd::seq_lib::to_multiset_len(pending(stack));
            vstd::seq_lib::to_multiset_len(pending(stack_view(index@)));
            if stack.len() > 0 {
                lemma_pending_nonempty(stack);
            }
        }
        self.index = index;
        item
    }
}

} // verus!
