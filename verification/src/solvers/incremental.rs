//! The depth-first search that finds every finished game, one at a time.

use vstd::prelude::*;
use crate::game::{Game, GameView};
use crate::solvers::{lemma_trimmed, stack_view, trim, Node};
use crate::stack::{
    depth_left, lemma_pending_fresh, lemma_pending_nonempty, pending, rest, stack_wf, NodeView,
};
use crate::tree::{lemma_pass_decreases, lemma_play_decreases, outcomes, scanning};

verus! {

/// A depth-first search of the games that can follow a given game. It hands
/// out the finished games one by one, trying the legal moves of each game in
/// scanning order, and keeps its place between calls.
pub struct Incremental {
    index: Vec<Node>,
}

/// Runs a search on from a stack of frames up to the next finished game.
fn advance(index: &mut Vec<Node>) -> (item: Option<Game>)
    requires
        stack_wf(stack_view(old(index)@)),
    ensures
        stack_wf(stack_view(final(index)@)),
        pending(stack_view(old(index)@)).len() == 0 ==> item is None && pending(
            stack_view(final(index)@),
        ).len() == 0,
        pending(stack_view(old(index)@)).len() > 0 ==> item is Some && item->Some_0@ == pending(
            stack_view(old(index)@),
        )[0] && pending(stack_view(final(index)@)) == pending(stack_view(old(index)@)).skip(1),
{
    loop
        invariant
            stack_wf(stack_view(index@)),
            pending(stack_view(index@)) == pending(stack_view(old(index)@)),
        decreases depth_left(stack_view(index@)),
    {
        let ghost stack = stack_view(index@);
        let ghost whole = index@;
        let mut current_node = match index.pop() {
            None => {
                return None;
            },
            Some(s) => s,
        };
        let ghost below = stack_view(index@);
        let ghost top = current_node@;
        proof {
            assert(below =~= stack.drop_last());
            assert(top == stack.last());
            assert(top.wf());
            lemma_pending_nonempty(stack);
            assert forall|i: int| 0 <= i < index@.len() implies (#[trigger] index@[i])@.wf() by {
                assert(stack[i] == whole[i]@);
                assert(whole[i] == index@[i]);
            }
        }
        match current_node.take_move() {
            None => {
                if current_node.game().is_complete() {
                    let ghost untrimmed = index@;
                    trim(index);
                    proof {
                        lemma_trimmed(scanning(), untrimmed, index@);
                        assert(pending(stack) =~= seq![top.game] + rest(below));
                        assert(pending(stack).skip(1) =~= rest(below));
                    }
                    return Some(current_node.into_game());
                } else {
                    let new_game = current_node.game().pass();
                    let node = Node::new(&new_game);
                    proof {
                        lemma_pass_decreases(top.game);
                        lemma_pending_fresh(below, new_game@);
                    }
                    index.push(node);
                    proof {
                        assert(stack_view(index@) =~= below.push(NodeView::fresh(new_game@)));
                        assert forall|i: int| 0 <= i < stack_view(index@).len() implies (
                        #[trigger] stack_view(index@)[i]).wf() by {
                            if i < below.len() {
                                assert(stack_view(index@)[i] == stack[i]);
                            }
                        }
                    }
                }
            },
            Some(valid_move) => {
                proof {
                    assert(crate::rules::legal(top.game.board, top.tries[0], top.game.turn));
                    crate::rules::lemma_legal(top.game.board, valid_move@, top.game.turn);
                }
                let new_game = current_node.game().play(valid_move);
                let node = Node::new(&new_game);
                let ghost parent = current_node@;
                index.push(current_node);
                index.push(node);
                proof {
                    lemma_play_decreases(top.game, top.tries[0]);
                    let middle = below.push(parent);
                    lemma_pending_fresh(middle, new_game@);
                    assert(middle.drop_last() =~= below);
                    assert(stack_view(index@) =~= middle.push(NodeView::fresh(new_game@)));
                    assert(parent.tries == top.tries.skip(1));
                    assert(rest(middle) == parent.outcomes() + rest(below));
                    assert(pending(stack) == top.outcomes() + rest(below));
                    assert(top.outcomes() == outcomes(new_game@) + parent.outcomes());
                    assert(pending(stack_view(index@)) =~= pending(stack));
                    assert forall|i: int| 0 <= i < stack_view(index@).len() implies (
                    #[trigger] stack_view(index@)[i]).wf() by {
                        if i < below.len() {
                            assert(stack_view(index@)[i] == stack[i]);
                        } else if i == below.len() {
                            assert(stack_view(index@)[i] == parent);
                            assert forall|j: int| 0 <= j < parent.tries.len() implies crate::rules::legal(
                                parent.game.board,
                                #[trigger] parent.tries[j],
                                parent.game.turn,
                            ) by {
                                assert(parent.tries[j] == top.tries[j + 1]);
                            }
                        }
                    }
                }
            },
        }
    }
}

impl Incremental {
    #[verifier::type_invariant]
    spec fn inv(self) -> bool {
        stack_wf(stack_view(self.index@))
    }

    /// The finished games that the search has yet to hand out, in the order
    /// in which it will hand them out.
    pub closed spec fn remaining(self) -> Seq<GameView> {
        pending(stack_view(self.index@))
    }

    /// A search of the games that can follow `game`. It will hand out every
    /// outcome of `game`, in the order of a depth-first search.
    pub fn new(game: &Game) -> (search: Self)
        ensures
            search.remaining() == outcomes(game@),
    {
        let root = Node::new(game);
        let mut index: Vec<Node> = Vec::new();
        index.push(root);
        proof {
            game.lemma_view();
            lemma_pending_fresh(Seq::<NodeView>::empty(), game@);
            assert(stack_view(index@) =~= Seq::<NodeView>::empty().push(NodeView::fresh(game@)));
            assert(rest(Seq::<NodeView>::empty()) =~= Seq::<GameView>::empty());
            assert(outcomes(game@) + Seq::<GameView>::empty() =~= outcomes(game@));
        }
        Self { index }
    }

    /// The next finished game of the search, or `None` when every one has
    /// been handed out.
    pub fn next(&mut self) -> (item: Option<Game>)
        ensures
            old(self).remaining().len() == 0 ==> item is None && final(self).remaining().len()
                == 0,
            old(self).remaining().len() > 0 ==> item is Some && item->Some_0@ == old(
                self,
            ).remaining()[0] && final(self).remaining() == old(self).remaining().skip(1),
    {
        proof {
            use_type_invariant(&*self);
        }
        let mut index: Vec<Node> = Vec::new();
        std::mem::swap(&mut self.index, &mut index);
        let item = advance(&mut index);
        self.index = index;
        item
    }
}

} // verus!
