//! Splitting one search into many: the games a few turns after the first
//! move, each of which can be searched on its own.
//!
//! The four first moves of dark mirror one another, so the games that follow
//! one of them stand for all.

use vstd::prelude::*;
use crate::frontier::{
    all_complete, expand_level, first_cell, first_game, lemma_expand_stable, lemma_legal_seed,
    lemma_partition,
};
use crate::game::{views, Game, GameView};
use crate::transcript::{token, MalformedTranscript, Transcript};
use crate::tree::{lines, lines_of_all, plays};

verus! {

/// How many moves a seed game has behind it, the first move included.
pub const SEED_MOVE_COUNT: usize = 6;

/// The games to search, each on its own.
#[derive(Debug)]
pub struct Parallel {
    pub queue: Vec<Game>,
}

/// The views of a list of games.
pub open spec fn game_views(games: Seq<Game>) -> Seq<GameView> {
    games.map_values(|g: Game| g@)
}

/// The seed games: those that lie `SEED_MOVE_COUNT - 1` turns after the first
/// move.
pub open spec fn seeds() -> Seq<GameView> {
    crate::frontier::expand(first_game(), (SEED_MOVE_COUNT - 1) as nat)
}

/// The seed games share out the search of the game after the first move:
/// searching each of them finds, taken together, exactly the finished games
/// that one search of that game finds, none lost and none twice over.
pub proof fn lemma_seeds_partition()
    ensures
        lines_of_all(seeds()) == lines(first_game()),
{
    lemma_legal_seed();
    lemma_partition(first_game(), (SEED_MOVE_COUNT - 1) as nat);
}

/// The games that lie `depth` turns after `game`. A player without a legal
/// move passes, and a finished game stays in the list as it is. The games
/// come in the order of the games they follow, and those that follow one
/// game in the order of its legal moves, the last one first.
pub fn expand(game: &Game, depth: usize) -> (frontier: Vec<Game>)
    ensures
        game_views(frontier@) == crate::frontier::expand(game@, depth as nat),
{
    let mut queue: Vec<Game> = Vec::new();
    queue.push(game.clone());
    assert(game_views(queue@) =~= seq![game@]);
    let mut level: usize = 0;
    while level < depth
        invariant
            level <= depth,
            game_views(queue@) == crate::frontier::expand(game@, level as nat),
        decreases depth - level,
    {
        let mut temp_queue: Vec<Game> = Vec::new();
        let mut grew = false;
        let mut i: usize = 0;
        assert(game_views(queue@).take(0) =~= Seq::<GameView>::empty());
        while i < queue.len()
            invariant
                i <= queue.len(),
                game_views(temp_queue@) == expand_level(game_views(queue@).take(i as int)),
                !grew ==> all_complete(game_views(queue@).take(i as int)),
            decreases queue.len() - i,
        {
            let g = &queue[i];
            let ghost before = game_views(temp_queue@);
            let ghost done = game_views(queue@).take(i as int);
            proof {
                g.lemma_view();
                assert(game_views(queue@).take(i + 1).drop_last() =~= done);
                assert(game_views(queue@).take(i + 1).last() == g@);
            }
            let moves = g.valid_moves();
            if moves.len() == 0 {
                if g.is_complete() {
                    temp_queue.push(g.clone());
                    proof {
                        assert(game_views(temp_queue@) =~= before + seq![g@]);
                        if !grew {
                            assert forall|k: int| 0 <= k < i + 1 implies (#[trigger] game_views(
                                queue@,
                            ).take(i + 1)[k]).is_complete() by {
                                if k < i {
                                    assert(game_views(queue@).take(i + 1)[k] == done[k]);
                                }
                            }
                        }
                    }
                } else {
                    temp_queue.push(g.pass());
                    grew = true;
                    proof {
                        assert(game_views(temp_queue@) =~= before + seq![g@.pass()]);
                    }
                }
            } else {
                grew = true;
                let mut j: usize = moves.len();
                let ghost turned = g@.moves().reverse();
                assert(plays(g@, turned.take(0)) =~= Seq::<GameView>::empty());
                assert(before + Seq::<GameView>::empty() =~= before);
                while j > 0
                    invariant
                        j <= moves.len(),
                        views(moves@) == g@.moves(),
                        turned == g@.moves().reverse(),
                        forall|k: int|
                            0 <= k < moves@.len() ==> (#[trigger] moves@[k])@.in_bounds(),
                        game_views(temp_queue@) == before + plays(
                            g@,
                            turned.take(moves.len() - j),
                        ),
                    decreases j,
                {
                    j -= 1;
                    let ghost sofar = game_views(temp_queue@);
                    let mv = moves[j].clone();
                    assert(mv@ == views(moves@)[j as int]);
                    temp_queue.push(g.play(mv));
                    proof {
                        let n = moves.len() - j;
                        assert(turned[n - 1] == g@.moves()[j as int]);
                        assert(turned.take(n).drop_last() =~= turned.take(n - 1));
                        assert(plays(g@, turned.take(n)) =~= plays(g@, turned.take(n - 1)).push(
                            g@.play(mv@),
                        ));
                        assert(game_views(temp_queue@) =~= sofar.push(g@.play(mv@)));
                    }
                }
                proof {
                    assert(turned.take(moves.len() as int) =~= turned);
                }
            }
            i += 1;
        }
        proof {
            assert(game_views(queue@).take(i as int) =~= game_views(queue@));
        }
        if !grew {
            proof {
                lemma_expand_stable(game@, level as nat, depth as nat);
            }
            return queue;
        }
        queue = temp_queue;
        level += 1;
    }
    queue
}

impl Parallel {
    /// The seed games, ready to be searched one by one or side by side.
    pub fn new() -> (seeded: Self)
        ensures
            game_views(seeded.queue@) == seeds(),
    {
        let read = Transcript::from_string("D3");
        proof {
            reveal_strlit("D3");
            assert(token("D3"@[2 * 0int], "D3"@[2 * 0int + 1]) == Ok::<
                Transcript,
                MalformedTranscript,
            >(Transcript::Play(first_cell())));
        }
        let first = match read {
            Ok(first) => first,
            Err(_) => unreached(),
        };
        proof {
            lemma_legal_seed();
            assert(first@ =~= seq![Transcript::Play(first_cell())]);
            assert(GameView::replay_upto(first@, 0) == Some(GameView::opening()));
            assert(GameView::replay(first@) == Some(first_game()));
        }
        let starting_game = Game::from_transcript(first.as_slice());
        Parallel { queue: expand(&starting_game, SEED_MOVE_COUNT - 1) }
    }
}

} // verus!
