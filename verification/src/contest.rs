//! Two players at one board, each making the first move it finds.

use vstd::prelude::*;
use crate::disk::Disk;
use crate::game::{Game, GameView};
use crate::tree::{
    lemma_first_outcome, lemma_lines_complete, lemma_outcomes_nonempty, measure, outcomes,
};

verus! {

/// What a player does with a game: the first legal move in scanning order,
/// or a pass where there is none.
pub open spec fn first_step(g: GameView) -> GameView {
    if g.moves().len() > 0 {
        g.play(g.moves()[0])
    } else {
        g.pass()
    }
}

/// A game between two players.
pub struct Contest {
    pub game: Game,
    dark: Player,
    light: Player,
}

impl Contest {
    /// The game as it stands.
    pub closed spec fn state(self) -> GameView {
        self.game@
    }

    /// Seats the two players at a game: whatever colours they came with,
    /// the first plays dark and the second light.
    pub fn new(game: Game, dark: Player, light: Player) -> (contest: Self)
        ensures
            contest.state() == game@,
    {
        let mut dark = dark;
        let mut light = light;
        dark.disk = Disk::Dark;
        light.disk = Disk::Light;
        Self { game, dark, light }
    }

    /// Plays the game to its end, the players moving in turn. The game ends
    /// as the first outcome of the game as it stood.
    pub fn play(&mut self)
        ensures
            final(self).state().is_complete(),
            final(self).state() == outcomes(old(self).state())[0],
    {
        proof {
            self.game.lemma_view();
            lemma_outcomes_nonempty(self.game@);
        }
        while !self.game.is_complete()
            invariant
                self.game@.wf(),
                outcomes(self.game@).len() > 0,
                outcomes(self.game@)[0] == outcomes(old(self).game@)[0],
            decreases measure(self.game@),
        {
            let playable_game = self.game.clone();
            proof {
                lemma_first_outcome(self.game@);
            }
            let result = match self.game.turn() {
                Disk::Dark => self.dark.play(playable_game),
                Disk::Light => self.light.play(playable_game),
            };
            self.game = result;
        }
        proof {
            lemma_lines_complete(self.game@);
        }
    }
}

/// A player who makes the first move in scanning order.
pub struct Player {
    pub disk: Disk,
}

impl Clone for Player {
    /// A second player of the same colour.
    fn clone(&self) -> (copy: Self)
        ensures
            copy == *self,
    {
        Player { disk: self.disk }
    }
}

impl Player {
    /// A player, for the time being of the dark disks.
    pub fn new() -> (player: Self)
        ensures
            player.disk == Disk::Dark,
    {
        Self { disk: Disk::Dark }
    }

    /// Makes the player's move in `game`: the first legal move in scanning
    /// order, or a pass.
    pub fn play(&mut self, game: Game) -> (next: Game)
        ensures
            next@ == first_step(game@),
            *final(self) == *old(self),
    {
        let mut moves = game.move_iter();
        match moves.next() {
            Some(m) => {
                proof {
                    crate::rules::lemma_legal_moves(game@.board, game@.turn);
                }
                game.play(m)
            },
            None => game.pass(),
        }
    }
}

} // verus!
