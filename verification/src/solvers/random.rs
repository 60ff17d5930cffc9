//! Games played out by chance, from a seed that makes them repeatable.

use rand::rngs::StdRng;
use rand::seq::SliceRandom;
use rand::SeedableRng;
use sha2::{Digest, Sha256};
use vstd::prelude::*;
use vstd::utf8::encode_utf8;
use crate::game::{views, Game, GameView, ValidMove};
use crate::reach::{ends_as, lemma_outcomes_exact};
use crate::tree::{
    lemma_lines_after_move, lemma_lines_after_pass, lemma_lines_complete, lines, measure,
    outcomes,
};

verus! {

/// The generator of the crate rand that a seed starts. Nothing of its state
/// shows in any contract.
#[verifier::external_type_specification]
#[verifier::external_body]
pub struct ExStdRng(StdRng);

/// The SHA-256 digest of a sequence of bytes.
pub uninterp spec fn sha256(data: Seq<u8>) -> Seq<u8>;

/// Computes the SHA-256 digest of `data`.
///
/// Trusted: this is `Sha256::digest` of the crate sha2. The digest depends
/// on the bytes alone, and has 32 bytes.
#[verifier::external_body]
fn sha256_digest(data: &[u8]) -> (digest: Vec<u8>)
    ensures
        digest@ == sha256(data@),
        digest@.len() == 32,
{
    Sha256::digest(data).to_vec()
}

/// Starts a generator from 32 bytes.
///
/// Trusted: this is `StdRng::from_seed` of the crate rand. Nothing is said
/// of the generator that it returns.
#[verifier::external_body]
fn rng_from_seed(seed: [u8; 32]) -> StdRng {
    StdRng::from_seed(seed)
}

/// Picks one of the moves by chance.
///
/// Trusted: this is `SliceRandom::choose` of the crate rand. It returns an
/// entry of the list, or `None` exactly if the list is empty. Which entry is
/// not said.
#[verifier::external_body]
fn pick<'a>(moves: &'a Vec<ValidMove>, rng: &mut StdRng) -> (chosen: Option<&'a ValidMove>)
    ensures
        chosen is None <==> moves@.len() == 0,
        chosen matches Some(m) ==> moves@.contains(*m),
{
    moves.choose(rng)
}

/// What a run of random games starts from: a text, and the 32 bytes derived
/// from it.
pub struct Seed {
    pub string: String,
    value: [u8; 32],
}

impl Seed {
    /// The number of bytes of a seed.
    pub const SEED_LENGTH: usize = 32;

    /// The bytes of the seed.
    pub closed spec fn bytes(self) -> Seq<u8> {
        self.value@
    }

    /// The text of the seed.
    pub closed spec fn text(self) -> Seq<char> {
        self.string@
    }

    /// The 32 bytes of the seed.
    pub fn value(&self) -> (bytes: &[u8; 32])
        ensures
            bytes@ == self.bytes(),
    {
        &self.value
    }

    /// The seed of the word "reversi".
    pub fn new() -> (seed: Self)
        ensures
            seed.text() == "reversi"@,
            seed.bytes() == sha256(encode_utf8("reversi"@)),
    {
        Seed::from_string(String::from_str("reversi"))
    }

    /// The seed of a text: its bytes are the SHA-256 digest of the text in
    /// UTF-8.
    pub fn from_string(string: String) -> (seed: Self)
        ensures
            seed.text() == string@,
            seed.bytes() == sha256(encode_utf8(string@)),
    {
        let result = sha256_digest(string.as_str().as_bytes());
        Seed::from_digest(string, result.as_slice())
    }

    /// The seed of a text whose digest is at hand: its bytes are those of
    /// the digest.
    pub fn from_digest(string: String, result: &[u8]) -> (seed: Self)
        requires
            result@.len() == Seed::SEED_LENGTH,
        ensures
            seed.text() == string@,
            seed.bytes() == result@,
    {
        let mut value: [u8; 32] = [0;32];
        let mut idx: usize = 0;
        while idx < Self::SEED_LENGTH
            invariant
                idx <= 32,
                result@.len() == 32,
                forall|k: int| 0 <= k < idx ==> value@[k] == result@[k],
            decreases 32 - idx,
        {
            value[idx] = result[idx];
            idx += 1;
        }
        assert(value@ =~= result@);
        Self { string, value }
    }
}

/// A source of random games: each is played from the same game, every move
/// picked by chance.
pub struct Random {
    game: Game,
    rng: StdRng,
}

impl Random {
    /// The game from which every random game is played.
    pub closed spec fn start(self) -> GameView {
        self.game@
    }

    /// A source of random games from `game`, repeatable by its seed.
    pub fn new(game: Game, seed: Seed) -> (source: Self)
        ensures
            source.start() == game@,
    {
        Self { game, rng: rng_from_seed(seed.value) }
    }

    /// Plays one game to its end, each move picked by chance among the
    /// legal ones. The game that comes out is one of those that a search
    /// from the start finds: a finished game in which the start can end.
    pub fn solve(&mut self) -> (played: Game)
        ensures
            final(self).start() == old(self).start(),
            lines(old(self).start()).contains(played@),
            ends_as(old(self).start(), played@),
    {
        let mut g = self.game.clone();
        proof {
            g.lemma_view();
        }
        loop
            invariant
                g@.wf(),
                self.game == old(self).game,
                lines(g@).subset_of(lines(old(self).game@)),
            decreases measure(g@),
        {
            if g.is_complete() {
                proof {
                    lemma_lines_complete(g@);
                    self.game.lemma_view();
                    lemma_outcomes_exact(self.game@);
                    vstd::seq_lib::to_multiset_contains(outcomes(self.game@), g@);
                }
                return g;
            }
            let valid_moves = g.valid_moves();
            let ghost before = g@;
            let chosen = pick(&valid_moves, &mut self.rng);
            proof {
                if let Some(vm) = chosen {
                    let k = choose|k: int| 0 <= k < valid_moves@.len() && valid_moves@[k] == *vm;
                    assert(views(valid_moves@)[k] == vm@);
                    assert(before.moves().contains(vm@));
                    lemma_lines_after_move(before, vm@);
                } else {
                    lemma_lines_after_pass(before);
                }
            }
            g = Random::follow(&g, chosen);
        }
    }

    /// The game after the move that was picked, or after a pass where none
    /// was.
    pub fn follow(game: &Game, chosen: Option<&ValidMove>) -> (next: Game)
        requires
            chosen matches Some(m) ==> m@.in_bounds(),
        ensures
            next@ == match chosen {
                Some(m) => game@.play(m@),
                None => game@.pass(),
            },
    {
        match chosen {
            None => game.pass(),
            Some(vm) => game.play(vm.clone()),
        }
    }

    /// The next random game. There is always one more.
    pub fn next(&mut self) -> (item: Option<Game>)
        ensures
            final(self).start() == old(self).start(),
            item is Some,
            lines(old(self).start()).contains(item->Some_0@),
            ends_as(old(self).start(), item->Some_0@),
    {
        Some(self.solve())
    }
}

} // verus!
