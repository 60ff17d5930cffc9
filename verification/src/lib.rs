//! Exhaustive exploration of the game tree of Reversi, with every function
//! specified and proved.
//!
//! The board and the rules: [`disk`], [`direction`], [`position`],
//! [`board`], [`rules`], [`game`], [`transcript`]. A second reading of the
//! same board, with the colour to move kept beside it: [`grid`],
//! [`analyzer`], [`internal_position`], [`transcript_position`],
//! [`position_state`].
//!
//! The searches: [`solvers`], with the depth-first searches
//! ([`solvers::DepthFirstIterator`], [`solvers::incremental`]), the split of
//! one search into many ([`solvers::parallel`]) and games played by chance
//! ([`solvers::random`]); [`contest`]; [`collector`].
//!
//! What the searches are held to: [`tree`] says what a search finds and in
//! which order, [`stack`] what is left to find from a stack of frames,
//! [`frontier`] what lies a number of turns ahead, [`reach`] what the rules
//! allow without any search, [`symmetry`] and [`opening`] why the mirror
//! images of a game are games and why a search may start behind the first
//! move.

pub mod analyzer;
pub mod board;
pub mod collector;
pub mod contest;
pub mod direction;
pub mod disk;
pub mod frontier;
pub mod game;
pub mod grid;
pub mod internal_position;
pub mod opening;
pub mod position;
pub mod position_state;
pub mod reach;
pub mod rules;
pub mod solvers;
pub mod stack;
pub mod symmetry;
pub mod text;
pub mod transcript;
pub mod transcript_position;
pub mod tree;
