//! Rules and move-legality engine for a Go-like board game on a square grid,
//! together with a Monte Carlo tree search engine that chooses moves for an
//! automated player.

pub mod board;
pub mod game;
pub mod mcts;
pub mod player;
pub mod region;
pub mod rng;
pub mod uct;
pub mod signals;
pub mod stones;

use vstd::prelude::*;

verus! {

} // verus!
