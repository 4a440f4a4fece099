//! Core logic of the sliding-tile merge game on square boards of side at
//! least four, together with a Monte Carlo move-recommendation engine.
//!
//! The board transition engine (sliding and merging tiles), the game
//! state with its cached per-direction transitions, the tile spawner and
//! the rollout-based search are all verified; randomness enters only
//! through one small trusted wrapper around the `rand` crate, and thread
//! fan-out is left to callers of `rollout_batch`.

pub mod board;
pub mod direction;
pub mod error;
pub mod game;
pub mod laws;
mod rng;
pub mod search;
pub mod transform;

pub use direction::GameMove;
pub use error::Error;
pub use game::Game;
pub use game::GameResult;
pub use game::GameState;
pub use game::MoveOutcome;
pub use search::best_direction;
pub use search::rollout;
pub use search::rollout_batch;
pub use search::rollouts_per_worker;
pub use transform::board_transform;
