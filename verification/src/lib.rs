mod board;
mod grid;
mod rng;

pub use board::{new_game, new_game_seeded, GameParams, GameState};
