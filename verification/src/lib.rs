//! A chess engine with its board encoding, move generation, evaluation and
//! alpha-beta search, together with the match registry and game rules built on it.
pub mod board;
pub mod moves;
pub mod eval;
pub mod minimax;
pub mod registry;
pub mod game;
pub mod match_registry;
pub mod agent;
pub mod notes;
