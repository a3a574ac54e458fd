//! Verified core of an 8x8 Reversi (Othello) engine.
//!
//! The crate has two layers: a bitboard model of the game rules
//! (`types`, `bits`, `board`) and a Monte Carlo tree search engine that
//! chooses moves for an automated player (`monte_carlo`, the agents and
//! `game_state`). All randomness is drawn from an injectable, seedable
//! source (`rng`) so that a fixed seed reproduces a search exactly.

pub mod ai_agent;
pub mod bits;
pub mod board;
pub mod game_state;
pub mod monte_carlo;
pub mod monte_carlo_agent;
pub mod random_agent;
pub mod rng;
pub mod types;
