//! The search-based player: answers with the move the Monte Carlo tree
//! search recommends after the full iteration budget.

use vstd::prelude::*;

use crate::ai_agent::AiAgent;
use crate::board::Board;
use crate::monte_carlo::runner::{get_best_move, DEFAULT_ITERATIONS};
use crate::rng::RngSource;
use crate::types::{AgentType, Color, Coordinate};

verus! {

/// An agent that runs a full Monte Carlo tree search per move.
#[derive(Debug)]
pub struct MonteCarloAgent {
    color: Color,
    rng: RngSource,
}

impl MonteCarloAgent {
    /// A search agent for `color`, drawing from system entropy.
    pub fn new(color: Color) -> (a: MonteCarloAgent)
        ensures
            a.spec_color() == color,
    {
        MonteCarloAgent { color, rng: RngSource::from_entropy() }
    }

    /// A search agent whose whole search is fixed by `seed`.
    pub fn with_seed(color: Color, seed: u64) -> (a: MonteCarloAgent)
        ensures
            a.spec_color() == color,
    {
        MonteCarloAgent { color, rng: RngSource::from_seed(seed) }
    }
}

impl AiAgent for MonteCarloAgent {
    closed spec fn spec_color(&self) -> Color {
        self.color
    }

    open spec fn spec_agent_type(&self) -> AgentType {
        AgentType::MonteCarlo
    }

    fn color(&self) -> (c: Color) {
        self.color
    }

    fn agent_type(&self) -> (t: AgentType) {
        AgentType::MonteCarlo
    }

    fn next_move(&mut self, board: &Board) -> (mv: Coordinate) {
        get_best_move(board, self.color, DEFAULT_ITERATIONS, &mut self.rng)
    }
}

} // verus!
