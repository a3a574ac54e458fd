//! The uniform-random player: given a position with at least one legal
//! move, it plays one of them chosen uniformly at random.

use vstd::prelude::*;

use crate::ai_agent::AiAgent;
use crate::board::Board;
use crate::rng::RngSource;
use crate::types::{AgentType, Color, Coordinate};

verus! {

/// An agent that answers with a uniformly random legal move.
#[derive(Debug)]
pub struct RandomAgent {
    color: Color,
    rng: RngSource,
}

impl RandomAgent {
    /// A random agent for `color`, drawing from system entropy.
    pub fn new(color: Color) -> (a: RandomAgent)
        ensures
            a.spec_color() == color,
    {
        RandomAgent { color, rng: RngSource::from_entropy() }
    }

    /// A random agent whose choices are fixed by `seed`.
    pub fn with_seed(color: Color, seed: u64) -> (a: RandomAgent)
        ensures
            a.spec_color() == color,
    {
        RandomAgent { color, rng: RngSource::from_seed(seed) }
    }
}

impl AiAgent for RandomAgent {
    closed spec fn spec_color(&self) -> Color {
        self.color
    }

    open spec fn spec_agent_type(&self) -> AgentType {
        AgentType::Random
    }

    fn color(&self) -> (c: Color) {
        self.color
    }

    fn agent_type(&self) -> (t: AgentType) {
        AgentType::Random
    }

    fn next_move(&mut self, board: &Board) -> (mv: Coordinate) {
        let vm = board.valid_moves(self.color);
        let i = self.rng.index_below(vm.len());
        vm[i]
    }
}

} // verus!
