//! The agent boundary: one `next_move` capability, implemented by the
//! uniform-random player and the Monte Carlo player, and a closed tagged
//! variant (`Agent`) that dispatches between them so that game flow can
//! hold either without an open trait object.

use vstd::prelude::*;

use crate::board::Board;
use crate::monte_carlo_agent::MonteCarloAgent;
use crate::random_agent::RandomAgent;
use crate::types::{AgentType, Color, Coordinate};

verus! {

/// An automated player for one fixed color. `next_move` must be given a
/// position where that color has a legal move, and answers one.
pub trait AiAgent: Sized {
    /// The color this agent plays.
    spec fn spec_color(&self) -> Color;

    /// The kind of player this agent is.
    spec fn spec_agent_type(&self) -> AgentType;

    fn color(&self) -> (c: Color)
        ensures
            c == self.spec_color(),
    ;

    fn agent_type(&self) -> (t: AgentType)
        ensures
            t == self.spec_agent_type(),
    ;

    fn next_move(&mut self, board: &Board) -> (mv: Coordinate)
        requires
            board.wf(),
            board.has_any_move(old(self).spec_color()),
        ensures
            mv.x < 8,
            mv.y < 8,
            board.spec_valid_move(old(self).spec_color(), mv.x as int, mv.y as int),
            final(self).spec_color() == old(self).spec_color(),
            final(self).spec_agent_type() == old(self).spec_agent_type(),
    ;
}

/// The closed set of agent kinds, dispatched as a tagged variant.
#[derive(Debug)]
pub enum Agent {
    Random(RandomAgent),
    MonteCarlo(MonteCarloAgent),
}

impl AiAgent for Agent {
    open spec fn spec_color(&self) -> Color {
        match self {
            Agent::Random(a) => a.spec_color(),
            Agent::MonteCarlo(a) => a.spec_color(),
        }
    }

    open spec fn spec_agent_type(&self) -> AgentType {
        match self {
            Agent::Random(_) => AgentType::Random,
            Agent::MonteCarlo(_) => AgentType::MonteCarlo,
        }
    }

    fn color(&self) -> (c: Color) {
        match self {
            Agent::Random(a) => a.color(),
            Agent::MonteCarlo(a) => a.color(),
        }
    }

    fn agent_type(&self) -> (t: AgentType) {
        match self {
            Agent::Random(_) => AgentType::Random,
            Agent::MonteCarlo(_) => AgentType::MonteCarlo,
        }
    }

    fn next_move(&mut self, board: &Board) -> (mv: Coordinate) {
        match self {
            Agent::Random(a) => a.next_move(board),
            Agent::MonteCarlo(a) => a.next_move(board),
        }
    }
}

/// A fresh agent of the given kind playing `color`.
pub fn initialize_agent(agent_type: AgentType, color: Color) -> (a: Agent)
    ensures
        a.spec_agent_type() == agent_type,
        a.spec_color() == color,
{
    match agent_type {
        AgentType::Random => Agent::Random(RandomAgent::new(color)),
        AgentType::MonteCarlo => Agent::MonteCarlo(MonteCarloAgent::new(color)),
    }
}

/// A fresh agent of the same kind and color as the given one (with a
/// fresh randomness source), or `None` when there is none.
pub fn renew_agent(agent: &Option<Agent>) -> (r: Option<Agent>)
    ensures
        r is Some <==> agent is Some,
        r is Some ==> r.unwrap().spec_agent_type() == agent.unwrap().spec_agent_type()
            && r.unwrap().spec_color() == agent.unwrap().spec_color(),
{
    match agent {
        Some(a) => {
            match a.agent_type() {
                AgentType::Random => Some(Agent::Random(RandomAgent::new(a.color()))),
                AgentType::MonteCarlo => Some(Agent::MonteCarlo(MonteCarloAgent::new(a.color()))),
            }
        },
        None => None,
    }
}

} // verus!
