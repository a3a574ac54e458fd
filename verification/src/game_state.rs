//! Game flow: the board, the running turn counter, whose move it is,
//! the game status, and an optional AI agent that answers for its color
//! as soon as a finished turn hands it the move. `make_move`,
//! `make_agent_move` and `finish_turn` recurse into one another; the
//! recursion terminates because every applied move fills one cell.

use vstd::prelude::*;

use crate::ai_agent::{Agent, AiAgent};
use crate::bits::count_bits;
use crate::board::{
    legal_cells, lemma_count_total_bound, lemma_move_piece_counts, spec_winner_of, Board,
};
use crate::types::{AgentType, Color, Coordinate, GameError, GameStatus, InvalidMove};

verus! {

/// Number of empty cells of a board.
pub open spec fn empty_cells(b: Board) -> int {
    64 - count_bits(b.black_mask(), 64) - count_bits(b.white_mask(), 64)
}

/// One game in progress.
#[derive(Debug)]
pub struct GameState {
    pub board: Board,
    pub turn_count: u32,
    pub turn: Color,
    pub status: GameStatus,
    pub ai_agent: Option<Agent>,
}

impl GameState {
    /// The board invariant carried through the whole game.
    pub open spec fn wf(self) -> bool {
        self.board.wf()
    }

    /// The other state has an agent of the same presence, kind and color.
    pub open spec fn agent_matches(self, other: GameState) -> bool {
        &&& (self.ai_agent is Some <==> other.ai_agent is Some)
        &&& (self.ai_agent is Some ==> self.ai_agent.unwrap().spec_color()
            == other.ai_agent.unwrap().spec_color()
            && self.ai_agent.unwrap().spec_agent_type()
            == other.ai_agent.unwrap().spec_agent_type())
    }

    /// A fresh game: the standard opening, black to move, not started,
    /// no agent.
    pub fn new() -> (s: GameState)
        ensures
            s.wf(),
            s.board.black_mask() == (1u64 << 28) | (1u64 << 35),
            s.board.white_mask() == (1u64 << 27) | (1u64 << 36),
            s.turn_count == 0,
            s.turn == Color::Black,
            s.status == GameStatus::BeforeStart,
            s.ai_agent is None,
    {
        GameState {
            board: Board::new(),
            turn_count: 0,
            turn: Color::Black,
            status: GameStatus::BeforeStart,
            ai_agent: None,
        }
    }

    /// The legal moves of the color to move.
    pub fn valid_moves(&self) -> (moves: Vec<Coordinate>)
        requires
            self.wf(),
        ensures
            forall|i: int|
                0 <= i < moves@.len() ==> (#[trigger] moves@[i]).x < 8 && moves@[i].y < 8
                    && self.board.spec_valid_move(self.turn, moves@[i].x as int, moves@[i].y as int),
            forall|x: int, y: int|
                self.board.spec_valid_move(self.turn, x, y) ==> exists|i: int|
                    0 <= i < moves@.len() && (#[trigger] moves@[i]).x == x && moves@[i].y == y,
            forall|i: int, j: int|
                0 <= i < j < moves@.len() ==> (#[trigger] moves@[i]).y * 8 + moves@[i].x < (
                #[trigger] moves@[j]).y * 8 + moves@[j].x,
            moves@.len() > 0 <==> self.board.has_any_move(self.turn),
            moves@.len() == legal_cells(self.board, self.turn).len(),
            forall|i: int|
                0 <= i < moves@.len() ==> (#[trigger] moves@[i]).y * 8 + moves@[i].x
                    == legal_cells(self.board, self.turn)[i],
    {
        self.board.valid_moves(self.turn)
    }

    /// The kind of the configured agent, if any.
    pub fn agent_type(&self) -> (t: Option<AgentType>)
        ensures
            t is Some <==> self.ai_agent is Some,
            t is Some ==> t.unwrap() == self.ai_agent.unwrap().spec_agent_type(),
    {
        match &self.ai_agent {
            Some(a) => Some(a.agent_type()),
            None => None,
        }
    }

    /// Apply the given move for the color to move, then finish the turn
    /// (count it, pass the move or settle the result, and let the agent
    /// answer). Fails exactly on an illegal placement, leaving the whole
    /// state unchanged.
    pub fn make_move(&mut self, coord: Coordinate) -> (r: Result<(), InvalidMove>)
        requires
            old(self).wf(),
            old(self).board.spec_valid_move(old(self).turn, coord.x as int, coord.y as int)
                ==> old(self).ai_agent is Some,
            coord.x < 8,
            coord.y < 8,
            old(self).turn_count + empty_cells(old(self).board) <= u32::MAX,
        ensures
            final(self).wf(),
            final(self).agent_matches(*old(self)),
            r is Ok <==> old(self).board.spec_valid_move(
                old(self).turn,
                coord.x as int,
                coord.y as int,
            ),
            r is Err ==> *final(self) == *old(self),
            r is Ok ==> final(self).turn_count > old(self).turn_count,
            r is Ok ==> (final(self).status is InProgress ==> final(self).board.has_any_move(
                final(self).turn,
            )),
        decreases empty_cells(self.board), 0int,
    {
        let turn = self.turn;
        let ghost preboard = self.board;
        let r = self.board.move_piece(coord, turn);
        match r {
            Ok(()) => {
                proof {
                    lemma_move_piece_counts(preboard, turn, coord.x as int, coord.y as int);
                    assert(count_bits(self.board.black_mask(), 64) + count_bits(
                        self.board.white_mask(),
                        64,
                    ) == count_bits(preboard.black_mask(), 64) + count_bits(
                        preboard.white_mask(),
                        64,
                    ) + 1);
                    assert(empty_cells(self.board) < empty_cells(preboard));
                    lemma_count_total_bound(self.board);
                    assert(empty_cells(self.board) >= 0);
                }
                self.finish_turn();
                Ok(())
            },
            Err(e) => Err(e),
        }
    }

    /// Ask the configured agent for a move and apply it for the color to
    /// move. With no agent the call fails with `NoAgent`; when the agent
    /// plays the color whose turn it is, the call succeeds.
    pub fn make_agent_move(&mut self) -> (r: Result<(), GameError>)
        requires
            old(self).wf(),
            old(self).ai_agent is Some ==> old(self).board.has_any_move(
                old(self).ai_agent.unwrap().spec_color(),
            ),
            old(self).ai_agent is Some ==> old(self).turn_count + empty_cells(old(self).board)
                <= u32::MAX,
        ensures
            final(self).wf(),
            final(self).agent_matches(*old(self)),
            old(self).ai_agent is None ==> *final(self) == *old(self) && r == Err::<
                (),
                GameError,
            >(GameError::NoAgent),
            (old(self).ai_agent is Some && old(self).ai_agent.unwrap().spec_color() == old(
                self,
            ).turn) ==> r is Ok,
            r is Ok ==> final(self).turn_count > old(self).turn_count,
            r is Ok ==> (final(self).status is InProgress ==> final(self).board.has_any_move(
                final(self).turn,
            )),
        decreases empty_cells(self.board), 1int,
    {
        if self.ai_agent.is_some() {
            let board_copy = self.board;
            let coord = match &mut self.ai_agent {
                Some(agent) => agent.next_move(&board_copy),
                None => {
                    proof {
                        assert(false);
                    }
                    Coordinate { x: 0, y: 0 }
                },
            };
            let r = self.make_move(coord);
            match r {
                Ok(()) => Ok(()),
                Err(InvalidMove) => Err(GameError::InvalidMove),
            }
        } else {
            Err(GameError::NoAgent)
        }
    }

    /// Close a turn: count it; if neither side can move, settle the
    /// result by piece count; otherwise hand the move to the opponent
    /// when they can reply. Then, in a running game whose turn belongs
    /// to the agent's color, let the agent move.
    pub fn finish_turn(&mut self)
        requires
            old(self).wf(),
            old(self).ai_agent is Some,
            old(self).turn_count + empty_cells(old(self).board) + 1 <= u32::MAX,
        ensures
            final(self).wf(),
            final(self).agent_matches(*old(self)),
            final(self).turn_count > old(self).turn_count,
            final(self).status is InProgress ==> final(self).board.has_any_move(final(self).turn),
            (!old(self).board.has_any_move(old(self).turn) && !old(self).board.has_any_move(
                old(self).turn.spec_opponent(),
            )) ==> final(self).board == old(self).board && final(self).turn == old(self).turn
                && final(self).turn_count == old(self).turn_count + 1 && final(self).status == (
            match spec_winner_of(old(self).board) {
                Some(c) => GameStatus::Winner(c),
                None => GameStatus::Draw,
            }),
        decreases empty_cells(self.board), 2int,
    {
        proof {
            lemma_count_total_bound(old(self).board);
        }
        let tc = self.turn_count;
        self.turn_count = tc + 1;
        let my_moves = self.board.valid_moves(self.turn);
        let opp = self.turn.opponent();
        let opp_moves = self.board.valid_moves(opp);
        if my_moves.len() == 0 && opp_moves.len() == 0 {
            let (black_count, white_count) = self.board.count_pieces();
            self.status = if black_count < white_count {
                GameStatus::Winner(Color::White)
            } else if black_count == white_count {
                GameStatus::Draw
            } else {
                GameStatus::Winner(Color::Black)
            };
        } else if opp_moves.len() > 0 {
            self.turn = opp;
        }
        let agent_color = match &self.ai_agent {
            Some(a) => a.color(),
            None => {
                proof {
                    assert(false);
                }
                Color::Black
            },
        };
        let in_progress = match self.status {
            GameStatus::InProgress => true,
            _ => false,
        };
        if in_progress && agent_color == self.turn {
            proof {
                assert(self.board.has_any_move(self.turn));
            }
            let r = self.make_agent_move();
            proof {
                assert(r is Ok);
            }
        }
    }
}

impl PartialEq for GameState {
    /// States are equal when board, counter, turn, status and the kind
    /// of configured agent agree (an agent's randomness source has no
    /// part in equality).
    fn eq(&self, other: &Self) -> (r: bool) {
        let agents_match = match (&self.ai_agent, &other.ai_agent) {
            (None, None) => true,
            (Some(a), Some(b)) => {
                let ta = a.agent_type();
                let tb = b.agent_type();
                match (ta, tb) {
                    (AgentType::Random, AgentType::Random) => true,
                    (AgentType::MonteCarlo, AgentType::MonteCarlo) => true,
                    _ => false,
                }
            },
            _ => false,
        };
        self.board == other.board && self.turn_count == other.turn_count && self.turn == other.turn
            && self.status == other.status && agents_match
    }
}

impl vstd::std_specs::cmp::PartialEqSpecImpl for GameState {
    open spec fn obeys_eq_spec() -> bool {
        true
    }

    open spec fn eq_spec(&self, other: &Self) -> bool {
        &&& self.board == other.board
        &&& self.turn_count == other.turn_count
        &&& self.turn == other.turn
        &&& self.status == other.status
        &&& (self.ai_agent is Some <==> other.ai_agent is Some)
        &&& (self.ai_agent is Some ==> self.ai_agent.unwrap().spec_agent_type()
            == other.ai_agent.unwrap().spec_agent_type())
    }
}

impl Default for GameState {
    /// The same state as `GameState::new`.
    fn default() -> (s: GameState)
        ensures
            s.wf(),
            s.turn_count == 0,
            s.turn == Color::Black,
            s.status == GameStatus::BeforeStart,
            s.ai_agent is None,
    {
        GameState::new()
    }
}

} // verus!
