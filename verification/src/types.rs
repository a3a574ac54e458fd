use vstd::prelude::*;

verus! {

/// A 64-bit mask with one bit per board cell; bit `y * 8 + x` encodes
/// occupancy of the cell at column `x`, row `y`.
pub type BitBoard = u64;

/// The two players.
#[derive(Debug, Clone, Copy, PartialEq, Eq, Structural)]
pub enum Color {
    Black,
    White,
}

impl Color {
    /// The other player.
    pub open spec fn spec_opponent(self) -> Color {
        match self {
            Color::Black => Color::White,
            Color::White => Color::Black,
        }
    }

    pub fn opponent(self) -> (c: Color)
        ensures
            c == self.spec_opponent(),
    {
        match self {
            Color::Black => Color::White,
            Color::White => Color::Black,
        }
    }
}

/// Taking the opponent twice returns to the same player: `spec_opponent`
/// is a total involution on `Color`.
pub proof fn lemma_opponent_involution(c: Color)
    ensures
        c.spec_opponent().spec_opponent() == c,
{
}

/// The kinds of automated player the library offers.
#[derive(Debug, Clone, Copy, PartialEq, Eq, Structural)]
pub enum AgentType {
    Random,
    MonteCarlo,
}

/// Phase of a game as tracked by `GameState`.
#[derive(Debug, Clone, Copy, PartialEq, Eq, Structural)]
pub enum GameStatus {
    BeforeStart,
    InProgress,
    Winner(Color),
    Draw,
}

/// Error of `Board::move_piece`: the placement would flip no opposing
/// piece (including the case of an already occupied target cell).
#[derive(Debug, Clone, Copy, PartialEq, Eq, Structural)]
pub struct InvalidMove;

/// Errors of the game-state layer.
#[derive(Debug, Clone, Copy, PartialEq, Eq, Structural)]
pub enum GameError {
    /// The attempted placement flips nothing; the board is unchanged.
    InvalidMove,
    /// No AI agent is configured on the game state.
    NoAgent,
}

/// A cell position; a legal cell has both components in `[0, 8)`.
#[derive(Debug, Clone, Copy, PartialEq, Eq, Structural)]
pub struct Coordinate {
    pub x: u32,
    pub y: u32,
}

impl Coordinate {
    /// The single-bit mask of this cell.
    pub fn to_bit(self) -> (b: BitBoard)
        requires
            self.x < 8,
            self.y < 8,
        ensures
            b == (1u64 << ((self.y * 8 + self.x) as u64)),
    {
        1u64 << ((self.y as u64) * 8 + (self.x as u64))
    }
}

impl From<(u32, u32)> for Coordinate {
    fn from(p: (u32, u32)) -> (c: Coordinate) {
        Coordinate { x: p.0, y: p.1 }
    }
}

impl vstd::std_specs::convert::FromSpecImpl<(u32, u32)> for Coordinate {
    open spec fn obeys_from_spec() -> bool {
        true
    }

    open spec fn from_spec(p: (u32, u32)) -> Coordinate {
        Coordinate { x: p.0, y: p.1 }
    }
}

} // verus!
