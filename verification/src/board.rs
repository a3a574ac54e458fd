//! The 8x8 board: two bitboards (one per color), legal-move detection by
//! scanning the eight compass directions, and flip application.
//!
//! The specification mirrors the scan: `ray_flips` walks one direction and
//! returns the run of opposing pieces that a placement would flip there
//! (`None` when the run is not terminated by an own piece), `flips_upto`
//! unions the directions, and `spec_valid_move` asks for an empty target
//! cell from which at least one direction flips a non-empty run.

use vstd::prelude::*;

use crate::bits::{
    bit_at, count_bits, lemma_bit_facts, lemma_count_bounds, lemma_count_disjoint,
    lemma_count_full, lemma_count_positive, lemma_count_remove, lemma_count_single,
    lemma_or_algebra, popcount,
};
use crate::types::{BitBoard, Color, Coordinate, InvalidMove};

verus! {

/// True when `(x, y)` names a cell of the 8x8 board.
pub open spec fn in_bounds(x: int, y: int) -> bool {
    0 <= x < 8 && 0 <= y < 8
}

/// Bit index of the cell at column `x`, row `y`.
pub open spec fn cell_ix(x: int, y: int) -> int {
    y * 8 + x
}

/// True when the bit of cell `(x, y)` is set in `m`.
pub open spec fn cell_bit(m: u64, x: int, y: int) -> bool {
    bit_at(m, cell_ix(x, y) as u64)
}

/// True for the step of one of the eight compass directions.
pub open spec fn is_dir(dx: int, dy: int) -> bool {
    -1 <= dx <= 1 && -1 <= dy <= 1 && !(dx == 0 && dy == 0)
}

/// Column step of direction number `d` (the order the scan uses).
pub open spec fn dir_dx(d: int) -> int {
    if d <= 2 {
        -1
    } else if d <= 4 {
        0
    } else {
        1
    }
}

/// Row step of direction number `d`.
pub open spec fn dir_dy(d: int) -> int {
    if d == 0 || d == 3 || d == 5 {
        -1
    } else if d == 1 || d == 6 {
        0
    } else {
        1
    }
}

/// Upper bound on how many steps a walk from `(x, y)` along `(dx, dy)`
/// can stay on the board; the termination measure of `ray_flips`.
pub open spec fn ray_steps(x: int, y: int, dx: int, dy: int) -> int {
    let sx = if dx > 0 {
        7 - x
    } else if dx < 0 {
        x
    } else {
        8
    };
    let sy = if dy > 0 {
        7 - y
    } else if dy < 0 {
        y
    } else {
        8
    };
    if sx <= sy {
        sx
    } else {
        sy
    }
}

/// The run of opposing pieces flipped in direction `(dx, dy)` when the
/// mover places on `(x, y)`: `Some(mask)` when the contiguous run of
/// opposing pieces starting next to `(x, y)` is terminated by an own
/// piece (the mask may be empty), `None` when the walk leaves the board
/// or reaches an empty cell first.
pub open spec fn ray_flips(own: u64, opp: u64, x: int, y: int, dx: int, dy: int) -> Option<u64>
    decreases ray_steps(x, y, dx, dy)
        when is_dir(dx, dy) && in_bounds(x, y)
{
    let nx = x + dx;
    let ny = y + dy;
    if !in_bounds(nx, ny) {
        None
    } else if cell_bit(own, nx, ny) {
        Some(0)
    } else if cell_bit(opp, nx, ny) {
        match ray_flips(own, opp, nx, ny, dx, dy) {
            Some(m) => Some(m | (1u64 << (cell_ix(nx, ny) as u64))),
            None => None,
        }
    } else {
        None
    }
}

/// The flip mask of one direction; zero when nothing flips there.
pub open spec fn ray_mask(own: u64, opp: u64, x: int, y: int, dx: int, dy: int) -> u64 {
    match ray_flips(own, opp, x, y, dx, dy) {
        Some(m) => m,
        None => 0,
    }
}

/// The flip mask of direction number `d`.
pub open spec fn dir_flip_mask(own: u64, opp: u64, x: int, y: int, d: int) -> u64 {
    ray_mask(own, opp, x, y, dir_dx(d), dir_dy(d))
}

/// Union of the flip masks of directions `[0, d)`.
pub open spec fn flips_upto(own: u64, opp: u64, x: int, y: int, d: int) -> u64
    decreases d,
{
    if d <= 0 {
        0
    } else {
        flips_upto(own, opp, x, y, d - 1) | dir_flip_mask(own, opp, x, y, d - 1)
    }
}

/// True when some direction among `[0, d)` flips a non-empty run.
pub open spec fn any_flip_upto(own: u64, opp: u64, x: int, y: int, d: int) -> bool
    decreases d,
{
    if d <= 0 {
        false
    } else {
        any_flip_upto(own, opp, x, y, d - 1) || dir_flip_mask(own, opp, x, y, d - 1) != 0
    }
}

/// The pieces flipped by placing on `(x, y)`, over all eight directions.
pub open spec fn move_flips(own: u64, opp: u64, x: int, y: int) -> u64 {
    flips_upto(own, opp, x, y, 8)
}

/// True when placing on `(x, y)` flips at least one opposing piece.
pub open spec fn move_has_flip(own: u64, opp: u64, x: int, y: int) -> bool {
    any_flip_upto(own, opp, x, y, 8)
}

/// The legal cell indices (`y * 8 + x`) of `turn` below `n`, in
/// increasing order.
pub open spec fn legal_cells_upto(b: Board, turn: Color, n: int) -> Seq<u8>
    decreases n,
{
    if n <= 0 {
        Seq::empty()
    } else {
        let s = legal_cells_upto(b, turn, n - 1);
        if b.spec_valid_move(turn, (n - 1) % 8, (n - 1) / 8) {
            s.push((n - 1) as u8)
        } else {
            s
        }
    }
}

/// All legal cell indices of `turn`, in increasing (row-major) order.
pub open spec fn legal_cells(b: Board, turn: Color) -> Seq<u8> {
    legal_cells_upto(b, turn, 64)
}

/// The entries of `legal_cells_upto` lie below `n`, are legal moves, and
/// strictly increase.
pub proof fn lemma_legal_cells_upto_props(b: Board, turn: Color, n: int)
    requires
        0 <= n <= 64,
    ensures
        forall|i: int|
            0 <= i < legal_cells_upto(b, turn, n).len() ==> (#[trigger] legal_cells_upto(
                b,
                turn,
                n,
            )[i]) < n && b.spec_valid_move(
                turn,
                legal_cells_upto(b, turn, n)[i] as int % 8,
                legal_cells_upto(b, turn, n)[i] as int / 8,
            ),
        forall|i: int, j: int|
            0 <= i < j < legal_cells_upto(b, turn, n).len() ==> (#[trigger] legal_cells_upto(
                b,
                turn,
                n,
            )[i]) < (#[trigger] legal_cells_upto(b, turn, n)[j]),
    decreases n,
{
    if n > 0 {
        lemma_legal_cells_upto_props(b, turn, n - 1);
        let s = legal_cells_upto(b, turn, n - 1);
        assert forall|i: int, j: int|
            0 <= i < j < legal_cells_upto(b, turn, n).len() implies (#[trigger] legal_cells_upto(
            b,
            turn,
            n,
        )[i]) < (#[trigger] legal_cells_upto(b, turn, n)[j]) by {
            if b.spec_valid_move(turn, (n - 1) % 8, (n - 1) / 8) {
                assert(legal_cells_upto(b, turn, n) == s.push((n - 1) as u8));
                if j < s.len() {
                    assert(legal_cells_upto(b, turn, n)[i] == s[i]);
                    assert(legal_cells_upto(b, turn, n)[j] == s[j]);
                } else {
                    assert(legal_cells_upto(b, turn, n)[j] == (n - 1) as u8);
                    assert(legal_cells_upto(b, turn, n)[i] == s[i]);
                    assert(s[i] < n - 1);
                }
            } else {
                assert(legal_cells_upto(b, turn, n) == s);
            }
        }
    }
}

/// The winner of a finished position by exact piece count: the side
/// with more pieces, or no one on a tie.
pub open spec fn spec_winner_of(b: Board) -> Option<Color> {
    if count_bits(b.black_mask(), 64) < count_bits(b.white_mask(), 64) {
        Some(Color::White)
    } else if count_bits(b.black_mask(), 64) == count_bits(b.white_mask(), 64) {
        None
    } else {
        Some(Color::Black)
    }
}

/// One legal move by either color leads from `b1` to `b2`.
pub open spec fn play_step(b1: Board, b2: Board) -> bool {
    exists|t: Color, x: int, y: int|
        b1.spec_valid_move(t, x, y) && b2 == #[trigger] b1.spec_after_move(t, x, y)
}

/// `b2` follows from `b1` by exactly `k` legal moves of either color.
pub open spec fn play_reachable(b1: Board, b2: Board, k: nat) -> bool
    decreases k,
{
    if k == 0 {
        b1 == b2
    } else {
        exists|m: Board| play_reachable(b1, m, (k - 1) as nat) && #[trigger] play_step(m, b2)
    }
}

/// What the standard opening places on each cell.
pub open spec fn spec_initial_cell(x: int, y: int) -> Option<Color> {
    if (x == 4 && y == 3) || (x == 3 && y == 4) {
        Some(Color::Black)
    } else if (x == 3 && y == 3) || (x == 4 && y == 4) {
        Some(Color::White)
    } else {
        None
    }
}

/// The board: one bitboard per color. The invariant `wf` says that no
/// cell is claimed by both colors.
#[derive(Debug, Clone, Copy, PartialEq, Eq, Structural)]
pub struct Board {
    white: BitBoard,
    black: BitBoard,
}

impl Board {
    /// The bitboard of the black pieces.
    pub closed spec fn black_mask(self) -> u64 {
        self.black
    }

    /// The bitboard of the white pieces.
    pub closed spec fn white_mask(self) -> u64 {
        self.white
    }

    /// The mover's own bitboard.
    pub open spec fn own_mask(self, turn: Color) -> u64 {
        match turn {
            Color::Black => self.black_mask(),
            Color::White => self.white_mask(),
        }
    }

    /// The mover's opponent's bitboard.
    pub open spec fn opp_mask(self, turn: Color) -> u64 {
        match turn {
            Color::Black => self.white_mask(),
            Color::White => self.black_mask(),
        }
    }

    /// No cell holds two pieces: the two bitboards never share a set bit.
    pub open spec fn wf(self) -> bool {
        forall|i: u64|
            i < 64 ==> !(#[trigger] bit_at(self.black_mask(), i) && bit_at(self.white_mask(), i))
    }

    /// True when some piece stands on `(x, y)`.
    pub open spec fn occupied(self, x: int, y: int) -> bool {
        cell_bit(self.black_mask(), x, y) || cell_bit(self.white_mask(), x, y)
    }

    /// The piece on `(x, y)`, if any.
    pub open spec fn cell(self, x: int, y: int) -> Option<Color> {
        if cell_bit(self.black_mask(), x, y) {
            Some(Color::Black)
        } else if cell_bit(self.white_mask(), x, y) {
            Some(Color::White)
        } else {
            None
        }
    }

    /// True when `turn` may legally place on `(x, y)`: the cell is on the
    /// board, empty, and flips at least one opposing piece.
    pub open spec fn spec_valid_move(self, turn: Color, x: int, y: int) -> bool {
        &&& in_bounds(x, y)
        &&& !self.occupied(x, y)
        &&& move_has_flip(self.own_mask(turn), self.opp_mask(turn), x, y)
    }

    /// The pieces that placing `turn` on `(x, y)` would flip.
    pub open spec fn spec_move_flips(self, turn: Color, x: int, y: int) -> u64 {
        move_flips(self.own_mask(turn), self.opp_mask(turn), x, y)
    }

    /// True when `turn` has at least one legal move.
    pub open spec fn has_any_move(self, turn: Color) -> bool {
        exists|x: int, y: int| self.spec_valid_move(turn, x, y)
    }

    /// The board built from the two bitboards.
    pub closed spec fn with_masks(black: u64, white: u64) -> Board {
        Board { black, white }
    }

    /// The board after `turn` legally places on `(x, y)`: the flipped
    /// run and the placed piece join the mover's bitboard and leave the
    /// opponent's.
    pub open spec fn spec_after_move(self, turn: Color, x: int, y: int) -> Board {
        let flips = self.spec_move_flips(turn, x, y);
        let own2 = (self.own_mask(turn) | flips) | (1u64 << (cell_ix(x, y) as u64));
        let opp2 = self.opp_mask(turn) & !flips;
        match turn {
            Color::Black => Board::with_masks(own2, opp2),
            Color::White => Board::with_masks(opp2, own2),
        }
    }

    /// The standard opening: white on (3,3) and (4,4), black on (3,4) and (4,3).
    pub fn new() -> (b: Board)
        ensures
            b.wf(),
            b.black_mask() == (1u64 << 28) | (1u64 << 35),
            b.white_mask() == (1u64 << 27) | (1u64 << 36),
            forall|x: int, y: int| in_bounds(x, y) ==> #[trigger] b.cell(x, y) == spec_initial_cell(x, y),
    {
        let mut board = Board { white: 0, black: 0 };
        board.set_piece(Coordinate::from((3, 3)), Color::White);
        board.set_piece(Coordinate::from((3, 4)), Color::Black);
        board.set_piece(Coordinate::from((4, 3)), Color::Black);
        board.set_piece(Coordinate::from((4, 4)), Color::White);
        proof {
            lemma_bit_facts();
            lemma_or_algebra();
            assert(board.black_mask() == (1u64 << 28) | (1u64 << 35));
            assert(board.white_mask() == (1u64 << 27) | (1u64 << 36));
            assert forall|i: u64| i < 64 implies #[trigger] bit_at(board.black_mask(), i) == (i
                == 28 || i == 35) by {
                assert(bit_at((1u64 << 28) | (1u64 << 35), i) == (bit_at(1u64 << 28, i) || bit_at(
                    1u64 << 35,
                    i,
                )));
            }
            assert forall|i: u64| i < 64 implies #[trigger] bit_at(board.white_mask(), i) == (i
                == 27 || i == 36) by {
                assert(bit_at((1u64 << 27) | (1u64 << 36), i) == (bit_at(1u64 << 27, i) || bit_at(
                    1u64 << 36,
                    i,
                )));
            }
            assert forall|x: int, y: int| in_bounds(x, y) implies board.cell(x, y)
                == spec_initial_cell(x, y) by {
                assert(0 <= cell_ix(x, y) < 64);
            }
        }
        board
    }

    /// A board from the two bitboards; `None` when they overlap.
    pub fn from_masks(black: BitBoard, white: BitBoard) -> (r: Option<Board>)
        ensures
            r is Some <==> (black & white) == 0,
            r is Some ==> r.unwrap().black_mask() == black && r.unwrap().white_mask() == white
                && r.unwrap().wf(),
    {
        if black & white == 0 {
            proof {
                lemma_bit_facts();
                assert forall|i: u64| i < 64 implies !(#[trigger] bit_at(black, i) && bit_at(
                    white,
                    i,
                )) by {
                    assert(bit_at(black & white, i) == (bit_at(black, i) && bit_at(white, i)));
                }
            }
            Some(Board { black, white })
        } else {
            None
        }
    }

    /// Set one piece of `color` on an empty board position (no clearing).
    fn set_piece(&mut self, coordinate: Coordinate, color: Color)
        requires
            coordinate.x < 8,
            coordinate.y < 8,
        ensures
            match color {
                Color::Black => final(self).black_mask() == old(self).black_mask() | (1u64 << (
                cell_ix(coordinate.x as int, coordinate.y as int) as u64)) && final(
                self).white_mask() == old(self).white_mask(),
                Color::White => final(self).white_mask() == old(self).white_mask() | (1u64 << (
                cell_ix(coordinate.x as int, coordinate.y as int) as u64)) && final(
                self).black_mask() == old(self).black_mask(),
            },
    {
        match color {
            Color::Black => self.black = self.black | coordinate.to_bit(),
            Color::White => self.white = self.white | coordinate.to_bit(),
        }
    }

    /// The piece on cell `(x, y)`, if any.
    pub fn cell_at(&self, x: u64, y: u64) -> (c: Option<Color>)
        requires
            x < 8,
            y < 8,
        ensures
            c == self.cell(x as int, y as int),
    {
        proof {
            lemma_bit_facts();
        }
        let bit = 1u64 << (y * 8 + x);
        if self.black & bit != 0 {
            Some(Color::Black)
        } else if self.white & bit != 0 {
            Some(Color::White)
        } else {
            None
        }
    }

    /// The whole position as rows of optional colors, row-major.
    pub fn as_array(&self) -> (r: [[Option<Color>; 8]; 8])
        ensures
            forall|x: int, y: int| in_bounds(x, y) ==> r[y][x] == self.cell(x, y),
    {
        let mut result: [[Option<Color>; 8]; 8] = [[None; 8]; 8];
        let mut y: u64 = 0;
        while y < 8
            invariant
                y <= 8,
                forall|rx: int, ry: int|
                    0 <= rx < 8 && 0 <= ry < y ==> result[ry][rx] == self.cell(rx, ry),
            decreases 8 - y,
        {
            let mut x: u64 = 0;
            while x < 8
                invariant
                    x <= 8,
                    y < 8,
                    forall|rx: int, ry: int|
                        0 <= rx < 8 && 0 <= ry < y ==> result[ry][rx] == self.cell(rx, ry),
                    forall|rx: int| 0 <= rx < x ==> result[y as int][rx] == self.cell(rx, y as int),
                decreases 8 - x,
            {
                result[y as usize][x as usize] = self.cell_at(x, y);
                x = x + 1;
            }
            y = y + 1;
        }
        result
    }

    /// The two bitboards, black then white.
    pub fn masks(&self) -> (r: (BitBoard, BitBoard))
        ensures
            r.0 == self.black_mask(),
            r.1 == self.white_mask(),
    {
        (self.black, self.white)
    }

    /// Black and white piece counts, in that order.
    pub fn count_pieces(&self) -> (r: (u32, u32))
        ensures
            r.0 == count_bits(self.black_mask(), 64),
            r.1 == count_bits(self.white_mask(), 64),
            r.0 <= 64,
            r.1 <= 64,
    {
        (popcount(self.black), popcount(self.white))
    }

    /// Place a piece of `turn` on `coordinate` and flip every run it
    /// captures. Succeeds exactly on legal moves; on failure the board is
    /// unchanged. The occupied-cell rejection is explicit here, though it
    /// also follows from no flip ever originating from an occupied cell.
    pub fn move_piece(&mut self, coordinate: Coordinate, turn: Color) -> (r: Result<
        (),
        InvalidMove,
    >)
        requires
            old(self).wf(),
            coordinate.x < 8,
            coordinate.y < 8,
        ensures
            final(self).wf(),
            r is Ok <==> old(self).spec_valid_move(
                turn,
                coordinate.x as int,
                coordinate.y as int,
            ),
            r is Err ==> *final(self) == *old(self),
            r is Ok ==> final(self).own_mask(turn) == (old(self).own_mask(turn) | old(
                self,
            ).spec_move_flips(turn, coordinate.x as int, coordinate.y as int)) | (1u64 << (cell_ix(
                coordinate.x as int,
                coordinate.y as int,
            ) as u64)) && final(self).opp_mask(turn) == old(self).opp_mask(turn) & !old(
                self,
            ).spec_move_flips(turn, coordinate.x as int, coordinate.y as int),
            r is Ok ==> *final(self) == old(self).spec_after_move(
                turn,
                coordinate.x as int,
                coordinate.y as int,
            ),
    {
        let ghost gx = coordinate.x as int;
        let ghost gy = coordinate.y as int;
        let x = coordinate.x as u64;
        let y = coordinate.y as u64;
        let bit = coordinate.to_bit();
        let (own, opp) = match turn {
            Color::Black => (self.black, self.white),
            Color::White => (self.white, self.black),
        };
        proof {
            lemma_bit_facts();
            assert(bit_at(own | opp, (gy * 8 + gx) as u64) == (bit_at(own, (gy * 8 + gx) as u64)
                || bit_at(opp, (gy * 8 + gx) as u64)));
            assert forall|i: u64| i < 64 implies !(#[trigger] bit_at(own, i) && bit_at(
                opp,
                i,
            )) by {
                assert(!(bit_at(old(self).black_mask(), i) && bit_at(old(self).white_mask(), i)));
            }
        }
        if (own | opp) & bit != 0 {
            return Err(InvalidMove);
        }
        let mut flips: u64 = 0;
        let mut flipped = false;
        let mut d: u64 = 0;
        while d < 8
            invariant
                d <= 8,
                x < 8,
                y < 8,
                forall|i: u64| i < 64 ==> !(#[trigger] bit_at(own, i) && bit_at(opp, i)),
                flips == flips_upto(own, opp, x as int, y as int, d as int),
                flipped == any_flip_upto(own, opp, x as int, y as int, d as int),
            decreases 8 - d,
        {
            let (dx, dy) = dir_delta(d);
            let m = scan_dir_flips(own, opp, x, y, dx, dy);
            proof {
                assert(flips_upto(own, opp, x as int, y as int, d as int + 1) == flips_upto(
                    own,
                    opp,
                    x as int,
                    y as int,
                    d as int,
                ) | dir_flip_mask(own, opp, x as int, y as int, d as int));
            }
            if m != 0 {
                flipped = true;
            }
            flips = flips | m;
            d = d + 1;
        }
        if flipped {
            let own2 = (own | flips) | bit;
            let opp2 = opp & !flips;
            proof {
                lemma_bit_facts();
                lemma_flips_upto_subset(own, opp, gx, gy, 8);
                assert forall|i: u64| i < 64 implies !(#[trigger] bit_at(own2, i) && bit_at(
                    opp2,
                    i,
                )) by {
                    assert(bit_at(own2, i) == (bit_at(own, i) || bit_at(flips, i) || bit_at(
                        1u64 << ((gy * 8 + gx) as u64),
                        i,
                    )));
                    assert(bit_at(opp2, i) == (bit_at(opp, i) && !bit_at(flips, i)));
                    assert(bit_at(1u64 << ((gy * 8 + gx) as u64), i) ==> i == (gy * 8 + gx));
                    assert(!bit_at(opp, (gy * 8 + gx) as u64));
                }
            }
            match turn {
                Color::Black => {
                    self.black = own2;
                    self.white = opp2;
                }
                Color::White => {
                    self.white = own2;
                    self.black = opp2;
                }
            }
            Ok(())
        } else {
            Err(InvalidMove)
        }
    }

    /// Every legal move of `turn`, in row-major order of cells; a cell
    /// that flips in several directions appears once.
    pub fn valid_moves(&self, turn: Color) -> (moves: Vec<Coordinate>)
        requires
            self.wf(),
        ensures
            forall|i: int|
                0 <= i < moves@.len() ==> (#[trigger] moves@[i]).x < 8 && moves@[i].y < 8
                    && self.spec_valid_move(turn, moves@[i].x as int, moves@[i].y as int),
            forall|x: int, y: int|
                self.spec_valid_move(turn, x, y) ==> exists|i: int|
                    0 <= i < moves@.len() && (#[trigger] moves@[i]).x == x && moves@[i].y == y,
            forall|i: int, j: int|
                0 <= i < j < moves@.len() ==> (#[trigger] moves@[i]).y * 8 + moves@[i].x < (
                #[trigger] moves@[j]).y * 8 + moves@[j].x,
            moves@.len() > 0 <==> self.has_any_move(turn),
            moves@.len() == legal_cells(*self, turn).len(),
            forall|i: int|
                0 <= i < moves@.len() ==> (#[trigger] moves@[i]).y * 8 + moves@[i].x
                    == legal_cells(*self, turn)[i],
    {
        let (own, opp) = match turn {
            Color::Black => (self.black, self.white),
            Color::White => (self.white, self.black),
        };
        proof {
            lemma_bit_facts();
            assert forall|i: u64| i < 64 implies !(#[trigger] bit_at(own, i) && bit_at(
                opp,
                i,
            )) by {
                assert(!(bit_at(self.black_mask(), i) && bit_at(self.white_mask(), i)));
            }
        }
        let mut moves: Vec<Coordinate> = Vec::new();
        let mut y: u64 = 0;
        while y < 8
            invariant
                y <= 8,
                self.wf(),
                own == self.own_mask(turn),
                opp == self.opp_mask(turn),
                forall|i: u64| i < 64 ==> !(#[trigger] bit_at(own, i) && bit_at(opp, i)),
                forall|i: int|
                    0 <= i < moves@.len() ==> (#[trigger] moves@[i]).x < 8 && moves@[i].y < 8
                        && moves@[i].y * 8 + moves@[i].x < y * 8 && self.spec_valid_move(
                        turn,
                        moves@[i].x as int,
                        moves@[i].y as int,
                    ),
                forall|px: int, py: int|
                    in_bounds(px, py) && py < y && self.spec_valid_move(turn, px, py)
                        ==> exists|i: int|
                        0 <= i < moves@.len() && (#[trigger] moves@[i]).x == px && moves@[i].y
                            == py,
                forall|i: int, j: int|
                    0 <= i < j < moves@.len() ==> (#[trigger] moves@[i]).y * 8 + moves@[i].x < (
                    #[trigger] moves@[j]).y * 8 + moves@[j].x,
                moves@.len() == legal_cells_upto(*self, turn, y * 8).len(),
                forall|i: int|
                    0 <= i < moves@.len() ==> (#[trigger] moves@[i]).y * 8 + moves@[i].x
                        == legal_cells_upto(*self, turn, y * 8)[i],
            decreases 8 - y,
        {
            let mut x: u64 = 0;
            while x < 8
                invariant
                    x <= 8,
                    y < 8,
                    self.wf(),
                    own == self.own_mask(turn),
                    opp == self.opp_mask(turn),
                    forall|i: u64| i < 64 ==> !(#[trigger] bit_at(own, i) && bit_at(opp, i)),
                    forall|i: int|
                        0 <= i < moves@.len() ==> (#[trigger] moves@[i]).x < 8 && moves@[i].y < 8
                            && moves@[i].y * 8 + moves@[i].x < y * 8 + x
                            && self.spec_valid_move(
                            turn,
                            moves@[i].x as int,
                            moves@[i].y as int,
                        ),
                    forall|px: int, py: int|
                        in_bounds(px, py) && py * 8 + px < y * 8 + x && self.spec_valid_move(
                            turn,
                            px,
                            py,
                        ) ==> exists|i: int|
                            0 <= i < moves@.len() && (#[trigger] moves@[i]).x == px && moves@[i].y
                                == py,
                    forall|i: int, j: int|
                        0 <= i < j < moves@.len() ==> (#[trigger] moves@[i]).y * 8 + moves@[i].x < (
                        #[trigger] moves@[j]).y * 8 + moves@[j].x,
                    moves@.len() == legal_cells_upto(*self, turn, y * 8 + x).len(),
                    forall|i: int|
                        0 <= i < moves@.len() ==> (#[trigger] moves@[i]).y * 8 + moves@[i].x
                            == legal_cells_upto(*self, turn, y * 8 + x)[i],
                decreases 8 - x,
            {
                let bit = 1u64 << (y * 8 + x);
                proof {
                    lemma_bit_facts();
                    assert(bit_at(own | opp, (y * 8 + x) as u64) == (bit_at(own, (y * 8 + x) as u64)
                        || bit_at(opp, (y * 8 + x) as u64)));
                }
                if (own | opp) & bit == 0 {
                    let mut dfound = false;
                    let mut d: u64 = 0;
                    while d < 8
                        invariant
                            d <= 8,
                            x < 8,
                            y < 8,
                            forall|i: u64| i < 64 ==> !(#[trigger] bit_at(own, i) && bit_at(opp, i)),
                            dfound == any_flip_upto(own, opp, x as int, y as int, d as int),
                        decreases 8 - d,
                    {
                        let (dx, dy) = dir_delta(d);
                        let m = scan_dir_flips(own, opp, x, y, dx, dy);
                        if m != 0 {
                            dfound = true;
                        }
                        d = d + 1;
                    }
                    if dfound {
                        let ghost pre = moves@;
                        moves.push(Coordinate { x: x as u32, y: y as u32 });
                        proof {
                            assert(self.spec_valid_move(turn, x as int, y as int));
                            assert((y * 8 + x) as int % 8 == x && (y * 8 + x) as int / 8 == y);
                            assert(legal_cells_upto(*self, turn, y * 8 + x + 1)
                                == legal_cells_upto(*self, turn, y * 8 + x).push((y * 8 + x) as u8));
                            assert forall|px: int, py: int|
                                in_bounds(px, py) && py * 8 + px < y * 8 + x + 1
                                    && self.spec_valid_move(turn, px, py) implies exists|i: int|
                                0 <= i < moves@.len() && (#[trigger] moves@[i]).x == px
                                    && moves@[i].y == py by {
                                if py * 8 + px == y * 8 + x {
                                    assert(px == x && py == y);
                                    assert(moves@[pre.len() as int].x == px && moves@[pre.len() as int].y
                                        == py);
                                } else {
                                    let i0 = choose|i0: int|
                                        0 <= i0 < pre.len() && (#[trigger] pre[i0]).x == px
                                            && pre[i0].y == py;
                                    assert(moves@[i0].x == px && moves@[i0].y == py);
                                }
                            }
                        }
                    } else {
                        proof {
                            assert(!self.spec_valid_move(turn, x as int, y as int));
                            assert((y * 8 + x) as int % 8 == x && (y * 8 + x) as int / 8 == y);
                            assert(legal_cells_upto(*self, turn, y * 8 + x + 1)
                                == legal_cells_upto(*self, turn, y * 8 + x));
                            assert forall|px: int, py: int|
                                in_bounds(px, py) && py * 8 + px < y * 8 + x + 1
                                    && self.spec_valid_move(turn, px, py) implies exists|i: int|
                                0 <= i < moves@.len() && (#[trigger] moves@[i]).x == px
                                    && moves@[i].y == py by {
                                if py * 8 + px == y * 8 + x {
                                    assert(px == x && py == y);
                                }
                            }
                        }
                    }
                } else {
                    proof {
                        assert(self.occupied(x as int, y as int));
                        assert(!self.spec_valid_move(turn, x as int, y as int));
                        assert((y * 8 + x) as int % 8 == x && (y * 8 + x) as int / 8 == y);
                        assert(legal_cells_upto(*self, turn, y * 8 + x + 1)
                            == legal_cells_upto(*self, turn, y * 8 + x));
                        assert forall|px: int, py: int|
                            in_bounds(px, py) && py * 8 + px < y * 8 + x + 1
                                && self.spec_valid_move(turn, px, py) implies exists|i: int|
                            0 <= i < moves@.len() && (#[trigger] moves@[i]).x == px && moves@[i].y
                                == py by {
                            if py * 8 + px == y * 8 + x {
                                assert(px == x && py == y);
                            }
                        }
                    }
                }
                x = x + 1;
            }
            y = y + 1;
        }
        proof {
            if self.has_any_move(turn) {
                let (vx, vy) = choose|vx: int, vy: int| self.spec_valid_move(turn, vx, vy);
                assert(in_bounds(vx, vy));
                assert(exists|i: int|
                    0 <= i < moves@.len() && (#[trigger] moves@[i]).x == vx && moves@[i].y == vy);
            }
            if moves@.len() > 0 {
                assert(self.spec_valid_move(turn, moves@[0].x as int, moves@[0].y as int));
            }
        }
        moves
    }
}

/// The step of direction number `d`, matching `dir_dx` and `dir_dy`.
fn dir_delta(d: u64) -> (r: (i64, i64))
    requires
        d < 8,
    ensures
        r.0 == dir_dx(d as int),
        r.1 == dir_dy(d as int),
        is_dir(r.0 as int, r.1 as int),
{
    if d == 0 {
        (-1, -1)
    } else if d == 1 {
        (-1, 0)
    } else if d == 2 {
        (-1, 1)
    } else if d == 3 {
        (0, -1)
    } else if d == 4 {
        (0, 1)
    } else if d == 5 {
        (1, -1)
    } else if d == 6 {
        (1, 0)
    } else {
        (1, 1)
    }
}

/// Walk one direction from `(x, y)` and return its flip mask, exactly
/// `ray_mask` of the specification.
fn scan_dir_flips(own: u64, opp: u64, x: u64, y: u64, dx: i64, dy: i64) -> (m: u64)
    requires
        x < 8,
        y < 8,
        is_dir(dx as int, dy as int),
        forall|i: u64| i < 64 ==> !(#[trigger] bit_at(own, i) && bit_at(opp, i)),
    ensures
        m == ray_mask(own, opp, x as int, y as int, dx as int, dy as int),
{
    proof {
        lemma_bit_facts();
        lemma_or_algebra();
    }
    let mut cx: i64 = x as i64;
    let mut cy: i64 = y as i64;
    let mut acc: u64 = 0;
    loop
        invariant
            is_dir(dx as int, dy as int),
            0 <= cx < 8,
            0 <= cy < 8,
            forall|i: u64| i < 64 ==> !(#[trigger] bit_at(own, i) && bit_at(opp, i)),
            ray_flips(own, opp, x as int, y as int, dx as int, dy as int) == match ray_flips(
                own,
                opp,
                cx as int,
                cy as int,
                dx as int,
                dy as int,
            ) {
                Some(mm) => Some(mm | acc),
                None => None::<u64>,
            },
        decreases ray_steps(cx as int, cy as int, dx as int, dy as int),
    {
        proof {
            lemma_bit_facts();
            lemma_or_algebra();
        }
        let nx = cx + dx;
        let ny = cy + dy;
        if nx < 0 || nx >= 8 || ny < 0 || ny >= 8 {
            return 0;
        }
        let idx: u64 = (ny * 8 + nx) as u64;
        proof {
            assert(idx == cell_ix(nx as int, ny as int));
        }
        let nbit: u64 = 1u64 << idx;
        if opp & nbit != 0 {
            proof {
                assert(bit_at(opp, idx));
                assert(!bit_at(own, idx));
                let deeper = ray_flips(own, opp, nx as int, ny as int, dx as int, dy as int);
                if deeper is Some {
                    let mm = deeper.unwrap();
                    assert((mm | nbit) | acc == mm | (nbit | acc));
                }
            }
            acc = acc | nbit;
            cx = nx;
            cy = ny;
        } else if own & nbit != 0 {
            proof {
                assert(bit_at(own, idx));
                assert(ray_flips(own, opp, cx as int, cy as int, dx as int, dy as int) == Some(
                    0u64,
                ));
                assert(0u64 | acc == acc);
            }
            return acc;
        } else {
            proof {
                assert(!bit_at(own, idx) && !bit_at(opp, idx));
            }
            return 0;
        }
    }
}

/// Every flipped bit in one direction lies on the opponent's bitboard.
pub proof fn lemma_ray_subset(own: u64, opp: u64, x: int, y: int, dx: int, dy: int)
    requires
        is_dir(dx, dy),
        in_bounds(x, y),
    ensures
        ray_flips(own, opp, x, y, dx, dy) is Some ==> forall|i: u64|
            i < 64 ==> (#[trigger] bit_at(ray_flips(own, opp, x, y, dx, dy).unwrap(), i)
                ==> bit_at(opp, i)),
    decreases ray_steps(x, y, dx, dy),
{
    lemma_bit_facts();
    let nx = x + dx;
    let ny = y + dy;
    if in_bounds(nx, ny) {
        lemma_ray_subset(own, opp, nx, ny, dx, dy);
        if !cell_bit(own, nx, ny) && cell_bit(opp, nx, ny) {
            let deeper = ray_flips(own, opp, nx, ny, dx, dy);
            if deeper is Some {
                let mm = deeper.unwrap();
                let here = mm | (1u64 << (cell_ix(nx, ny) as u64));
                assert forall|i: u64| i < 64 && #[trigger] bit_at(here, i) implies bit_at(
                    opp,
                    i,
                ) by {
                    assert(bit_at(here, i) == (bit_at(mm, i) || bit_at(
                        1u64 << (cell_ix(nx, ny) as u64),
                        i,
                    )));
                    assert(bit_at(1u64 << (cell_ix(nx, ny) as u64), i) ==> i == cell_ix(nx, ny));
                }
            }
        }
    }
}

/// A direction whose run is terminated either flips nothing or has a
/// witness bit in its mask.
pub proof fn lemma_ray_nonzero(own: u64, opp: u64, x: int, y: int, dx: int, dy: int)
    requires
        is_dir(dx, dy),
        in_bounds(x, y),
    ensures
        ray_flips(own, opp, x, y, dx, dy) is Some ==> (ray_flips(own, opp, x, y, dx, dy).unwrap()
            == 0 || exists|i: u64|
            i < 64 && #[trigger] bit_at(ray_flips(own, opp, x, y, dx, dy).unwrap(), i)),
    decreases ray_steps(x, y, dx, dy),
{
    lemma_bit_facts();
    let nx = x + dx;
    let ny = y + dy;
    if in_bounds(nx, ny) {
        lemma_ray_nonzero(own, opp, nx, ny, dx, dy);
        if !cell_bit(own, nx, ny) && cell_bit(opp, nx, ny) {
            let deeper = ray_flips(own, opp, nx, ny, dx, dy);
            if deeper is Some {
                let mm = deeper.unwrap();
                let k = cell_ix(nx, ny) as u64;
                assert(0 <= cell_ix(nx, ny) < 64);
                assert(bit_at(mm | (1u64 << k), k) == (bit_at(mm, k) || bit_at(1u64 << k, k)));
                assert(bit_at(mm | (1u64 << k), k));
            }
        }
    }
}

/// Every bit of the union of flip masks lies on the opponent's bitboard.
pub proof fn lemma_flips_upto_subset(own: u64, opp: u64, x: int, y: int, d: int)
    requires
        in_bounds(x, y),
        0 <= d <= 8,
    ensures
        forall|i: u64|
            i < 64 ==> (#[trigger] bit_at(flips_upto(own, opp, x, y, d), i) ==> bit_at(opp, i)),
    decreases d,
{
    lemma_bit_facts();
    if d > 0 {
        lemma_flips_upto_subset(own, opp, x, y, d - 1);
        assert(is_dir(dir_dx(d - 1), dir_dy(d - 1)));
        lemma_ray_subset(own, opp, x, y, dir_dx(d - 1), dir_dy(d - 1));
        let prev = flips_upto(own, opp, x, y, d - 1);
        let dm = dir_flip_mask(own, opp, x, y, d - 1);
        assert forall|i: u64| i < 64 && #[trigger] bit_at(prev | dm, i) implies bit_at(opp, i) by {
            assert(bit_at(prev | dm, i) == (bit_at(prev, i) || bit_at(dm, i)));
        }
    }
}

/// When some direction flips, the total flip mask has a set bit.
pub proof fn lemma_any_flip_bit(own: u64, opp: u64, x: int, y: int, d: int)
    requires
        in_bounds(x, y),
        0 <= d <= 8,
    ensures
        any_flip_upto(own, opp, x, y, d) ==> exists|i: u64|
            i < 64 && #[trigger] bit_at(flips_upto(own, opp, x, y, d), i),
    decreases d,
{
    lemma_bit_facts();
    if d > 0 && any_flip_upto(own, opp, x, y, d) {
        let prev = flips_upto(own, opp, x, y, d - 1);
        let dm = dir_flip_mask(own, opp, x, y, d - 1);
        if any_flip_upto(own, opp, x, y, d - 1) {
            lemma_any_flip_bit(own, opp, x, y, d - 1);
            let i = choose|i: u64| i < 64 && #[trigger] bit_at(prev, i);
            assert(bit_at(prev | dm, i) == (bit_at(prev, i) || bit_at(dm, i)));
            assert(bit_at(flips_upto(own, opp, x, y, d), i));
        } else {
            assert(dm != 0);
            assert(is_dir(dir_dx(d - 1), dir_dy(d - 1)));
            lemma_ray_nonzero(own, opp, x, y, dir_dx(d - 1), dir_dy(d - 1));
            assert(ray_flips(own, opp, x, y, dir_dx(d - 1), dir_dy(d - 1)) is Some);
            let i = choose|i: u64| i < 64 && #[trigger] bit_at(dm, i);
            assert(bit_at(prev | dm, i) == (bit_at(prev, i) || bit_at(dm, i)));
            assert(bit_at(flips_upto(own, opp, x, y, d), i));
        }
    }
}

/// A legal move grows the mover's count by one plus the number of
/// flipped pieces, shrinks the opponent's count by exactly that number,
/// and so grows the total by exactly one; at least one piece flips.
pub proof fn lemma_move_piece_counts(b: Board, turn: Color, x: int, y: int)
    requires
        b.wf(),
        b.spec_valid_move(turn, x, y),
    ensures
        ({
            let f = count_bits(b.spec_move_flips(turn, x, y), 64);
            let own2 = (b.own_mask(turn) | b.spec_move_flips(turn, x, y)) | (1u64 << (cell_ix(
                x,
                y,
            ) as u64));
            let opp2 = b.opp_mask(turn) & !b.spec_move_flips(turn, x, y);
            &&& f >= 1
            &&& count_bits(own2, 64) == count_bits(b.own_mask(turn), 64) + 1 + f
            &&& count_bits(opp2, 64) == count_bits(b.opp_mask(turn), 64) - f
            &&& count_bits(own2, 64) + count_bits(opp2, 64) == count_bits(b.own_mask(turn), 64)
                + count_bits(b.opp_mask(turn), 64) + 1
        }),
{
    lemma_bit_facts();
    let own = b.own_mask(turn);
    let opp = b.opp_mask(turn);
    let fm = b.spec_move_flips(turn, x, y);
    let k = cell_ix(x, y) as u64;
    lemma_flips_upto_subset(own, opp, x, y, 8);
    lemma_any_flip_bit(own, opp, x, y, 8);
    // own, flips and the placed bit are pairwise disjoint
    assert forall|i: u64| i < 64 implies !(#[trigger] bit_at(own, i) && bit_at(fm, i)) by {}
    lemma_count_disjoint(own, fm, 64);
    assert forall|i: u64|
        i < 64 implies !(#[trigger] bit_at(own | fm, i) && bit_at(1u64 << k, i)) by {
        assert(bit_at(own | fm, i) == (bit_at(own, i) || bit_at(fm, i)));
        assert(bit_at(1u64 << k, i) ==> i == k);
    }
    lemma_count_disjoint(own | fm, 1u64 << k, 64);
    lemma_count_single(k, 64);
    lemma_count_remove(opp, fm, 64);
    let i0 = choose|i: u64| i < 64 && #[trigger] bit_at(fm, i);
    lemma_count_positive(fm, i0, 64);
}

/// For every well-formed board the two counts sum to at most 64, and the
/// sum reaches 64 only when no empty cell remains.
pub proof fn lemma_count_total_bound(b: Board)
    requires
        b.wf(),
    ensures
        count_bits(b.black_mask(), 64) + count_bits(b.white_mask(), 64) <= 64,
        count_bits(b.black_mask(), 64) + count_bits(b.white_mask(), 64) == 64 ==> forall|
            x: int,
            y: int,
        |
            in_bounds(x, y) ==> b.occupied(x, y),
{
    lemma_bit_facts();
    lemma_count_disjoint(b.black_mask(), b.white_mask(), 64);
    lemma_count_bounds(b.black_mask() | b.white_mask(), 64);
    if count_bits(b.black_mask(), 64) + count_bits(b.white_mask(), 64) == 64 {
        lemma_count_full(b.black_mask() | b.white_mask(), 64);
        assert forall|x: int, y: int| in_bounds(x, y) implies b.occupied(x, y) by {
            let i = cell_ix(x, y) as u64;
            assert(i < 64);
            assert(bit_at(b.black_mask() | b.white_mask(), i));
            assert(bit_at(b.black_mask() | b.white_mask(), i) == (bit_at(b.black_mask(), i)
                || bit_at(b.white_mask(), i)));
        }
    }
}

} // verus!
