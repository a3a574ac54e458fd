use reversi_core::board::Board;
use reversi_core::types::{Color, Coordinate};

fn coord(x: u32, y: u32) -> Coordinate {
    Coordinate { x, y }
}

#[test]
fn initial_board_has_two_pieces_each() {
    let b = Board::new();
    let (black, white) = b.count_pieces();
    assert_eq!(black, 2);
    assert_eq!(white, 2);
}

#[test]
fn initial_board_cells_standard_opening() {
    let b = Board::new();
    assert_eq!(b.cell_at(3, 3), Some(Color::White));
    assert_eq!(b.cell_at(4, 4), Some(Color::White));
    assert_eq!(b.cell_at(3, 4), Some(Color::Black));
    assert_eq!(b.cell_at(4, 3), Some(Color::Black));
    let rows = b.as_array();
    assert_eq!(rows.len(), 8);
    let mut occupied = 0;
    for y in 0..8 {
        assert_eq!(rows[y].len(), 8);
        for x in 0..8 {
            if rows[y][x].is_some() {
                occupied += 1;
            }
            assert_eq!(rows[y][x], b.cell_at(x as u64, y as u64));
        }
    }
    assert_eq!(occupied, 4);
}

#[test]
fn initial_valid_moves_black() {
    let b = Board::new();
    let moves: Vec<(u32, u32)> = b
        .valid_moves(Color::Black)
        .into_iter()
        .map(|c| (c.x, c.y))
        .collect();
    assert_eq!(moves.len(), 4);
    for want in [(3, 2), (2, 3), (5, 4), (4, 5)] {
        assert!(moves.contains(&want), "missing {:?}", want);
    }
}

#[test]
fn initial_valid_moves_white() {
    let b = Board::new();
    let moves: Vec<(u32, u32)> = b
        .valid_moves(Color::White)
        .into_iter()
        .map(|c| (c.x, c.y))
        .collect();
    assert_eq!(moves.len(), 4);
    for want in [(2, 4), (4, 2), (5, 3), (3, 5)] {
        assert!(moves.contains(&want), "missing {:?}", want);
    }
}

#[test]
fn legal_move_flips_and_grows_counts() {
    let mut b = Board::new();
    let r = b.move_piece(coord(2, 3), Color::Black);
    assert!(r.is_ok());
    // the move at (2,3) flips the single white piece at (3,3)
    assert_eq!(b.cell_at(2, 3), Some(Color::Black));
    assert_eq!(b.cell_at(3, 3), Some(Color::Black));
    let (black, white) = b.count_pieces();
    assert_eq!(black, 4); // 2 + 1 placed + 1 flipped
    assert_eq!(white, 1); // 2 - 1 flipped
    assert_eq!(black + white, 5); // total grew by exactly one
}

#[test]
fn illegal_move_fails_and_leaves_board_unchanged() {
    let mut b = Board::new();
    let before = b;
    // (0,0) flips nothing for either color
    assert!(b.move_piece(coord(0, 0), Color::Black).is_err());
    assert_eq!(b, before);
    assert!(b.move_piece(coord(0, 0), Color::White).is_err());
    assert_eq!(b, before);
}

#[test]
fn occupied_cell_is_rejected() {
    let mut b = Board::new();
    let before = b;
    // (3,3) already holds a white piece; both colors are rejected
    assert!(b.move_piece(coord(3, 3), Color::Black).is_err());
    assert!(b.move_piece(coord(3, 3), Color::White).is_err());
    assert_eq!(b, before);
}

#[test]
fn every_listed_move_is_playable_and_none_other() {
    let b = Board::new();
    let moves = b.valid_moves(Color::Black);
    for y in 0..8u32 {
        for x in 0..8u32 {
            let listed = moves.iter().any(|c| c.x == x && c.y == y);
            let mut copy = b;
            let ok = copy.move_piece(coord(x, y), Color::Black).is_ok();
            assert_eq!(listed, ok, "cell ({}, {})", x, y);
        }
    }
}

#[test]
fn counts_stay_bounded_over_a_whole_game() {
    // play a deterministic pseudo-random full game: always the first
    // listed move; the total count never passes 64 and the two masks
    // never overlap (their sum equals the occupied-cell count)
    let mut b = Board::new();
    let mut turn = Color::Black;
    let mut passes = 0;
    while passes < 2 {
        let vm = b.valid_moves(turn);
        if vm.is_empty() {
            passes += 1;
        } else {
            passes = 0;
            b.move_piece(vm[0], turn).unwrap();
        }
        turn = turn.opponent();
        let (black, white) = b.count_pieces();
        assert!(black + white <= 64);
        let (bm, wm) = b.masks();
        assert_eq!(bm & wm, 0);
        assert_eq!((bm | wm).count_ones(), black + white);
    }
    let (black, white) = b.count_pieces();
    if black + white == 64 {
        // full board: no empty cell remains
        assert!(b.as_array().iter().all(|row| row.iter().all(|c| c.is_some())));
    }
}

#[test]
fn from_masks_rejects_overlap() {
    assert!(Board::from_masks(0b11, 0b10).is_none());
    let b = Board::from_masks(0b01, 0b10).unwrap();
    assert_eq!(b.cell_at(0, 0), Some(Color::Black));
    assert_eq!(b.cell_at(1, 0), Some(Color::White));
    assert_eq!(b.cell_at(2, 0), None);
}

#[test]
fn coordinate_from_pair_and_to_bit() {
    let c = Coordinate::from((4, 3));
    assert_eq!(c.x, 4);
    assert_eq!(c.y, 3);
    assert_eq!(c.to_bit(), 1u64 << 28);
}

#[test]
fn opponent_is_an_involution() {
    assert_eq!(Color::Black.opponent(), Color::White);
    assert_eq!(Color::White.opponent(), Color::Black);
    assert_eq!(Color::Black.opponent().opponent(), Color::Black);
}
