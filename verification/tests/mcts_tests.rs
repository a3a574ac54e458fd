use reversi_core::board::Board;
use reversi_core::monte_carlo::runner::{get_best_move, run_search};
use reversi_core::monte_carlo::types::{
    coord_to_light, light_to_coord, ucb1_value, SearchTree, EXPANSION_THRESHOLD,
};
use reversi_core::rng::RngSource;
use reversi_core::types::{Color, Coordinate};

#[test]
fn light_coordinate_round_trip() {
    for l in 0..64u8 {
        let c = light_to_coord(l);
        assert_eq!(coord_to_light(c), l);
    }
    let c = light_to_coord(28);
    assert_eq!((c.x, c.y), (4, 3));
    assert_eq!(coord_to_light(Coordinate { x: 4, y: 3 }), 28);
}

#[test]
fn root_visits_equal_iterations_plus_preset() {
    let mut rng = RngSource::from_seed(1);
    let mut tree = SearchTree::new(Board::new(), Color::Black, &mut rng);
    assert_eq!(tree.root_visits(), EXPANSION_THRESHOLD + 1);
    run_search(&mut tree, 50, &mut rng);
    assert_eq!(tree.root_visits(), EXPANSION_THRESHOLD + 1 + 50);
    run_search(&mut tree, 13, &mut rng);
    assert_eq!(tree.root_visits(), EXPANSION_THRESHOLD + 1 + 63);
    // every cycle credited exactly one immediate root child
    let sum: u32 = tree.root_child_stats().iter().map(|(_, v)| v).sum();
    assert_eq!(sum, 63);
}

#[test]
fn ucb1_of_unvisited_node_is_infinite() {
    // an unvisited node scores "infinity" (None) and is preferred over
    // any visited sibling, however good that sibling's record is
    assert!(ucb1_value(0, 0, 0, 100).is_none());
    let sibling = ucb1_value(99, 1, 100, 100).unwrap();
    assert!(sibling < u64::MAX); // a finite score
}

#[test]
fn ucb1_exact_fixed_point_value() {
    // wins=1, draws=0, visits=2, total=4:
    // exploitation = 2*65536/4 = 32768
    // ln_fp(4) = 2*45426 = 90852; exploration^2 = 2*90852*65536/2
    // isqrt(5954076672) = 77162
    assert_eq!(ucb1_value(1, 0, 2, 4), Some(32768 + 77162));
    // a visited, never-winning node keeps only the exploration part
    assert_eq!(ucb1_value(0, 0, 2, 4), Some(77162));
}

#[test]
fn search_returns_a_legal_move() {
    let b = Board::new();
    let mut rng = RngSource::from_seed(3);
    let mv = get_best_move(&b, Color::Black, 100, &mut rng);
    let legal = b.valid_moves(Color::Black);
    assert!(legal.iter().any(|c| c.x == mv.x && c.y == mv.y));
}

#[test]
fn search_finds_the_single_winning_move() {
    // near-terminal position: white on (0,0), black on (1,0); white's
    // only legal move is (2,0), which flips the lone black piece and
    // ends the game 3-0 for white
    let b = Board::from_masks(1u64 << 1, 1u64 << 0).unwrap();
    let legal = b.valid_moves(Color::White);
    assert_eq!(legal.len(), 1);
    assert_eq!((legal[0].x, legal[0].y), (2, 0));
    let mut rng = RngSource::from_seed(99);
    let mv = get_best_move(&b, Color::White, 1000, &mut rng);
    assert_eq!((mv.x, mv.y), (2, 0));
    let mut after = b;
    after.move_piece(mv, Color::White).unwrap();
    let (black, white) = after.count_pieces();
    assert_eq!((black, white), (0, 3));
    assert!(after.valid_moves(Color::Black).is_empty());
    assert!(after.valid_moves(Color::White).is_empty());
}

#[test]
fn same_seed_reproduces_move_and_visit_distribution() {
    let b = Board::new();

    let mut rng1 = RngSource::from_seed(42);
    let mut tree1 = SearchTree::new(b, Color::Black, &mut rng1);
    run_search(&mut tree1, 200, &mut rng1);
    let mv1 = tree1.best_move();

    let mut rng2 = RngSource::from_seed(42);
    let mut tree2 = SearchTree::new(b, Color::Black, &mut rng2);
    run_search(&mut tree2, 200, &mut rng2);
    let mv2 = tree2.best_move();

    assert_eq!((mv1.x, mv1.y), (mv2.x, mv2.y));
    assert_eq!(tree1.root_child_stats(), tree2.root_child_stats());
    assert_eq!(tree1.node_count(), tree2.node_count());

    // and a different seed is at least well-formed (the move is legal)
    let mut rng3 = RngSource::from_seed(43);
    let mv3 = get_best_move(&b, Color::Black, 200, &mut rng3);
    assert!(b
        .valid_moves(Color::Black)
        .iter()
        .any(|c| c.x == mv3.x && c.y == mv3.y));
}

#[test]
fn expansion_threshold_delays_descent() {
    // a fresh root starts one past the threshold, so the very first
    // cycles expand the root's children one by one; after 4 iterations
    // on the opening position the root has at most 4 children
    let b = Board::new();
    let mut rng = RngSource::from_seed(5);
    let mut tree = SearchTree::new(b, Color::Black, &mut rng);
    run_search(&mut tree, 4, &mut rng);
    let stats = tree.root_child_stats();
    assert_eq!(stats.len(), 4);
    // each expanded child was simulated once
    for (_, visits) in stats {
        assert_eq!(visits, 1);
    }
}
