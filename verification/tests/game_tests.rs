use reversi_core::ai_agent::{initialize_agent, renew_agent, Agent, AiAgent};
use reversi_core::board::Board;
use reversi_core::game_state::GameState;
use reversi_core::monte_carlo_agent::MonteCarloAgent;
use reversi_core::random_agent::RandomAgent;
use reversi_core::types::{AgentType, Color, Coordinate, GameError, GameStatus};

#[test]
fn new_game_state_is_the_opening() {
    let s = GameState::new();
    assert_eq!(s.turn_count, 0);
    assert_eq!(s.turn, Color::Black);
    assert_eq!(s.status, GameStatus::BeforeStart);
    assert!(s.ai_agent.is_none());
    let (black, white) = s.board.count_pieces();
    assert_eq!((black, white), (2, 2));
    assert_eq!(s, GameState::default());
}

#[test]
fn agent_type_reports_the_configured_agent() {
    let mut s = GameState::new();
    assert_eq!(s.agent_type(), None);
    s.ai_agent = Some(initialize_agent(AgentType::Random, Color::White));
    assert_eq!(s.agent_type(), Some(AgentType::Random));
    s.ai_agent = Some(initialize_agent(AgentType::MonteCarlo, Color::White));
    assert_eq!(s.agent_type(), Some(AgentType::MonteCarlo));
}

#[test]
fn make_agent_move_without_agent_fails() {
    let mut s = GameState::new();
    assert_eq!(s.make_agent_move(), Err(GameError::NoAgent));
    assert_eq!(s, GameState::new());
}

#[test]
fn make_move_rejects_an_illegal_placement() {
    let mut s = GameState::new();
    s.ai_agent = Some(initialize_agent(AgentType::Random, Color::White));
    s.status = GameStatus::InProgress;
    let before_count = s.board.count_pieces();
    assert!(s.make_move(Coordinate { x: 0, y: 0 }).is_err());
    assert_eq!(s.board.count_pieces(), before_count);
    assert_eq!(s.turn_count, 0);
}

#[test]
fn a_move_lets_the_agent_answer() {
    let mut s = GameState::new();
    s.ai_agent = Some(Agent::Random(RandomAgent::with_seed(Color::White, 7)));
    s.status = GameStatus::InProgress;
    assert!(s.make_move(Coordinate { x: 2, y: 3 }).is_ok());
    // black moved, then the white agent answered inside finish_turn
    assert_eq!(s.turn_count, 2);
    assert_eq!(s.turn, Color::Black);
    let (black, white) = s.board.count_pieces();
    assert_eq!(black + white, 6);
}

#[test]
fn random_agent_plays_a_full_game_to_a_settled_status() {
    let mut s = GameState::new();
    s.ai_agent = Some(Agent::Random(RandomAgent::with_seed(Color::White, 11)));
    s.status = GameStatus::InProgress;
    let mut guard = 0;
    while s.status == GameStatus::InProgress && guard < 200 {
        let vm = s.valid_moves();
        if vm.is_empty() {
            // the human side is stuck; close the turn so the game can
            // pass the move or settle
            s.finish_turn();
        } else {
            s.make_move(vm[0]).unwrap();
        }
        guard += 1;
    }
    match s.status {
        GameStatus::Winner(_) | GameStatus::Draw => {}
        other => panic!("game did not settle: {:?}", other),
    }
    let (black, white) = s.board.count_pieces();
    assert!(black + white <= 64);
}

#[test]
fn initialize_and_renew_agent_keep_kind_and_color() {
    let a = initialize_agent(AgentType::Random, Color::Black);
    assert_eq!(a.agent_type(), AgentType::Random);
    assert_eq!(a.color(), Color::Black);
    let b = initialize_agent(AgentType::MonteCarlo, Color::White);
    assert_eq!(b.agent_type(), AgentType::MonteCarlo);
    assert_eq!(b.color(), Color::White);

    let renewed = renew_agent(&Some(b)).unwrap();
    assert_eq!(renewed.agent_type(), AgentType::MonteCarlo);
    assert_eq!(renewed.color(), Color::White);
    assert!(renew_agent(&None).is_none());
}

#[test]
fn random_agent_answers_with_a_legal_move() {
    let s = GameState::new();
    let mut agent = RandomAgent::with_seed(Color::Black, 3);
    assert_eq!(agent.color(), Color::Black);
    assert_eq!(agent.agent_type(), AgentType::Random);
    for _ in 0..10 {
        let mv = agent.next_move(&s.board);
        assert!(s
            .board
            .valid_moves(Color::Black)
            .iter()
            .any(|c| c.x == mv.x && c.y == mv.y));
    }
}

#[test]
fn monte_carlo_agent_answers_with_a_legal_move() {
    let s = GameState::new();
    let mut agent = MonteCarloAgent::with_seed(Color::White, 21);
    assert_eq!(agent.color(), Color::White);
    assert_eq!(agent.agent_type(), AgentType::MonteCarlo);
    let mv = agent.next_move(&s.board);
    assert!(s
        .board
        .valid_moves(Color::White)
        .iter()
        .any(|c| c.x == mv.x && c.y == mv.y));
}

#[test]
fn finish_turn_settles_a_won_game() {
    // white on (0,0),(1,0),(2,0), no black: neither side can move
    let mut s = GameState::new();
    s.board = Board::from_masks(0, 0b111).unwrap();
    s.ai_agent = Some(initialize_agent(AgentType::Random, Color::White));
    s.status = GameStatus::InProgress;
    s.finish_turn();
    assert_eq!(s.status, GameStatus::Winner(Color::White));
    assert_eq!(s.turn_count, 1);
}

#[test]
fn finish_turn_settles_a_drawn_game() {
    // one black corner, one white corner: no moves, equal counts
    let mut s = GameState::new();
    s.board = Board::from_masks(1u64 << 0, 1u64 << 63).unwrap();
    s.ai_agent = Some(initialize_agent(AgentType::Random, Color::Black));
    s.status = GameStatus::InProgress;
    s.finish_turn();
    assert_eq!(s.status, GameStatus::Draw);
}

#[test]
fn agent_move_for_the_wrong_turn_is_invalid() {
    let mut s = GameState::new();
    s.ai_agent = Some(Agent::Random(RandomAgent::with_seed(Color::White, 5)));
    s.status = GameStatus::InProgress;
    // black is to move, and on the opening board no white-legal move is
    // black-legal, so the white agent's choice is always rejected
    assert_eq!(s.make_agent_move(), Err(GameError::InvalidMove));
    assert_eq!(s.turn_count, 0);
}

#[test]
fn make_move_without_agent_rejects_an_illegal_placement() {
    // an illegal placement needs no agent: it fails and changes nothing
    let mut s = GameState::new();
    assert!(s.make_move(Coordinate { x: 0, y: 0 }).is_err());
    assert_eq!(s, GameState::new());
}
