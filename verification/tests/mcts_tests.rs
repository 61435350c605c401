use havannah::board::{BoardState, HexOwner, Player};
use havannah::mcts::{is_terminal, Node, MCTS};
use havannah::rng::SplitMix64;

/// The injected random source is a pure function of its seed.
#[test]
fn rng_is_deterministic_and_bounded() {
    let mut a = SplitMix64::new(7);
    let mut b = SplitMix64::new(7);
    for _ in 0..100 {
        assert_eq!(a.next_u64(), b.next_u64());
    }
    let mut c = SplitMix64::new(12345);
    for _ in 0..100 {
        let v = c.below(13);
        assert!(v < 13);
    }
}

/// After a search of budget B on a non-terminal root, the root's visit
/// count equals B exactly, and the visit counts of the root's direct
/// children also sum to B (each pass crosses exactly one of them).
#[test]
fn root_visit_count_equals_budget() {
    let mut ai = MCTS::with_config(50, 99);
    let board = BoardState::new(2);
    let _mv = ai.run(board);
    assert_eq!(ai.nodes[0].visits, 50);
    assert!(!ai.nodes[0].children.is_empty());
    let child_sum: u64 = ai.nodes[0].children.iter().map(|&c| ai.nodes[c].visits).sum();
    assert_eq!(child_sum, 50);
    assert!(ai.nodes.len() <= 51);
}

/// The chosen move is always a legal (empty, on-lattice) cell of the
/// position that was searched.
#[test]
fn chosen_move_is_legal() {
    let mut board = BoardState::new(3);
    board.apply_move((0, 0)).unwrap();
    let mut ai = MCTS::with_config(80, 5);
    let mv = ai.run(board.duplicate());
    assert!(board.get_owner(mv.0, mv.1) == HexOwner::Empty);
    assert!(board.apply_move(mv).is_ok());
}

/// With the same seed and the same position, two searches return the
/// same move.
#[test]
fn search_is_deterministic_for_a_fixed_seed() {
    let board = BoardState::new(2);
    let mut ai1 = MCTS::with_seed(42);
    let mut ai2 = MCTS::with_seed(42);
    let m1 = ai1.run(board.duplicate());
    let m2 = ai2.run(board.duplicate());
    assert_eq!(m1, m2);

    let mut board3 = BoardState::new(3);
    board3.apply_move((1, -1)).unwrap();
    let mut ai3 = MCTS::with_config(120, 2024);
    let mut ai4 = MCTS::with_config(120, 2024);
    assert_eq!(ai3.run(board3.duplicate()), ai4.run(board3.duplicate()));
}

/// Two engines seeded alike explore identical trees: same arena sizes
/// and same per-node visit counts.
#[test]
fn search_trees_match_for_a_fixed_seed() {
    let board = BoardState::new(2);
    let mut ai1 = MCTS::with_config(40, 77);
    let mut ai2 = MCTS::with_config(40, 77);
    ai1.run(board.duplicate());
    ai2.run(board.duplicate());
    assert_eq!(ai1.nodes.len(), ai2.nodes.len());
    for (a, b) in ai1.nodes.iter().zip(ai2.nodes.iter()) {
        assert_eq!(a.visits, b.visits);
        assert_eq!(a.total_reward, b.total_reward);
        assert_eq!(a.last_move, b.last_move);
        // Each pass adds one visit and a reward of magnitude at most
        // one, so no node's reward can outgrow its visit count.
        assert!(a.total_reward.unsigned_abs() <= a.visits);
    }
}

/// A fresh node starts unvisited with no reward and records whose turn
/// it is.
#[test]
fn node_new_starts_unvisited() {
    let board = BoardState::new(2);
    let node = Node::new(board, None, None);
    assert_eq!(node.visits, 0);
    assert_eq!(node.total_reward, 0);
    assert!(!node.is_terminal);
    assert!(node.player_to_move == Player::P1);
    assert!(node.last_move.is_none());
    assert!(node.children.is_empty());
    // Every legal move of the position is still untried.
    assert_eq!(node.untried.len(), 7);
}

/// Expansion draws each untried move at most once: the root of a
/// finished search never has two children for the same move.
#[test]
fn no_duplicate_children_per_move() {
    let mut ai = MCTS::with_config(200, 31);
    ai.run(BoardState::new(2));
    for node in &ai.nodes {
        let mut moves: Vec<(i32, i32)> = node
            .children
            .iter()
            .map(|&c| ai.nodes[c].last_move.unwrap())
            .collect();
        moves.sort();
        let before = moves.len();
        moves.dedup();
        assert_eq!(moves.len(), before);
        // Untried moves and expanded children partition the legal moves.
        assert_eq!(node.untried.len() + node.children.len(), node.state.legal_moves().len());
    }
}

/// A full board with no winner is terminal for the search even though
/// the win detector reports nothing (the draw guard).
#[test]
fn full_board_is_terminal_for_search() {
    let board = BoardState::new(2);
    assert!(!is_terminal(&board));
    let mut won = BoardState::new(2);
    won.apply_move((0, 0)).unwrap();
    won.apply_move((-1, 1)).unwrap();
    won.apply_move((-1, 0)).unwrap();
    won.apply_move((1, -1)).unwrap();
    won.apply_move((0, -1)).unwrap();
    assert!(is_terminal(&won));
}

/// Two engines play a whole game to its end on a small board.
#[test]
fn engines_finish_a_game() {
    let mut board = BoardState::new(2);
    let mut seed: u64 = 11;
    let mut plies = 0;
    while !board.is_terminal() && !board.legal_moves().is_empty() {
        let mut ai = MCTS::with_config(30, seed);
        seed += 1;
        let mv = ai.run(board.duplicate());
        board.apply_move(mv).unwrap();
        plies += 1;
        assert!(plies <= 7);
    }
    assert!(board.is_terminal() || board.legal_moves().is_empty());
}
