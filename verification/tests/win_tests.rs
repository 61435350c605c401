use havannah::board::{BoardState, HexOwner, Player};
use havannah::win_detector::WinDetector;

/// Radius-2 example: seven cells, one centre and six corners. Player 1
/// owning two adjacent corners joined through the centre wins by
/// bridge.
#[test]
fn radius_2_two_corners_through_center_is_a_win() {
    let mut board = BoardState::new(2);
    assert_eq!(board.legal_moves().len(), 7);
    board.apply_move((0, 0)).unwrap(); // P1 centre
    board.apply_move((-1, 1)).unwrap(); // P2
    board.apply_move((-1, 0)).unwrap(); // P1 corner
    assert!(!board.is_terminal());
    board.apply_move((1, -1)).unwrap(); // P2
    board.apply_move((0, -1)).unwrap(); // P1 second corner
    assert!(board.is_terminal());
    assert_eq!(board.get_winner(), Some(Player::P1));
}

/// A minimal chain joining two corners is a bridge win; the same chain
/// one stone short touches a single corner and is not.
#[test]
fn bridge_two_corners_win_one_corner_not() {
    let mut board = BoardState::new(3);
    board.apply_move((-2, 0)).unwrap(); // P1 corner
    board.apply_move((2, 0)).unwrap(); // P2
    board.apply_move((-1, -1)).unwrap(); // P1 link
    assert!(!board.is_terminal()); // one corner touched: no win
    board.apply_move((1, 1)).unwrap(); // P2
    board.apply_move((0, -2)).unwrap(); // P1 second corner
    assert!(board.is_terminal());
    assert_eq!(board.get_winner(), Some(Player::P1));
}

/// A connected group touching two distinct sides is not a fork win;
/// touching a third side makes it one.
#[test]
fn fork_needs_three_distinct_sides() {
    let mut board = BoardState::new(3);
    board.apply_move((0, 0)).unwrap(); // P1 centre
    board.apply_move((2, -1)).unwrap(); // P2
    board.apply_move((-1, 0)).unwrap(); // P1 arm
    board.apply_move((-1, -1)).unwrap(); // P2
    board.apply_move((-2, 1)).unwrap(); // P1 reaches side q = -2
    board.apply_move((1, 1)).unwrap(); // P2
    board.apply_move((0, -1)).unwrap(); // P1 arm
    board.apply_move((-2, 0)).unwrap(); // P2
    board.apply_move((1, -2)).unwrap(); // P1 reaches side r = -2
    // Two distinct sides touched, no corner: not a win.
    assert!(!board.is_terminal());
    board.apply_move((0, 2)).unwrap(); // P2
    board.apply_move((0, 1)).unwrap(); // P1 arm towards the third side
    assert!(!board.is_terminal());
    board.apply_move((2, -2)).unwrap(); // P2
    board.apply_move((-1, 2)).unwrap(); // P1 reaches side r = 2
    assert!(board.is_terminal());
    assert_eq!(board.get_winner(), Some(Player::P1));
}

/// A ring of six stones around one empty cell wins even though the
/// ring touches no corner and no side.
#[test]
fn ring_around_empty_cell_is_a_win() {
    let mut board = BoardState::new(3);
    board.apply_move((1, 0)).unwrap(); // P1
    board.apply_move((2, 0)).unwrap(); // P2 corner
    board.apply_move((0, 1)).unwrap(); // P1
    board.apply_move((2, -2)).unwrap(); // P2 corner
    board.apply_move((-1, 1)).unwrap(); // P1
    board.apply_move((0, -2)).unwrap(); // P2 corner
    board.apply_move((-1, 0)).unwrap(); // P1
    board.apply_move((0, 2)).unwrap(); // P2 corner
    board.apply_move((0, -1)).unwrap(); // P1
    assert!(!board.is_terminal()); // ring still open at (1, -1)
    board.apply_move((-2, 2)).unwrap(); // P2 corner
    board.apply_move((1, -1)).unwrap(); // P1 closes the ring
    assert!(board.is_terminal());
    assert_eq!(board.get_winner(), Some(Player::P1));

    let detector = WinDetector::from_board(&board);
    assert!(detector.check_ring(&Player::P1));
    assert!(!detector.check_ring(&Player::P2));
    assert!(detector.run(&Player::P1));
    assert!(!detector.run(&Player::P2));
}

/// Player 2's wins are detected too, and reported as Player 2's.
#[test]
fn player_2_can_win_by_bridge() {
    let mut board = BoardState::new(3);
    board.apply_move((0, 0)).unwrap(); // P1 interior
    board.apply_move((2, 0)).unwrap(); // P2 corner
    board.apply_move((-1, 0)).unwrap(); // P1 interior
    board.apply_move((1, 1)).unwrap(); // P2 link
    board.apply_move((0, -1)).unwrap(); // P1 interior
    assert!(!board.is_terminal());
    board.apply_move((0, 2)).unwrap(); // P2 second corner
    assert!(board.is_terminal());
    assert_eq!(board.get_winner(), Some(Player::P2));
}

/// The detector reports no win of any kind on a fresh board.
#[test]
fn fresh_board_has_no_win() {
    let board = BoardState::new(4);
    let detector = WinDetector::from_board(&board);
    assert!(!detector.run(&Player::P1));
    assert!(!detector.run(&Player::P2));
    assert!(!detector.check_ring(&Player::P1));
}

/// Side membership: boundary cells are sides, corners and interior
/// cells are not, and probing past the edge reads as empty.
#[test]
fn side_membership_and_edge_probing() {
    let mut board = BoardState::new(3);
    board.apply_move((2, -1)).unwrap();
    let detector = WinDetector::from_board(&board);
    assert!(detector.is_edge(-2, 1)); // boundary, not a corner
    assert!(detector.is_edge(2, -1));
    assert!(!detector.is_edge(-2, 0)); // corner
    assert!(!detector.is_edge(0, 0)); // interior
    assert!(detector.get_hex_owner(2, -1) == HexOwner::P1);
    assert!(detector.get_hex_owner(0, 0) == HexOwner::Empty);
    assert!(detector.get_hex_owner(7, 7) == HexOwner::Empty); // off the lattice
}
