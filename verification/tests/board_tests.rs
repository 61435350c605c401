use havannah::board::{BoardState, HexOwner, MoveError, Player};

/// The radius-`R` lattice holds exactly `3R^2 - 3R + 1` cells, each
/// with all three axial coordinates in range.
#[test]
fn lattice_size_radius_2() {
    let board = BoardState::new(2);
    let moves = board.legal_moves();
    assert_eq!(moves.len(), 7);
}

#[test]
fn lattice_size_radius_3() {
    let board = BoardState::new(3);
    assert_eq!(board.legal_moves().len(), 19);
}

#[test]
fn lattice_size_radius_5() {
    let board = BoardState::new(5);
    assert_eq!(board.legal_moves().len(), 61);
}

#[test]
fn lattice_cells_satisfy_coordinate_bounds() {
    let board = BoardState::new(3);
    for (q, r) in board.legal_moves() {
        let s = -q - r;
        assert!(q.abs() <= 2);
        assert!(r.abs() <= 2);
        assert!(s.abs() <= 2);
        assert!(board.is_hex_in_bounds(q, r));
    }
}

#[test]
fn fresh_board_is_all_empty_player1_to_move() {
    let board = BoardState::new(3);
    assert!(board.turn == Player::P1);
    assert!(board.get_owner(0, 0) == HexOwner::Empty);
    assert!(board.get_owner(2, -2) == HexOwner::Empty);
    assert!(!board.is_terminal());
    assert!(board.get_winner().is_none());
}

#[test]
fn apply_move_success_marks_cell_and_flips_turn() {
    let mut board = BoardState::new(2);
    let res = board.apply_move((0, 0));
    assert_eq!(res, Ok((0, 0)));
    assert!(board.get_owner(0, 0) == HexOwner::P1);
    assert!(board.turn == Player::P2);
    assert_eq!(board.legal_moves().len(), 6);
    assert!(!board.legal_moves().contains(&(0, 0)));
}

#[test]
fn apply_move_out_of_bounds_is_rejected() {
    let mut board = BoardState::new(2);
    assert_eq!(board.apply_move((2, 0)), Err(MoveError::OutOfBounds));
    assert_eq!(board.apply_move((0, -5)), Err(MoveError::OutOfBounds));
    assert!(board.turn == Player::P1);
}

#[test]
fn apply_move_off_lattice_is_invalid_cell() {
    // (1, 1) passes the axial range check of radius 2 but its implicit
    // coordinate s = -2 lies outside the lattice.
    let mut board = BoardState::new(2);
    assert_eq!(board.apply_move((1, 1)), Err(MoveError::InvalidCell));
    assert!(board.turn == Player::P1);
}

/// A move onto an occupied cell fails with `CellOccupied` and leaves
/// the whole board state unchanged.
#[test]
fn apply_move_occupied_is_rejected_and_board_unchanged() {
    let mut board = BoardState::new(2);
    board.apply_move((0, 0)).unwrap();
    let turn_before = board.turn;
    let moves_before = board.legal_moves();
    let res = board.apply_move((0, 0));
    assert_eq!(res, Err(MoveError::CellOccupied));
    assert!(board.turn == turn_before);
    assert_eq!(board.legal_moves(), moves_before);
    assert!(board.get_owner(0, 0) == HexOwner::P1);
}

/// After N successful moves from Player 1's turn, it is Player 1's
/// turn again exactly when N is even.
#[test]
fn turn_alternates_with_move_parity() {
    let mut board = BoardState::new(3);
    let seq = [(0, 0), (1, 0), (0, 1), (-1, 0), (0, -1)];
    for (n, mv) in seq.iter().enumerate() {
        let expect = if n % 2 == 0 { Player::P1 } else { Player::P2 };
        assert!(board.turn == expect);
        board.apply_move(*mv).unwrap();
    }
    // Five moves were made: Player 2 is to move.
    assert!(board.turn == Player::P2);
}

#[test]
fn make_move_overwrites_and_flips_turn() {
    let mut board = BoardState::new(2);
    board.make_move(0, 0);
    assert!(board.get_owner(0, 0) == HexOwner::P1);
    assert!(board.turn == Player::P2);
    board.make_move(0, 0);
    assert!(board.get_owner(0, 0) == HexOwner::P2);
    assert!(board.turn == Player::P1);
}

#[test]
fn duplicate_is_independent_copy() {
    let mut board = BoardState::new(2);
    board.apply_move((0, 0)).unwrap();
    let copy = board.duplicate();
    assert!(copy.turn == board.turn);
    assert_eq!(copy.legal_moves(), board.legal_moves());
    board.apply_move((1, 0)).unwrap();
    assert!(copy.get_owner(1, 0) == HexOwner::Empty);
    assert!(board.get_owner(1, 0) == HexOwner::P2);
}

#[test]
fn in_bounds_does_not_check_the_implicit_coordinate() {
    let board = BoardState::new(2);
    assert!(board.is_hex_in_bounds(1, 1));
    assert!(!board.is_hex_in_bounds(2, 0));
    assert!(!board.is_hex_in_bounds(0, -2));
}
