use sliding_puzzle::{Board, Dir};
use std::collections::HashSet;

#[test]
fn test_move_block() {
    let mut before_move = Board::from_str(
        "5 4\n\
        1 2 2 3\n\
        1 2 2 3\n\
        4 0 5 5\n\
        4 0 7 6\n\
        9 10 8 6\n\
        ",
    )
    .unwrap();
    before_move.move_block(5, Dir::Left).unwrap();
    let after_move = Board::from_str(
        "5 4\n\
        1 2 2 3\n\
        1 2 2 3\n\
        4 5 5 0\n\
        4 0 7 6\n\
        9 10 8 6\n\
        ",
    )
    .unwrap();

    assert_eq!(before_move.grid(), after_move.grid());
}

#[test]
fn test_move_out_of_range() {
    let mut board = Board::from_str(
        "3 3\n\
        1 1 2\n\
        0 3 0\n\
        0 4 4\n\
        ",
    )
    .unwrap();
    assert!(board.move_block(2, Dir::Right).is_err());
}

#[test]
fn test_init_goal_checking() {
    let board = Board::from_str(
        "5 4\n\
        1 2 2 3\n\
        1 2 2 3\n\
        4 5 5 6\n\
        4 7 8 6\n\
        9 10 0 0\n\
        ",
    )
    .unwrap();

    assert!(board.is_goal());
}

#[test]
fn test_goal_checking_after_move() {
    let reach_goal_at_init = Board::from_str(
        "5 4\n\
        1 2 2 3\n\
        1 2 2 3\n\
        4 5 5 6\n\
        4 7 8 6\n\
        9 10 0 0\n\
        ",
    )
    .unwrap();
    let mut board = Board::from_str(
        "5 4\n\
        1 2 2 3\n\
        1 2 2 3\n\
        4 5 5 6\n\
        4 7 8 6\n\
        9 0 10 0\n\
        ",
    )
    .unwrap();
    assert_eq!(board.final_state, reach_goal_at_init.final_state);
    board.move_block(10, Dir::Left).unwrap();

    assert!(board.is_goal());
}

#[test]
fn test_init_possible_moves() {
    let board = Board::from_str(
        "5 4\n\
        1 2 2 3\n\
        1 2 2 3\n\
        4 0 5 5\n\
        4 0 7 6\n\
        9 10 8 6\n\
        ",
    )
    .unwrap();

    let expected: HashSet<(i8, Dir)> = HashSet::from_iter([
        (4, Dir::Right),
        (2, Dir::Down),
        (5, Dir::Left),
        (7, Dir::Left),
        (10, Dir::Up),
    ]);
    let got: HashSet<(i8, Dir)> = board.possible_moves().into_iter().collect();
    assert_eq!(expected, got);
}

#[test]
fn test_possible_moves_after_move() {
    let mut board = Board::from_str(
        "5 4\n\
        1 2 2 3\n\
        1 2 2 3\n\
        4 0 5 5\n\
        4 0 7 6\n\
        9 10 8 6\n\
        ",
    )
    .unwrap();
    board.move_block(10, Dir::Up).unwrap();

    let expected: HashSet<(i8, Dir)> = HashSet::from_iter([
        (4, Dir::Right),
        (2, Dir::Down),
        (5, Dir::Left),
        (10, Dir::Up),
        (10, Dir::Down),
        (9, Dir::Right),
        (8, Dir::Left),
    ]);
    let got: HashSet<(i8, Dir)> = board.possible_moves().into_iter().collect();
    assert_eq!(expected, got);
}

#[test]
fn test_move_is_recoverable() {
    let mut board = Board::from_str(
        "5 4\n\
        1 2 2 3\n\
        1 2 2 3\n\
        4 0 5 5\n\
        4 0 7 6\n\
        9 10 8 6\n\
        ",
    )
    .unwrap();
    let original = board.clone();

    board.move_block(5, Dir::Left).unwrap();
    assert_ne!(board, original);
    board.move_block(5, Dir::Right).unwrap();
    assert_eq!(board, original);
}
