use sliding_puzzle::{idastar, iddfs, vec2_from_str, Block, Board, BoardError, Dir, Vec2};

const NEAR_GOAL: &str = "5 4\n\
    1 2 2 3\n\
    1 2 2 3\n\
    4 0 5 5\n\
    4 0 7 6\n\
    9 10 8 6\n\
    ";

/// Both search engines find solutions of equal, minimal length on the
/// same solvable input; here the heuristic value equals the solution
/// length, which certifies minimality.
#[test]
fn test_search_optimality() {
    let board = Board::from_str(NEAR_GOAL).unwrap();
    let h = board.heuristic();
    assert_eq!(h, 4);

    let a = iddfs(board.clone()).expect("iddfs finds a solution");
    let b = idastar(board.clone()).expect("idastar finds a solution");
    assert_eq!(a.len(), 4);
    assert_eq!(b.len(), 4);

    for moves in [a, b] {
        let mut replay = board.clone();
        for (id, dir) in moves {
            replay.move_block(id, dir).expect("returned move is legal");
        }
        assert!(replay.is_goal());
    }
}

/// Moving block 5 left rewrites the third row, and moving it right
/// restores the original grid exactly.
#[test]
fn test_move_left_then_right_restores_grid() {
    let mut board = Board::from_str(NEAR_GOAL).unwrap();
    let original = board.clone();

    board.move_block(5, Dir::Left).unwrap();
    let row3: Vec<i8> = (0..4)
        .map(|x| *board.grid().get(Vec2::new(x, 2)).unwrap())
        .collect();
    assert_eq!(row3, vec![4, 5, 5, 0]);

    board.move_block(5, Dir::Right).unwrap();
    assert_eq!(board.grid(), original.grid());
    assert_eq!(board, original);
}

/// A packed board stays identical, as a whole object, after a move
/// and its inverse.
#[test]
fn test_packed_board_move_and_back() {
    let mut board = Board::from_str(
        "5 4\n\
        1 2 2 3\n\
        1 2 2 3\n\
        4 5 5 6\n\
        4 7 8 6\n\
        9 0 10 0\n\
        ",
    )
    .unwrap();
    let original = board.clone();

    board.move_block(10, Dir::Left).unwrap();
    assert_ne!(board, original);
    board.move_block(10, Dir::Right).unwrap();
    assert_eq!(board, original);
}

/// Solving an already-solved board needs no moves.
#[test]
fn test_solved_board_solves_empty() {
    let board = Board::from_str(
        "5 4\n\
        1 2 2 3\n\
        1 2 2 3\n\
        4 5 5 6\n\
        4 7 8 6\n\
        9 10 0 0\n\
        ",
    )
    .unwrap();
    assert_eq!(iddfs(board.clone()), Some(vec![]));
    assert_eq!(idastar(board), Some(vec![]));
}

/// A candidate move can still be rejected when another cell of the
/// block is blocked, and the search skips it silently.
#[test]
fn test_blocked_candidate() {
    let mut board = Board::from_str(
        "3 3\n\
        1 1 2\n\
        0 3 0\n\
        0 4 4\n\
        ",
    )
    .unwrap();
    // block 1 is a 2x1 bar; a hole sits under its left cell only
    assert_eq!(
        board.move_block(1, Dir::Down),
        Err(sliding_puzzle::MoveError::BlockedMove)
    );
}

#[test]
fn test_missing_block_id() {
    let r = Board::from_str(
        "2 2\n\
        1 1\n\
        0 3\n\
        ",
    );
    assert_eq!(r.unwrap_err(), BoardError::MissingBlock);
}

#[test]
fn test_malformed_block_shape() {
    let r = Board::from_str(
        "2 2\n\
        1 0\n\
        0 1\n\
        ",
    );
    assert_eq!(r.unwrap_err(), BoardError::MalformedBlock);
}

#[test]
fn test_unfittable_goal_layout() {
    let r = Board::from_str(
        "2 3\n\
        1 3 3\n\
        2 3 3\n\
        ",
    );
    assert_eq!(r.unwrap_err(), BoardError::UnfittableLayout);
}

#[test]
fn test_parse_errors() {
    assert_eq!(Board::from_str("").unwrap_err(), BoardError::BadHeader);
    assert_eq!(Board::from_str("2\n").unwrap_err(), BoardError::BadHeader);
    assert_eq!(
        Board::from_str("0 3\n").unwrap_err(),
        BoardError::BadDimensions
    );
    assert_eq!(
        Board::from_str("2 2\n1 x\n2 2\n").unwrap_err(),
        BoardError::BadToken
    );
    assert_eq!(
        Board::from_str("2 2\n1\n1 2\n").unwrap_err(),
        BoardError::WrongRowLength
    );
}

#[test]
fn test_vec2_from_str() {
    assert_eq!(vec2_from_str("4,2"), Ok(Vec2::new(4, 2)));
    assert_eq!(vec2_from_str("-1,7"), Ok(Vec2::new(-1, 7)));
    assert!(vec2_from_str("42").is_err());
    assert!(vec2_from_str("4,x").is_err());
}

#[test]
fn test_from_positions() {
    let single = Block::from_positions(3, &vec![Vec2::new(2, 1)]).unwrap();
    assert_eq!(single.id, 3);
    assert_eq!(single.pos, Vec2::new(2, 1));
    assert_eq!(single.size, Vec2::new(1, 1));

    let wide = Block::from_positions(1, &vec![Vec2::new(0, 0), Vec2::new(1, 0)]).unwrap();
    assert_eq!(wide.size, Vec2::new(2, 1));

    let square = Block::from_positions(
        2,
        &vec![
            Vec2::new(1, 1),
            Vec2::new(2, 1),
            Vec2::new(1, 2),
            Vec2::new(2, 2),
        ],
    )
    .unwrap();
    assert_eq!(square.size, Vec2::new(2, 2));

    let bad = Block::from_positions(1, &vec![Vec2::new(0, 0), Vec2::new(2, 0)]);
    assert_eq!(bad.unwrap_err(), BoardError::MalformedBlock);
}

/// A freshly generated, unshuffled board sits exactly in its canonical
/// packed layout.
#[test]
fn test_generate_unshuffled_is_goal() {
    let board = Board::generate(Vec2::new(4, 5), 10, 0).unwrap();
    assert!(board.is_goal());
}

/// A generated and shuffled board is still well formed and solvable.
#[test]
fn test_generate_shuffled_solvable() {
    let board = Board::generate(Vec2::new(3, 3), 4, 6).unwrap();
    let moves = idastar(board.clone()).expect("shuffled boards stay solvable");
    let mut replay = board;
    for (id, dir) in moves {
        replay.move_block(id, dir).unwrap();
    }
    assert!(replay.is_goal());
}

/// The heuristic of a solved board is zero.
#[test]
fn test_heuristic_zero_at_goal() {
    let board = Board::from_str(
        "5 4\n\
        1 2 2 3\n\
        1 2 2 3\n\
        4 5 5 6\n\
        4 7 8 6\n\
        9 10 0 0\n\
        ",
    )
    .unwrap();
    assert_eq!(board.heuristic(), 0);
}

/// A full board whose layout differs from the canonical packing has
/// no legal moves at all; IDA* reports it unsolvable.
#[test]
fn test_idastar_unsolvable() {
    let board = Board::from_str(
        "2 1\n\
        2\n\
        1\n\
        ",
    )
    .unwrap();
    assert!(!board.is_goal());
    assert!(board.possible_moves().is_empty());
    assert_eq!(idastar(board), None);
}
