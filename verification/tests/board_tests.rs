use grid::Grid;
use npuzzle::board::{Board, Directions, Heuristics};
use npuzzle::parse::ParseError;

#[test]
fn load_from_str_test() {
    /*
    3
    0 1 3
    4 2 5
    7 8 6
    */
    let n = 3;
    let input_str = "0 1 3\n4 2 5\n7 8 6";
    let board = Board::load_from_str(n, input_str).unwrap();

    assert_eq!(board.get_n(), 3);
    assert_eq!(board.get_pos_0(), (0, 0));
}

#[test]
fn next_directions_test1() {
    /*
    3
    0 1 3
    4 2 5
    7 8 6
    */
    let n = 3;
    let input_str = "0 1 3\n4 2 5\n7 8 6";
    let board = Board::load_from_str(n, input_str).unwrap();
    let next_d = board.next_directions();

    assert_eq!(next_d.len(), 2);
    assert!(next_d.contains(&Directions::RIGHT));
    assert!(next_d.contains(&Directions::DOWN));
}

#[test]
fn next_directions_test2() {
    /*
    3
    6 1 3
    4 2 5
    7 8 0
    */
    let n = 3;
    let input_str = "6 1 3\n4 2 5\n7 8 0";
    let board = Board::load_from_str(n, input_str).unwrap();
    let next_d = board.next_directions();

    assert_eq!(next_d.len(), 2);
    assert!(next_d.contains(&Directions::UP));
    assert!(next_d.contains(&Directions::LEFT));
}

#[test]
fn next_directions_test3() {
    /*
    3
    2 1 3
    4 0 5
    7 8 6
    */
    let n = 3;
    let input_str = "2 1 3\n4 0 5\n7 8 6";
    let board = Board::load_from_str(n, input_str).unwrap();
    let next_d = board.next_directions();

    assert_eq!(next_d.len(), 4);
    assert!(next_d.contains(&Directions::UP));
    assert!(next_d.contains(&Directions::LEFT));
    assert!(next_d.contains(&Directions::DOWN));
    assert!(next_d.contains(&Directions::RIGHT));
}

#[test]
fn make_move_test1() {
    /*
    3
    0 1 3
    4 2 5
    7 8 6
    */
    let n = 3;
    let input_str = "0 1 3\n4 2 5\n7 8 6";
    let mut board = Board::load_from_str(n, input_str).unwrap();
    board.make_move(Directions::RIGHT);

    assert_eq!(*board.get_grid(), Grid::from_vec(vec![1, 0, 3, 4, 2, 5, 7, 8, 6], 3));
}

#[test]
fn make_move_test2() {
    /*
    3
    6 1 3
    4 2 5
    7 8 0
    */
    let n = 3;
    let input_str = "6 1 3\n4 2 5\n7 8 0";
    let mut board = Board::load_from_str(n, input_str).unwrap();
    board.make_move(Directions::UP);

    assert_eq!(*board.get_grid(), Grid::from_vec(vec![6, 1, 3, 4, 2, 0, 7, 8, 5], 3));
}

#[test]
fn heuristic_manhattan_test1() {
    /*
    3
    1 2 3
    4 5 6
    7 8 0
    */
    let n = 3;
    let input_str = "1 2 3\n4 5 6\n7 8 0";
    let board = Board::load_from_str(n, input_str).unwrap();

    assert_eq!(board.heuristic(Heuristics::MANHATTAN), 0);
}

#[test]
fn heuristic_manhattan_test2() {
    /*
    3
    2 1 3
    4 0 5
    7 8 6
    */
    let n = 3;
    let input_str = "2 1 3\n4 0 5\n7 8 6";
    let board = Board::load_from_str(n, input_str).unwrap();

    assert_eq!(board.heuristic(Heuristics::MANHATTAN), 4);
}

#[test]
fn heuristic_linear_conflict_test() {
    /*
    Board:
    2 1 3
    4 0 5
    7 8 6

    Manhattan is 4; tiles 1 and 2 sit on their goal row in reversed
    order, so the linear conflict adds 2, for a total of 6.
    */
    let n = 3;
    let input_str = "2 1 3\n4 0 5\n7 8 6";
    let board = Board::load_from_str(n, input_str).unwrap();

    let linear_conflict_result = board.heuristic(Heuristics::LINCONFLICT);

    let manhattan_result = board.heuristic(Heuristics::MANHATTAN);
    assert!(linear_conflict_result >= manhattan_result);

    assert_eq!(linear_conflict_result, 6);
}

#[test]
fn heuristic_none_is_zero() {
    let board = Board::load_from_str(3, "2 1 3\n4 0 5\n7 8 6").unwrap();
    assert_eq!(board.heuristic(Heuristics::NONE), 0);
}

#[test]
fn load_round_trip_permutation() {
    // The loaded grid holds each of 0..8 exactly once, and the blank
    // position points at the cell holding 0.
    let board = Board::load_from_str(3, "2 1 3\n4 0 5\n7 8 6").unwrap();
    let g = board.get_grid();
    let mut seen = [false; 9];
    for r in 0..3 {
        for c in 0..3 {
            let v = g[(r, c)];
            assert!(v < 9);
            assert!(!seen[v]);
            seen[v] = true;
        }
    }
    let (r0, c0) = board.get_pos_0();
    assert_eq!((r0, c0), (1, 1));
    assert_eq!(g[(r0, c0)], 0);
}

#[test]
fn load_accepts_trailing_newline() {
    let board = Board::load_from_str(3, "0 1 3\n4 2 5\n7 8 6\n").unwrap();
    assert_eq!(board.get_pos_0(), (0, 0));
}

#[test]
fn load_rejects_missing_row() {
    let r = Board::load_from_str(3, "0 1 3\n4 2 5");
    assert!(matches!(r, Err(ParseError::WrongRowCount)));
}

#[test]
fn load_rejects_extra_row() {
    let r = Board::load_from_str(3, "0 1 3\n4 2 5\n7 8 6\n1");
    assert!(matches!(r, Err(ParseError::WrongRowCount)));
}

#[test]
fn load_rejects_bad_token() {
    let r = Board::load_from_str(3, "a 1 3\n4 2 5\n7 8 6");
    assert!(matches!(r, Err(ParseError::InvalidToken)));
}

#[test]
fn load_rejects_wrong_row_length() {
    let r = Board::load_from_str(3, "0 1 3 5\n4 2 5\n7 8 6");
    assert!(matches!(r, Err(ParseError::WrongRowLength)));
}

#[test]
fn load_rejects_value_out_of_range() {
    let r = Board::load_from_str(3, "9 1 3\n4 2 5\n7 8 0");
    assert!(matches!(r, Err(ParseError::ValueOutOfRange)));
}

#[test]
fn load_rejects_missing_blank() {
    let r = Board::load_from_str(3, "1 1 3\n4 2 5\n7 8 6");
    assert!(matches!(r, Err(ParseError::MissingBlank)));
}

#[test]
fn load_rejects_duplicate_value() {
    let r = Board::load_from_str(3, "0 1 1\n4 2 5\n7 8 6");
    assert!(matches!(r, Err(ParseError::DuplicateValue)));
}

#[test]
fn make_move_then_opposite_restores() {
    // A move followed by its opposite restores the board.
    let original = Board::load_from_str(3, "2 1 3\n4 0 5\n7 8 6").unwrap();
    let mut board = Board::load_from_str(3, "2 1 3\n4 0 5\n7 8 6").unwrap();
    board.make_move(Directions::UP);
    board.make_move(Directions::DOWN);
    assert!(board.equals(&original));
    board.make_move(Directions::LEFT);
    board.make_move(Directions::RIGHT);
    assert!(board.equals(&original));
}

#[test]
fn next_directions_edge_has_three() {
    // Blank on a non-corner edge cell: three legal moves.
    let board = Board::load_from_str(3, "1 0 3\n4 2 5\n7 8 6").unwrap();
    let next_d = board.next_directions();
    assert_eq!(next_d.len(), 3);
    assert!(next_d.contains(&Directions::DOWN));
    assert!(next_d.contains(&Directions::LEFT));
    assert!(next_d.contains(&Directions::RIGHT));
}
