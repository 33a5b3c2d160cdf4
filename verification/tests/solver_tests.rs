use grid::Grid;
use npuzzle::board::{Board, Directions, Heuristics};
use npuzzle::board::Directions::{DOWN, LEFT, RIGHT, UP};
use npuzzle::solver::{Algo, Solver};

#[test]
fn new_test() {
    /*
    3
    0 1 3
    4 2 5
    7 8 6
    */
    let n = 3;
    let solver = Solver::new(n);
    assert_eq!(solver.target().get_n(), 3);
    assert_eq!(*solver.target().get_grid(), Grid::from_vec(vec![1, 2, 3, 4, 5, 6, 7, 8, 0], 3));
    assert_eq!(*solver.target().get_grid(), Grid::from_vec(vec![1, 2, 3, 4, 5, 6, 7, 8, 0], 3));
}

#[test]
fn solution_path_to_string_test() {
    let solution_vector = vec![DOWN, LEFT, LEFT, RIGHT, UP];
    let mut solver = Solver::new(1);
    solver.is_over = true;
    solver.solution_path = solution_vector;
    assert_eq!(solver.solution_path_to_string(), "DOWN LEFT LEFT RIGHT UP ");
}

#[test]
fn is_target_test1() {
    /*
    3
    1 2 3
    4 5 6
    7 8 0
    */
    let n = 3;
    let input_str = "1 2 3\n4 5 6\n7 8 0";
    let board = Board::load_from_str(n, input_str).unwrap();
    let solver = Solver::new(n);
    assert!(solver.is_target(&board))
}

#[test]
fn is_over_test2() {
    /*
    3
    0 1 3
    4 2 5
    7 8 6
    */
    let n = 3;
    let input_str = "0 1 3\n4 2 5\n7 8 6";
    let board = Board::load_from_str(n, input_str).unwrap();
    let solver = Solver::new(n);
    assert!(!solver.is_target(&board))
}

#[test]
fn id_a_star_test() {
    /*
    3
    0 1 3
    4 2 5
    7 8 6
    */
    let n = 3;
    let input_str = "0 1 3\n4 2 5\n7 8 6";
    let board = Board::load_from_str(n, input_str).unwrap();
    let mut solver = Solver::new(3);
    solver.solve(board, Algo::IDASTAR, Heuristics::NONE);
    assert!(solver.is_over);
    assert_eq!(solver.solution_path.len(), 4)
}

fn solution_solves(input: &str, n: usize, path: &[Directions]) -> bool {
    // Replays a move path and checks it reaches the solved board.
    let mut board = Board::load_from_str(n, input).unwrap();
    for d in path {
        if !board.next_directions().contains(d) {
            return false;
        }
        board.make_move(*d);
    }
    let solver = Solver::new(n);
    solver.is_target(&board)
}

#[test]
fn iddfs_finds_shortest_solution() {
    // Known optimal distance 4; plain iterative deepening finds it.
    let input = "0 1 3\n4 2 5\n7 8 6";
    let board = Board::load_from_str(3, input).unwrap();
    let mut solver = Solver::new(3);
    solver.solve(board, Algo::IDDFS, Heuristics::NONE);
    assert!(solver.is_over);
    assert_eq!(solver.solution_path.len(), 4);
    assert!(solution_solves(input, 3, &solver.solution_path));
}

#[test]
fn ida_star_manhattan_finds_shortest_solution() {
    let input = "0 1 3\n4 2 5\n7 8 6";
    let board = Board::load_from_str(3, input).unwrap();
    let mut solver = Solver::new(3);
    solver.solve(board, Algo::IDASTAR, Heuristics::MANHATTAN);
    assert!(solver.is_over);
    assert_eq!(solver.solution_path.len(), 4);
    assert!(solution_solves(input, 3, &solver.solution_path));
}

#[test]
fn ida_star_linear_conflict_finds_shortest_solution() {
    let input = "0 1 3\n4 2 5\n7 8 6";
    let board = Board::load_from_str(3, input).unwrap();
    let mut solver = Solver::new(3);
    solver.solve(board, Algo::IDASTAR, Heuristics::LINCONFLICT);
    assert!(solver.is_over);
    assert_eq!(solver.solution_path.len(), 4);
    assert!(solution_solves(input, 3, &solver.solution_path));
}

#[test]
fn already_solved_board_yields_empty_path() {
    let board = Board::load_from_str(3, "1 2 3\n4 5 6\n7 8 0").unwrap();
    let mut solver = Solver::new(3);
    solver.solve(board, Algo::IDASTAR, Heuristics::LINCONFLICT);
    assert!(solver.is_over);
    assert!(solver.solution_path.is_empty());
    assert_eq!(solver.solution_path_to_string(), "Puzzle is already won!");
}

#[test]
fn astar_is_a_no_op() {
    let board = Board::load_from_str(3, "0 1 3\n4 2 5\n7 8 6").unwrap();
    let mut solver = Solver::new(3);
    solver.solve(board, Algo::ASTAR, Heuristics::LINCONFLICT);
    assert!(!solver.is_over);
    assert!(solver.solution_path.is_empty());
    assert_eq!(solver.solution_path_to_string(), "No solution!");
}

#[test]
fn unsolvable_board_reports_no_solution() {
    // One transposition away from the target: odd permutation parity, so
    // no move sequence solves it; the search stops at the depth ceiling.
    let board = Board::load_from_str(2, "2 1\n3 0").unwrap();
    let mut solver = Solver::new(2);
    solver.solve(board, Algo::IDASTAR, Heuristics::MANHATTAN);
    assert!(!solver.is_over);
    assert_eq!(solver.solution_path_to_string(), "No solution!");
}

#[test]
fn no_solution_string_before_any_search() {
    let solver = Solver::new(3);
    assert_eq!(solver.solution_path_to_string(), "No solution!");
}

#[test]
fn one_by_one_board_is_already_solved() {
    let board = Board::load_from_str(1, "0").unwrap();
    let mut solver = Solver::new(1);
    solver.solve(board, Algo::IDASTAR, Heuristics::MANHATTAN);
    assert!(solver.is_over);
    assert!(solver.solution_path.is_empty());
}

#[test]
fn two_by_two_board_solved_in_one_move() {
    let board = Board::load_from_str(2, "1 2\n0 3").unwrap();
    let mut solver = Solver::new(2);
    solver.solve(board, Algo::IDASTAR, Heuristics::LINCONFLICT);
    assert!(solver.is_over);
    assert_eq!(solver.solution_path, vec![RIGHT]);
}

#[test]
fn one_move_board_solved_by_iddfs() {
    let board = Board::load_from_str(3, "1 2 3\n4 5 6\n7 0 8").unwrap();
    let mut solver = Solver::new(3);
    solver.solve(board, Algo::IDDFS, Heuristics::NONE);
    assert!(solver.is_over);
    assert_eq!(solver.solution_path, vec![RIGHT]);
    assert_eq!(solver.solution_path_to_string(), "RIGHT ");
}
