use pop_solver::board::{Board, Coordinate};
use pop_solver::solver::{admits, retry_with, shortest_solution, Solver};

fn replay(initial: &str, moves: &[Coordinate]) -> Board {
    let mut board = Board::new(initial).expect("board");
    for m in moves {
        board.make_move(m.x, m.y).expect("move made");
    }
    board
}

#[test]
fn solve() {
    let board = Board::new(
        "obobobobooboboboboobobobobooboboboboobobobobooboboboboobobobobo",
    )
    .unwrap();

    let solver = Solver::new();

    let solution = solver.solve(board).expect("Solution");

    assert_eq!(solution.len(), 5);
}

#[test]
fn solution_replays_to_an_empty_board() {
    let s = "obobobobooboboboboobobobobooboboboboobobobobooboboboboobobobobo";
    let solution = Solver::new().solve(Board::new(s).unwrap()).expect("Solution");
    assert!(replay(s, &solution).is_solved());
}

#[test]
fn solve_is_stable_across_runs() {
    let s = "obobobobooboboboboobobobobooboboboboobobobobooboboboboobobobobo";
    let first = Solver::new().solve(Board::new(s).unwrap()).expect("Solution");
    let second = Solver::new().solve(Board::new(s).unwrap()).expect("Solution");
    assert_eq!(first.len(), second.len());
}

#[test]
fn solve_two_color_board_in_two_moves() {
    let mut s = "o".repeat(9);
    s.push_str(&"b".repeat(54));
    let solution = Solver::new().solve(Board::new(&s).unwrap()).expect("Solution");
    assert_eq!(solution.len(), 2);
    assert!(replay(&s, &solution).is_solved());
}

#[test]
fn solve_single_group_board_in_one_move() {
    let s = "g".repeat(63);
    let solution = Solver::new().solve(Board::new(&s).unwrap()).expect("Solution");
    assert_eq!(solution.len(), 1);
}

#[test]
fn admits_only_lower_counts() {
    assert!(admits(None, 5));
    assert!(admits(Some(6), 5));
    assert!(!admits(Some(5), 5));
    assert!(!admits(Some(4), 5));
}

#[test]
fn shortest_solution_picks_first_shortest() {
    let a = vec![Coordinate { x: 0, y: 0 }; 3];
    let b = vec![Coordinate { x: 1, y: 0 }; 2];
    let c = vec![Coordinate { x: 2, y: 0 }; 2];
    assert_eq!(shortest_solution(vec![]), None);
    assert_eq!(shortest_solution(vec![None, None]), None);
    assert_eq!(
        shortest_solution(vec![Some(a.clone()), None, Some(b.clone()), Some(c)]),
        Some(b)
    );
    assert_eq!(shortest_solution(vec![None, Some(a.clone())]), Some(a));
}

#[test]
fn solve_empty_board_gives_none() {
    let s = "_".repeat(63);
    assert_eq!(Solver::new().solve(Board::new(&s).unwrap()), None);
}

#[test]
fn retry_only_while_the_new_length_improves() {
    assert_eq!(retry_with(10, 7, 5), Some(7));
    assert_eq!(retry_with(10, 5, 5), None);
    assert_eq!(retry_with(10, 3, 5), None);
    assert_eq!(retry_with(10, 12, 5), None);
}
