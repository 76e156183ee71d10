use pop_solver::board::{Board, BoardError, Coordinate, Point, HEIGHT, WIDTH};

fn index(x: usize, y: usize) -> usize {
    x * HEIGHT + y
}

#[test]
fn constructor() {
    let board = Board::new(
        "ooooooooopppppppppbbbbbbbbbgggggggggooooooooopppppppppbbbbbbbbb",
    )
    .expect("board");

    let expected = [
        (Point::Orange, 9),
        (Point::Pink, 9),
        (Point::Blue, 9),
        (Point::Green, 9),
        (Point::Orange, 9),
        (Point::Pink, 9),
        (Point::Blue, 9),
    ];

    for (chunk, (expected_point, size)) in board.data.chunks(9).zip(expected) {
        assert!(chunk.iter().all(|&p| p == expected_point));
        assert!(chunk.len() == size)
    }
}

#[test]
fn make_move() {
    let mut board = Board::new(
        "opbbbbbbbopbbbbbbbopbbbbbbbopbbbbbbbopbbbbbbbopbbbbbbbopbbbbbbb",
    )
    .expect("board");

    board.make_move(0, 1).expect("move made");

    let expected_rows = [
        vec![Point::Empty; WIDTH],
        vec![Point::Orange; WIDTH],
        vec![Point::Blue; WIDTH],
        vec![Point::Blue; WIDTH],
        vec![Point::Blue; WIDTH],
        vec![Point::Blue; WIDTH],
        vec![Point::Blue; WIDTH],
        vec![Point::Blue; WIDTH],
        vec![Point::Blue; WIDTH],
    ];

    for y in 0..HEIGHT {
        let row: Vec<Point> = (0..WIDTH).map(|x| board.data[index(x, y)]).collect();

        assert_eq!(expected_rows[y], row, "Row {} does not match expected", y);
    }
}

#[test]
fn get_group() {
    let board = Board::new(
        "opooooooopppppppppbbbbbbbpbgggggggpgooooooooopppppppppbbbbbbbbb",
    )
    .expect("board");

    let group = board.get_group(1, 1);

    let mut sorted_group: Vec<Coordinate> = group.into_iter().collect();
    sorted_group.sort_by_key(|c| (c.x, c.y));

    let expected_group: Vec<Coordinate> = vec![
        Coordinate { x: 0, y: 1 },
        Coordinate { x: 1, y: 0 },
        Coordinate { x: 1, y: 1 },
        Coordinate { x: 1, y: 2 },
        Coordinate { x: 1, y: 3 },
        Coordinate { x: 1, y: 4 },
        Coordinate { x: 1, y: 5 },
        Coordinate { x: 1, y: 6 },
        Coordinate { x: 1, y: 7 },
        Coordinate { x: 1, y: 8 },
        Coordinate { x: 2, y: 7 },
        Coordinate { x: 3, y: 7 },
    ];

    assert_eq!(sorted_group, expected_group);
}

#[test]
fn copy() {
    let mut original = Board::new(
        "ooooooooooooooooooooooooooooooooooooooooooooooooooooooooooooooo",
    )
    .expect("board");

    let other = original.clone();

    assert_eq!(original.data, other.data);
    assert_eq!(original.moves, other.moves);

    original.make_move(1, 1).expect("move made");

    assert_ne!(original.data, other.data);
    assert_ne!(original.moves, other.moves);
}

#[test]
fn is_solved() {
    let mut board = Board::new(
        "ooooooooooooooooooooooooooooooooooooooooooooooooooooooooooooooo",
    )
    .expect("board");

    assert_eq!(board.is_solved(), false);

    board.make_move(1, 1).expect("move made");

    assert_eq!(board.is_solved(), true);
}

#[test]
fn bug_scenario() {
    let mut board = Board::new(
        "gbogbogoppbopgbogggpgbgobbpbopoobobppbpobgoggogoppogbopoppgobbb",
    )
    .expect("board");

    let moves = vec![
        Coordinate { x: 3, y: 4 },
        Coordinate { x: 4, y: 3 },
        Coordinate { x: 5, y: 7 },
        Coordinate { x: 3, y: 6 },
        Coordinate { x: 4, y: 6 },
        Coordinate { x: 2, y: 6 },
        Coordinate { x: 2, y: 8 },
        Coordinate { x: 1, y: 7 },
        Coordinate { x: 0, y: 6 },
        Coordinate { x: 1, y: 6 },
        Coordinate { x: 0, y: 5 },
        Coordinate { x: 5, y: 8 },
        Coordinate { x: 0, y: 5 },
        Coordinate { x: 0, y: 8 },
        Coordinate { x: 0, y: 6 },
        Coordinate { x: 0, y: 8 },
    ];

    for m in moves {
        board.make_move(m.x, m.y).expect("move made");
    }

    assert_eq!(board.is_solved(), false);
}

fn two_color_board() -> Board {
    let mut s = String::new();
    for x in 0..WIDTH {
        for _ in 0..HEIGHT {
            s.push(if x == 0 { 'o' } else { 'b' });
        }
    }
    Board::new(&s).expect("board")
}

#[test]
fn construction_rejects_wrong_lengths() {
    assert!(matches!(Board::new(""), Err(BoardError::InvalidBoardStringLength)));
    assert!(matches!(Board::new(&"o".repeat(62)), Err(BoardError::InvalidBoardStringLength)));
    assert!(matches!(Board::new(&"o".repeat(64)), Err(BoardError::InvalidBoardStringLength)));
}

#[test]
fn construction_maps_symbols() {
    let s = format!("opgbx_{}", "o".repeat(57));
    let board = Board::new(&s).expect("board");
    assert_eq!(board.data.len(), 63);
    assert_eq!(
        &board.data[0..6],
        &[Point::Orange, Point::Pink, Point::Green, Point::Blue, Point::Empty, Point::Empty]
    );
    assert!(board.moves.is_empty());
}

#[test]
fn group_on_two_color_board() {
    let board = two_color_board();
    for y in 0..HEIGHT {
        let group = board.get_group(0, y);
        let expected: Vec<Coordinate> = (0..HEIGHT).map(|y| Coordinate { x: 0, y }).collect();
        assert_eq!(group, expected);
    }
    for x in 1..WIDTH {
        let group = board.get_group(x, 4);
        assert_eq!(group.len(), 54);
        assert!(group.iter().all(|c| c.x >= 1));
    }
}

#[test]
fn move_on_two_color_board() {
    let mut board = two_color_board();
    board.make_move(0, 3).expect("move made");
    for y in 0..HEIGHT {
        assert_eq!(board.data[index(0, y)], Point::Empty);
        for x in 1..WIDTH {
            assert_eq!(board.data[index(x, y)], Point::Blue);
        }
    }
    assert_eq!(board.moves, vec![Coordinate { x: 0, y: 3 }]);
}

#[test]
fn settled_board_stays_put_after_a_move_elsewhere() {
    // Popping the single cell on top of column 0 leaves the settled columns as they were.
    let mut s = String::from("_ooooooob");
    s.push_str(&"p".repeat(54));
    let mut board = Board::new(&s).expect("board");
    let before = board.data.clone();
    board.make_move(0, 1).expect("move made");
    for x in 1..WIDTH {
        for y in 0..HEIGHT {
            assert_eq!(board.data[index(x, y)], before[index(x, y)]);
        }
    }
    let column: Vec<Point> = (0..HEIGHT).map(|y| board.data[index(0, y)]).collect();
    let mut expected = vec![Point::Empty; 8];
    expected.push(Point::Blue);
    assert_eq!(column, expected);
}

#[test]
fn invalid_moves() {
    let mut board = two_color_board();
    board.make_move(0, 0).expect("move made");
    assert!(matches!(board.make_move(0, 0), Err(BoardError::InvalidMove)));
    assert!(matches!(board.make_move(WIDTH, 0), Err(BoardError::InvalidMove)));
    assert!(matches!(board.make_move(0, HEIGHT), Err(BoardError::InvalidMove)));
    assert_eq!(board.moves.len(), 1);
}

#[test]
fn gravity_keeps_order_within_a_column() {
    let mut s = String::from("obopbgbob");
    s.push_str(&"g".repeat(54));
    let mut board = Board::new(&s).expect("board");
    // The blue cell at row 5 is a group of one.
    board.make_move(0, 5).expect("move made");
    let column: Vec<Point> = (0..HEIGHT).map(|y| board.data[index(0, y)]).collect();
    assert_eq!(
        column,
        vec![
            Point::Empty,
            Point::Orange,
            Point::Blue,
            Point::Orange,
            Point::Pink,
            Point::Blue,
            Point::Blue,
            Point::Orange,
            Point::Blue,
        ]
    );
}

#[test]
fn memo_key_encodes_cells() {
    let mut a = two_color_board();
    let key = a.get_memo_key();
    assert_eq!(key.len(), 63);
    assert!(key[0..9].iter().all(|&b| b == 0));
    assert!(key[9..].iter().all(|&b| b == 2));
    a.make_move(0, 0).expect("move made");
    let mut s = "_".repeat(9);
    s.push_str(&"b".repeat(54));
    let b = Board::new(&s).expect("board");
    assert_eq!(a.get_memo_key(), b.get_memo_key());
    assert!(a.get_memo_key()[0..9].iter().all(|&b| b == 4));
}

#[test]
fn distinct_moves_one_per_group() {
    let board = two_color_board();
    let moves = board.get_distinct_moves();
    assert_eq!(moves, vec![(Coordinate { x: 0, y: 0 }, 9), (Coordinate { x: 1, y: 0 }, 54)]);
    let empty = Board::new(&"_".repeat(63)).expect("board");
    assert!(empty.get_distinct_moves().is_empty());
    assert!(empty.is_solved());
}

#[test]
fn prioritized_moves_prefer_fewer_groups_then_larger() {
    // Both moves leave one group: the larger group comes first.
    let board = two_color_board();
    assert_eq!(
        board.get_prioritized_moves(),
        vec![Coordinate { x: 1, y: 0 }, Coordinate { x: 0, y: 0 }]
    );
    // Column 0: one orange cell over eight blue ones; the rest pink. Every
    // move leaves two groups, so the groups come largest first.
    let mut s = String::from("obbbbbbbb");
    s.push_str(&"p".repeat(54));
    let board = Board::new(&s).expect("board");
    assert_eq!(
        board.get_prioritized_moves(),
        vec![Coordinate { x: 1, y: 0 }, Coordinate { x: 0, y: 1 }, Coordinate { x: 0, y: 0 }]
    );
}
