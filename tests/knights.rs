use dynprog::knights::{find_tour, find_tour_backtracking, Board, Cell, UNVISITED};

#[test]
fn test_board_new() {
    let tut = Board::new(None);
    for row in &tut.cells {
        for col in row.iter() {
            assert_eq!(*col, UNVISITED);
        }
    }
}

#[test]
fn test_board_visit() {
    let mut tut = Board::new(None);
    assert_eq!(tut.visited(&Cell { x: 0, y: 0 }), false);
    tut.visit(&Cell { x: 0, y: 0 }, 1);
    assert_eq!(tut.visited(&Cell { x: 0, y: 0 }), true);
}

#[test]
fn test_moves_from_corner() {
    let tut = Board::new(None);
    let moves = tut.moves(Cell { x: 0, y: 0 });
    assert_eq!(moves.len(), 2);

    let tut = Board::new(None);
    let moves = tut.moves(Cell { x: 7, y: 7 });
    assert_eq!(moves.len(), 2);

    let tut = Board::new(None);
    let moves = tut.moves(Cell { x: 7, y: 0 });
    assert_eq!(moves.len(), 2);

    let tut = Board::new(None);
    let moves = tut.moves(Cell { x: 0, y: 7 });
    assert_eq!(moves.len(), 2);

    let mut tut = Board::new(None);
    tut.visit(&Cell { x: 2, y: 1 }, 1);
    let moves = tut.moves(Cell { x: 0, y: 0 });
    assert_eq!(moves.len(), 1);

    let mut tut = Board::new(None);
    tut.visit(&Cell { x: 5, y: 6 }, 1);
    let moves = tut.moves(Cell { x: 7, y: 7 });
    assert_eq!(moves.len(), 1);

    let mut tut = Board::new(None);
    tut.visit(&Cell { x: 5, y: 6 }, 1);
    tut.visit(&Cell { x: 6, y: 5 }, 2);
    let moves = tut.moves(Cell { x: 7, y: 7 });
    assert!(moves.is_empty());
}

#[test]
fn test_moves_from_middle() {
    let tut = Board::new(None);
    let moves = tut.moves(Cell { x: 4, y: 4 });
    assert_eq!(moves.len(), 8);
}

#[test]
fn test_valid_move_from_corner() {
    let mut tut = Board::new(None);
    let start_cell = &Cell { x: 0, y: 0 };
    tut.visit(start_cell, 0);
    assert_eq!(tut.valid_move(start_cell, &(-1, -2)), false);
    assert_eq!(tut.valid_move(start_cell, &(-1, 2)), false);
    assert_eq!(tut.valid_move(start_cell, &(-2, 1)), false);
    assert_eq!(tut.valid_move(start_cell, &(1, -2)), false);
    assert_eq!(tut.valid_move(start_cell, &(1, 2)), true);
    assert_eq!(tut.valid_move(start_cell, &(2, -1)), false);
    assert_eq!(tut.valid_move(start_cell, &(2, -1)), false);
    assert_eq!(tut.valid_move(start_cell, &(2, 1)), true);
}

#[test]
fn test_valid_move_from_middle() {
    let mut tut = Board::new(None);
    let start_cell = &Cell { x: 3, y: 3 };
    tut.visit(start_cell, 0);
    assert_eq!(tut.valid_move(start_cell, &(-1, -2)), true);
    assert_eq!(tut.valid_move(start_cell, &(-1, 2)), true);
    assert_eq!(tut.valid_move(start_cell, &(-2, 1)), true);
    assert_eq!(tut.valid_move(start_cell, &(1, -2)), true);
    assert_eq!(tut.valid_move(start_cell, &(1, 2)), true);
    assert_eq!(tut.valid_move(start_cell, &(2, -1)), true);
    assert_eq!(tut.valid_move(start_cell, &(2, -1)), true);
    assert_eq!(tut.valid_move(start_cell, &(2, 1)), true);
}

#[test]
fn board_sizes_and_counts() {
    let tut = Board::new(Some(5));
    assert_eq!(tut.size(), 5);
    assert_eq!(tut.cell_count(), 25);
    assert_eq!(tut.max_index(), 4);
    assert_eq!(tut.cells.len(), 5);
}

#[test]
fn next_move_prefers_fewest_onward_moves() {
    let tut = Board::new(None);
    // From the corner both moves lead to cells with five onward moves; the
    // first in move order is kept.
    assert_eq!(tut.next_move(Cell { x: 0, y: 0 }), Some(Cell { x: 2, y: 1 }));
    let mut tut = Board::new(None);
    tut.visit(&Cell { x: 0, y: 0 }, 0);
    // From (1, 2) the corner is visited; (0, 4) has the fewest onward moves.
    assert_eq!(tut.next_move(Cell { x: 1, y: 2 }), Some(Cell { x: 0, y: 4 }));
    let mut tut = Board::new(Some(1));
    tut.visit(&Cell { x: 0, y: 0 }, 0);
    assert_eq!(tut.next_move(Cell { x: 0, y: 0 }), None);
}

fn all_visited(board: &Board) -> bool {
    board.cells.iter().all(|row| row.iter().all(|c| *c != UNVISITED))
}

#[test]
fn warnsdorff_tour_on_eight_by_eight() {
    let mut board = Board::new(None);
    assert!(find_tour(&mut board, Cell { x: 0, y: 0 }, 0));
    assert!(all_visited(&board));
    let mut numbers: Vec<isize> = board.cells.iter().flatten().copied().collect();
    numbers.sort();
    assert_eq!(numbers, (0..64).collect::<Vec<isize>>());
}

#[test]
fn backtracking_tour_on_five_by_five() {
    let mut board = Board::new(Some(5));
    board.visit(&Cell { x: 0, y: 0 }, 0);
    assert!(find_tour_backtracking(&mut board, Cell { x: 0, y: 0 }, 1));
    assert!(all_visited(&board));
    let mut at = vec![(0usize, 0usize); 25];
    for (x, row) in board.cells.iter().enumerate() {
        for (y, label) in row.iter().enumerate() {
            at[*label as usize] = (x, y);
        }
    }
    for k in 1..25 {
        let (x1, y1) = at[k - 1];
        let (x2, y2) = at[k];
        let dx = (x1 as isize - x2 as isize).abs();
        let dy = (y1 as isize - y2 as isize).abs();
        assert!((dx, dy) == (1, 2) || (dx, dy) == (2, 1));
    }
}

#[test]
fn backtracking_fails_and_restores_on_three_by_three() {
    let mut board = Board::new(Some(3));
    board.visit(&Cell { x: 0, y: 0 }, 0);
    assert!(!find_tour_backtracking(&mut board, Cell { x: 0, y: 0 }, 1));
    assert_eq!(board.cells[0][0], 0);
    let unvisited = board.cells.iter().flatten().filter(|c| **c == UNVISITED).count();
    assert_eq!(unvisited, 8);
}
