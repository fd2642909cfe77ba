use dynprog::queens::{cell_is_safe, place_queens_1, place_queens_4, EMPTY, QUEEN};

fn empty_board(n: usize) -> Vec<Vec<char>> {
    vec![vec![EMPTY; n]; n]
}

fn is_solution(board: &[Vec<char>]) -> bool {
    let n = board.len();
    let queens: Vec<(usize, usize)> = (0..n)
        .flat_map(|k| (0..n).map(move |l| (k, l)))
        .filter(|&(k, l)| board[k][l] == QUEEN)
        .collect();
    if queens.len() != n {
        return false;
    }
    for (a, &(k1, l1)) in queens.iter().enumerate() {
        for &(k2, l2) in &queens[a + 1..] {
            if k1 == k2 || l1 == l2 || k1 + l1 == k2 + l2 || k1 + l2 == k2 + l1 {
                return false;
            }
        }
    }
    true
}

#[test]
fn places_four_queens() {
    let mut board = empty_board(4);
    assert!(place_queens_1(&mut board, 0, 0));
    assert!(is_solution(&board));
}

#[test]
fn places_eight_queens_by_column_index() {
    let mut board = empty_board(8);
    assert!(place_queens_4(&mut board, 0));
    assert!(is_solution(&board));
}

#[test]
fn three_queens_have_no_solution() {
    let mut board = empty_board(3);
    assert!(!place_queens_1(&mut board, 0, 0));
    assert_eq!(board, empty_board(3));
    let mut board = empty_board(2);
    assert!(!place_queens_4(&mut board, 0));
    assert_eq!(board, empty_board(2));
}

#[test]
fn safety_checks_column_and_diagonals() {
    let mut board = empty_board(4);
    board[1][1] = QUEEN;
    assert!(!cell_is_safe(&board, 3, 1));
    assert!(!cell_is_safe(&board, 0, 0));
    assert!(!cell_is_safe(&board, 0, 2));
    assert!(!cell_is_safe(&board, 3, 3));
    assert!(cell_is_safe(&board, 0, 3));
    assert!(cell_is_safe(&board, 3, 2));
}
