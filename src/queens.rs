//! The n-queens puzzle by backtracking, one queen per row.
use vstd::prelude::*;

verus! {

pub const QUEEN: char = 'Q';

pub const EMPTY: char = '.';

/// `b` is an `n` by `n` board.
pub open spec fn square(b: Seq<Vec<char>>, n: int) -> bool {
    b.len() == n && forall|k: int| 0 <= k < n ==> (#[trigger] b[k])@.len() == n
}

pub open spec fn queen_at(b: Seq<Vec<char>>, k: int, l: int) -> bool {
    b[k]@[l] == QUEEN
}

/// Queens on these two squares would attack each other: same row, column
/// or diagonal.
pub open spec fn attacks(k1: int, l1: int, k2: int, l2: int) -> bool {
    k1 == k2 || l1 == l2 || k1 + l1 == k2 + l2 || k1 + l2 == k2 + l1
}

/// No two queens on the board attack each other.
pub open spec fn peaceful(b: Seq<Vec<char>>, n: int) -> bool {
    forall|k1: int, l1: int, k2: int, l2: int|
        0 <= k1 < n && 0 <= l1 < n && 0 <= k2 < n && 0 <= l2 < n && #[trigger] queen_at(b, k1, l1)
            && #[trigger] queen_at(b, k2, l2) && (k1 != k2 || l1 != l2) ==> !attacks(
            k1,
            l1,
            k2,
            l2,
        )
}

/// Row `k` holds a queen.
pub open spec fn row_has_queen(b: Seq<Vec<char>>, n: int, k: int) -> bool {
    exists|l: int| 0 <= l < n && #[trigger] queen_at(b, k, l)
}

/// Rows from `row` on hold no queen.
pub open spec fn rows_clear_from(b: Seq<Vec<char>>, n: int, row: int) -> bool {
    forall|k: int, l: int| row <= k < n && 0 <= l < n ==> b[k]@[l] == EMPTY
}

/// Whether no queen on the board shares the column or a diagonal of the
/// square `(row, col)`.
pub fn cell_is_safe(board: &Vec<Vec<char>>, row: usize, col: usize) -> (r: bool)
    requires
        square(board@, board@.len() as int),
        board@.len() <= usize::MAX / 2,
        row < board@.len(),
        col < board@.len(),
    ensures
        r == forall|k: int, l: int|
            0 <= k < board@.len() && 0 <= l < board@.len() && #[trigger] queen_at(board@, k, l)
                ==> !(l == col || k + l == row + col || k + col == row + l),
{
    let n = board.len();
    let mut i: usize = 0;
    while i < board[row].len()
        invariant
            n == board@.len(),
            n <= usize::MAX / 2,
            square(board@, n as int),
            row < n,
            col < n,
            i <= n,
            forall|k: int| 0 <= k < i ==> !queen_at(board@, k, col as int),
        decreases n - i,
    {
        if board[i][col] == QUEEN {
            proof {
                assert(queen_at(board@, i as int, col as int));
            }
            return false;
        }
        i += 1;
    }
    let mut k: usize = 0;
    while k < n
        invariant
            n == board@.len(),
            n <= usize::MAX / 2,
            square(board@, n as int),
            row < n,
            col < n,
            k <= n,
            forall|a: int| 0 <= a < n ==> !queen_at(board@, a, col as int),
            forall|a: int, l: int|
                0 <= a < k && 0 <= l < n && #[trigger] queen_at(board@, a, l) ==> !(a + l == row
                    + col || a + col == row + l),
        decreases n - k,
    {
        let mut l: usize = 0;
        while l < n
            invariant
                n == board@.len(),
                n <= usize::MAX / 2,
                square(board@, n as int),
                row < n,
                col < n,
                k < n,
                l <= n,
                forall|a: int| 0 <= a < n ==> !queen_at(board@, a, col as int),
                forall|a: int, b: int|
                    0 <= a < k && 0 <= b < n && #[trigger] queen_at(board@, a, b) ==> !(a + b
                        == row + col || a + col == row + b),
                forall|b: int|
                    0 <= b < l && #[trigger] queen_at(board@, k as int, b) ==> !(k + b == row
                        + col || k + col == row + b),
            decreases n - l,
        {
            if k + l == row + col || k + col == row + l {
                if board[k][l] == QUEEN {
                    proof {
                        assert(queen_at(board@, k as int, l as int));
                    }
                    return false;
                }
            }
            l += 1;
        }
        k += 1;
    }
    true
}

fn set_square(board: &mut Vec<Vec<char>>, row: usize, col: usize, c: char)
    requires
        square(old(board)@, old(board)@.len() as int),
        row < old(board)@.len(),
        col < old(board)@.len(),
    ensures
        square(final(board)@, old(board)@.len() as int),
        forall|k: int, l: int|
            0 <= k < old(board)@.len() && 0 <= l < old(board)@.len() ==> #[trigger] final(board)@[k]@[l] == if k == row && l == col {
                c
            } else {
                old(board)@[k]@[l]
            },
{
    let ghost rows = board@;
    board[row].set(col, c);
    proof {
        assert forall|k: int| 0 <= k < rows.len() implies (#[trigger] board@[k])@.len()
            == rows.len() by {
            if k != row {
                assert(board@[k] == rows[k]);
            }
        }
        assert forall|k: int, l: int|
            0 <= k < rows.len() && 0 <= l < rows.len() implies #[trigger] board@[k]@[l] == if k
                == row && l == col {
                c
            } else {
                rows[k]@[l]
            } by {
            if k != row {
                assert(board@[k] == rows[k]);
            }
        }
    }
}

/// Places queens on rows `row..n`, one per row, so that none attacks
/// another; returns whether it succeeded. On failure the board is left as
/// it was.
pub fn place_queens_1(board: &mut Vec<Vec<char>>, row: usize, _col: usize) -> (r: bool)
    requires
        square(old(board)@, old(board)@.len() as int),
        old(board)@.len() <= usize::MAX / 2,
        row <= old(board)@.len(),
        peaceful(old(board)@, old(board)@.len() as int),
        rows_clear_from(old(board)@, old(board)@.len() as int, row as int),
    ensures
        square(final(board)@, old(board)@.len() as int),
        r ==> peaceful(final(board)@, old(board)@.len() as int),
        r ==> forall|k: int|
            row <= k < old(board)@.len() ==> #[trigger] row_has_queen(
                final(board)@,
                old(board)@.len() as int,
                k,
            ),
        forall|k: int, l: int|
            0 <= k < row && 0 <= l < old(board)@.len() ==> #[trigger] final(board)@[k]@[l]
                == old(board)@[k]@[l],
        !r ==> forall|k: int, l: int|
            0 <= k < old(board)@.len() && 0 <= l < old(board)@.len() ==> #[trigger] final(board)@[k]@[l] == old(board)@[k]@[l],
    decreases old(board)@.len() - row,
{
    let n = board.len();
    if row == n {
        return true;
    }
    let mut col: usize = 0;
    while col < n
        invariant
            n == board@.len() == old(board)@.len(),
            n <= usize::MAX / 2,
            row < n,
            col <= n,
            square(board@, n as int),
            forall|k: int, l: int|
                0 <= k < n && 0 <= l < n ==> #[trigger] board@[k]@[l] == old(board)@[k]@[l],
            peaceful(old(board)@, n as int),
            rows_clear_from(old(board)@, n as int, row as int),
        decreases n - col,
    {
        if cell_is_safe(board, row, col) {
            let ghost pre = board@;
            set_square(board, row, col, QUEEN);
            proof {
                let b = board@;
                assert forall|k: int, l: int| (row + 1) <= k < n && 0 <= l < n implies b[k]@[l]
                    == EMPTY by {
                    assert(old(board)@[k]@[l] == EMPTY);
                }
                assert forall|k1: int, l1: int, k2: int, l2: int|
                    0 <= k1 < n && 0 <= l1 < n && 0 <= k2 < n && 0 <= l2 < n && #[trigger] queen_at(
                        b,
                        k1,
                        l1,
                    ) && #[trigger] queen_at(b, k2, l2) && (k1 != k2 || l1 != l2) implies !attacks(
                    k1,
                    l1,
                    k2,
                    l2,
                ) by {
                    if (k1 == row && l1 == col) {
                        assert(queen_at(old(board)@, k2, l2));
                        assert(queen_at(pre, k2, l2));
                        if k2 == row {
                            assert(old(board)@[k2]@[l2] == EMPTY);
                        }
                    } else if (k2 == row && l2 == col) {
                        assert(queen_at(old(board)@, k1, l1));
                        assert(queen_at(pre, k1, l1));
                        if k1 == row {
                            assert(old(board)@[k1]@[l1] == EMPTY);
                        }
                    } else {
                        assert(queen_at(old(board)@, k1, l1));
                        assert(queen_at(old(board)@, k2, l2));
                    }
                }
            }
            if place_queens_1(board, row + 1, col) {
                proof {
                    assert(queen_at(board@, row as int, col as int));
                }
                return true;
            }
            set_square(board, row, col, EMPTY);
            proof {
                assert(old(board)@[row as int]@[col as int] == EMPTY);
            }
        }
        col += 1;
    }
    false
}

/// The same search as [`place_queens_1`], indexed by `col` for the row
/// that it fills.
pub fn place_queens_4(board: &mut Vec<Vec<char>>, col: usize) -> (r: bool)
    requires
        square(old(board)@, old(board)@.len() as int),
        old(board)@.len() <= usize::MAX / 2,
        col <= old(board)@.len(),
        peaceful(old(board)@, old(board)@.len() as int),
        rows_clear_from(old(board)@, old(board)@.len() as int, col as int),
    ensures
        square(final(board)@, old(board)@.len() as int),
        r ==> peaceful(final(board)@, old(board)@.len() as int),
        r ==> forall|k: int|
            col <= k < old(board)@.len() ==> #[trigger] row_has_queen(
                final(board)@,
                old(board)@.len() as int,
                k,
            ),
        forall|k: int, l: int|
            0 <= k < col && 0 <= l < old(board)@.len() ==> #[trigger] final(board)@[k]@[l]
                == old(board)@[k]@[l],
        !r ==> forall|k: int, l: int|
            0 <= k < old(board)@.len() && 0 <= l < old(board)@.len() ==> #[trigger] final(board)@[k]@[l] == old(board)@[k]@[l],
    decreases old(board)@.len() - col,
{
    let n = board.len();
    if col == n {
        return true;
    }
    let mut row: usize = 0;
    while row < n
        invariant
            n == board@.len() == old(board)@.len(),
            n <= usize::MAX / 2,
            col < n,
            row <= n,
            square(board@, n as int),
            forall|k: int, l: int|
                0 <= k < n && 0 <= l < n ==> #[trigger] board@[k]@[l] == old(board)@[k]@[l],
            peaceful(old(board)@, n as int),
            rows_clear_from(old(board)@, n as int, col as int),
        decreases n - row,
    {
        if cell_is_safe(board, col, row) {
            let ghost pre = board@;
            set_square(board, col, row, QUEEN);
            proof {
                let b = board@;
                assert forall|k: int, l: int| (col + 1) <= k < n && 0 <= l < n implies b[k]@[l]
                    == EMPTY by {
                    assert(old(board)@[k]@[l] == EMPTY);
                }
                assert forall|k1: int, l1: int, k2: int, l2: int|
                    0 <= k1 < n && 0 <= l1 < n && 0 <= k2 < n && 0 <= l2 < n && #[trigger] queen_at(
                        b,
                        k1,
                        l1,
                    ) && #[trigger] queen_at(b, k2, l2) && (k1 != k2 || l1 != l2) implies !attacks(
                    k1,
                    l1,
                    k2,
                    l2,
                ) by {
                    if (k1 == col && l1 == row) {
                        assert(queen_at(old(board)@, k2, l2));
                        assert(queen_at(pre, k2, l2));
                        if k2 == col {
                            assert(old(board)@[k2]@[l2] == EMPTY);
                        }
                    } else if (k2 == col && l2 == row) {
                        assert(queen_at(old(board)@, k1, l1));
                        assert(queen_at(pre, k1, l1));
                        if k1 == col {
                            assert(old(board)@[k1]@[l1] == EMPTY);
                        }
                    } else {
                        assert(queen_at(old(board)@, k1, l1));
                        assert(queen_at(old(board)@, k2, l2));
                    }
                }
            }
            if place_queens_4(board, col + 1) {
                proof {
                    assert(queen_at(board@, col as int, row as int));
                }
                return true;
            }
            set_square(board, col, row, EMPTY);
            proof {
                assert(old(board)@[col as int]@[row as int] == EMPTY);
            }
        }
        row += 1;
    }
    false
}

} // verus!
