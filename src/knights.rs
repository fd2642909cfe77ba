//! Knight's tours on a square board: Warnsdorff's greedy rule and plain
//! backtracking.
use vstd::prelude::*;

verus! {

/// The mark of a cell that the knight has not visited.
pub const UNVISITED: isize = -1;

/// The side of a board when none is given.
pub const SIZE: usize = 8;

/// The `k`-th of the eight knight moves.
pub open spec fn knight_move(k: int) -> (int, int) {
    if k == 0 {
        (2, 1)
    } else if k == 1 {
        (1, 2)
    } else if k == 2 {
        (-1, 2)
    } else if k == 3 {
        (-2, 1)
    } else if k == 4 {
        (-2, -1)
    } else if k == 5 {
        (-1, -2)
    } else if k == 6 {
        (1, -2)
    } else {
        (2, -1)
    }
}

fn move_at(k: usize) -> (r: (isize, isize))
    requires
        k < 8,
    ensures
        r.0 == knight_move(k as int).0,
        r.1 == knight_move(k as int).1,
{
    match k {
        0 => (2, 1),
        1 => (1, 2),
        2 => (-1, 2),
        3 => (-2, 1),
        4 => (-2, -1),
        5 => (-1, -2),
        6 => (1, -2),
        _ => (2, -1),
    }
}

/// A square of the board.
#[derive(Debug, Clone, Copy, PartialEq, Eq)]
pub struct Cell {
    pub x: isize,
    pub y: isize,
}

/// The number of unvisited cells in a row.
pub open spec fn row_unvisited(r: Seq<isize>) -> nat
    decreases r.len(),
{
    if r.len() == 0 {
        0
    } else {
        row_unvisited(r.drop_last()) + if r.last() == UNVISITED {
            1nat
        } else {
            0nat
        }
    }
}

/// The number of unvisited cells in a list of rows.
pub open spec fn rows_unvisited(rows: Seq<Vec<isize>>) -> nat
    decreases rows.len(),
{
    if rows.len() == 0 {
        0
    } else {
        rows_unvisited(rows.drop_last()) + row_unvisited(rows.last()@)
    }
}

proof fn lemma_row_update(r: Seq<isize>, j: int, v: isize)
    requires
        0 <= j < r.len(),
    ensures
        row_unvisited(r.update(j, v)) + (if r[j] == UNVISITED {
            1nat
        } else {
            0nat
        }) == row_unvisited(r) + (if v == UNVISITED {
            1nat
        } else {
            0nat
        }),
    decreases r.len(),
{
    let u = r.update(j, v);
    if j < r.len() - 1 {
        assert(u.drop_last() =~= r.drop_last().update(j, v));
        lemma_row_update(r.drop_last(), j, v);
    } else {
        assert(u.drop_last() =~= r.drop_last());
    }
}

proof fn lemma_rows_update(rows: Seq<Vec<isize>>, i: int, row: Vec<isize>)
    requires
        0 <= i < rows.len(),
    ensures
        rows_unvisited(rows.update(i, row)) + row_unvisited(rows[i]@) == rows_unvisited(rows)
            + row_unvisited(row@),
    decreases rows.len(),
{
    let u = rows.update(i, row);
    if i < rows.len() - 1 {
        assert(u.drop_last() =~= rows.drop_last().update(i, row));
        lemma_rows_update(rows.drop_last(), i, row);
    } else {
        assert(u.drop_last() =~= rows.drop_last());
    }
}

proof fn lemma_rows_same_count(a: Seq<Vec<isize>>, b: Seq<Vec<isize>>)
    requires
        a.len() == b.len(),
        forall|i: int| 0 <= i < a.len() ==> #[trigger] a[i]@ == b[i]@,
    ensures
        rows_unvisited(a) == rows_unvisited(b),
    decreases a.len(),
{
    if a.len() > 0 {
        lemma_rows_same_count(a.drop_last(), b.drop_last());
        assert(a.last()@ == b[a.len() - 1]@);
    }
}

/// Where the `k`-th knight move from `(x, y)` lands.
pub open spec fn step_target(x: int, y: int, k: int) -> (int, int) {
    (x + knight_move(k).0, y + knight_move(k).1)
}

/// On grid `g`, the `k`-th knight move from `(x, y)` lands on an unvisited
/// cell.
pub open spec fn step_ok(g: Seq<Seq<isize>>, x: int, y: int, k: int) -> bool {
    let (a, b) = step_target(x, y, k);
    0 <= a < g.len() && 0 <= b < g.len() && g[a][b] == UNVISITED
}

/// The two cells are a knight's move apart.
pub open spec fn knight_apart(x1: int, y1: int, x2: int, y2: int) -> bool {
    exists|k: int| 0 <= k < 8 && #[trigger] step_target(x1, y1, k) == (x2, y2)
}

/// `g` with the cell at row `a`, column `b` marked `v`.
pub open spec fn mark(g: Seq<Seq<isize>>, a: int, b: int, v: isize) -> Seq<Seq<isize>> {
    g.update(a, g[a].update(b, v))
}

/// A knight at `(x, y)` that has made `count` visits on the square grid `g`
/// can go on to visit every cell, within `fuel` more moves.
pub open spec fn completes(g: Seq<Seq<isize>>, x: int, y: int, count: int, fuel: nat) -> bool
    decreases fuel,
{
    if count == g.len() * g.len() {
        true
    } else if fuel == 0 {
        false
    } else {
        exists|k: int|
            0 <= k < 8 && #[trigger] step_ok(g, x, y, k) && completes(
                mark(g, step_target(x, y, k).0, step_target(x, y, k).1, count as isize),
                step_target(x, y, k).0,
                step_target(x, y, k).1,
                count + 1,
                (fuel - 1) as nat,
            )
    }
}

proof fn lemma_none_unvisited(rows: Seq<Vec<isize>>)
    requires
        rows_unvisited(rows) == 0,
    ensures
        forall|x: int, y: int|
            0 <= x < rows.len() && 0 <= y < rows[x]@.len() ==> #[trigger] rows[x]@[y] != UNVISITED,
    decreases rows.len(),
{
    if rows.len() > 0 {
        lemma_none_unvisited(rows.drop_last());
        lemma_row_none_unvisited(rows.last()@);
        assert forall|x: int, y: int|
            0 <= x < rows.len() && 0 <= y < rows[x]@.len() implies #[trigger] rows[x]@[y]
                != UNVISITED by {
            if x < rows.len() - 1 {
                assert(rows.drop_last()[x] == rows[x]);
            }
        }
    }
}

proof fn lemma_row_none_unvisited(r: Seq<isize>)
    requires
        row_unvisited(r) == 0,
    ensures
        forall|y: int| 0 <= y < r.len() ==> #[trigger] r[y] != UNVISITED,
    decreases r.len(),
{
    if r.len() > 0 {
        lemma_row_none_unvisited(r.drop_last());
        assert forall|y: int| 0 <= y < r.len() implies #[trigger] r[y] != UNVISITED by {
            if y < r.len() - 1 {
                assert(r.drop_last()[y] == r[y]);
            }
        }
    }
}

pub struct Board {
    pub size: usize,
    pub cells: Vec<Vec<isize>>,
}

impl Board {
    /// The board is square, with `size` rows of `size` cells each.
    pub open spec fn wf(&self) -> bool {
        &&& 1 <= self.size
        &&& self.size * self.size <= isize::MAX
        &&& self.cells@.len() == self.size
        &&& forall|i: int| 0 <= i < self.size ==> (#[trigger] self.cells@[i])@.len() == self.size
    }

    /// The mark held by the cell at row `x`, column `y`.
    pub open spec fn holds(&self, x: int, y: int) -> isize {
        self.cells@[x]@[y]
    }

    pub open spec fn on_board(&self, x: int, y: int) -> bool {
        0 <= x < self.size && 0 <= y < self.size
    }

    /// The marks of the board, row by row.
    pub open spec fn grid(&self) -> Seq<Seq<isize>> {
        self.cells@.map_values(|r: Vec<isize>| r@)
    }

    proof fn lemma_grid_holds(&self)
        requires
            self.wf(),
        ensures
            self.grid().len() == self.size,
            forall|x: int| 0 <= x < self.size ==> (#[trigger] self.grid()[x]).len() == self.size,
            forall|x: int, y: int| self.on_board(x, y) ==> #[trigger] self.grid()[x][y] == self.holds(x, y),
    {
    }

    /// Every visited cell is numbered below `count`.
    pub open spec fn labels_below(&self, count: int) -> bool {
        forall|x: int, y: int|
            self.on_board(x, y) && #[trigger] self.holds(x, y) != UNVISITED ==> 0 <= self.holds(x, y)
                < count
    }

    /// No two visited cells carry the same number.
    pub open spec fn labels_distinct(&self) -> bool {
        forall|x1: int, y1: int, x2: int, y2: int|
            self.on_board(x1, y1) && self.on_board(x2, y2) && (x1 != x2 || y1 != y2)
                && #[trigger] self.holds(x1, y1) != UNVISITED ==> #[trigger] self.holds(x2, y2)
                != self.holds(x1, y1)
    }

    /// Cells numbered one after the other are a knight's move apart.
    pub open spec fn labels_chain(&self) -> bool {
        forall|x1: int, y1: int, x2: int, y2: int|
            self.on_board(x1, y1) && self.on_board(x2, y2) && #[trigger] self.holds(x1, y1)
                != UNVISITED && #[trigger] self.holds(x2, y2) == self.holds(x1, y1) + 1
                ==> knight_apart(x1, y1, x2, y2)
    }

    /// The number of cells not yet visited.
    pub open spec fn unvisited(&self) -> nat {
        rows_unvisited(self.cells@)
    }

    /// From `pos`, the knight move `m` lands on an unvisited cell.
    pub open spec fn can_move(&self, pos: Cell, m: (int, int)) -> bool {
        let (x, y) = (pos.x + m.0, pos.y + m.1);
        self.on_board(x, y) && self.holds(x, y) == UNVISITED
    }

    /// The cells that the first `k` knight moves from `pos` reach unvisited,
    /// in the order of the moves.
    pub open spec fn moves_from(&self, pos: Cell, k: int) -> Seq<Cell>
        decreases k,
    {
        if k <= 0 {
            Seq::empty()
        } else {
            let m = knight_move(k - 1);
            let rest = self.moves_from(pos, k - 1);
            if self.can_move(pos, m) {
                rest.push(Cell { x: (pos.x + m.0) as isize, y: (pos.y + m.1) as isize })
            } else {
                rest
            }
        }
    }

    proof fn lemma_moves_land_unvisited(&self, pos: Cell, k: int)
        requires
            self.wf(),
            self.on_board(pos.x as int, pos.y as int),
        ensures
            forall|t: int|
                0 <= t < self.moves_from(pos, k).len() ==> {
                    let c = #[trigger] self.moves_from(pos, k)[t];
                    self.on_board(c.x as int, c.y as int) && self.holds(c.x as int, c.y as int)
                        == UNVISITED
                },
        decreases k,
    {
        if k > 0 {
            self.lemma_moves_land_unvisited(pos, k - 1);
            let rest = self.moves_from(pos, k - 1);
            let all = self.moves_from(pos, k);
            assert forall|t: int| 0 <= t < all.len() implies {
                let c = #[trigger] all[t];
                self.on_board(c.x as int, c.y as int) && self.holds(c.x as int, c.y as int)
                    == UNVISITED
            } by {
                self.lemma_side_small();
                if t < rest.len() {
                    assert(all[t] == rest[t]);
                } else {
                    let m = knight_move(k - 1);
                    assert(self.can_move(pos, m));
                    assert(all[t] == Cell {
                        x: (pos.x + m.0) as isize,
                        y: (pos.y + m.1) as isize,
                    });
                    assert(((pos.x + m.0) as isize) as int == pos.x + m.0);
                    assert(((pos.y + m.1) as isize) as int == pos.y + m.1);
                }
            }
        }
    }

    /// A side that fits a board leaves room for a knight's step past it.
    proof fn lemma_side_small(&self)
        requires
            self.wf(),
        ensures
            self.size + 2 <= isize::MAX,
    {
        assert(self.size + 2 <= self.size * self.size || self.size == 1) by (nonlinear_arith)
            requires
                self.size >= 1,
        ;
    }

    /// An empty board of side `size`, 8 when none is given.
    pub fn new(size: Option<usize>) -> (r: Board)
        requires
            ({
                let n = match size {
                    Some(n) => n,
                    None => SIZE,
                };
                1 <= n && n * n <= isize::MAX
            }),
        ensures
            r.wf(),
            r.size == match size {
                Some(n) => n,
                None => SIZE,
            },
            forall|x: int, y: int| r.on_board(x, y) ==> #[trigger] r.holds(x, y) == UNVISITED,
            r.unvisited() == r.size * r.size,
    {
        let n = match size {
            Some(n) => n,
            None => SIZE,
        };
        let mut cells: Vec<Vec<isize>> = Vec::new();
        let mut i: usize = 0;
        while i < n
            invariant
                i <= n,
                1 <= n,
                n * n <= isize::MAX,
                cells@.len() == i,
                forall|a: int| 0 <= a < i ==> (#[trigger] cells@[a])@.len() == n,
                forall|a: int, b: int|
                    0 <= a < i && 0 <= b < n ==> #[trigger] cells@[a]@[b] == UNVISITED,
                rows_unvisited(cells@) == i * n,
            decreases n - i,
        {
            let mut row: Vec<isize> = Vec::new();
            let mut j: usize = 0;
            while j < n
                invariant
                    j <= n,
                    row@.len() == j,
                    forall|b: int| 0 <= b < j ==> #[trigger] row@[b] == UNVISITED,
                    row_unvisited(row@) == j,
                decreases n - j,
            {
                let ghost before = row@;
                row.push(UNVISITED);
                proof {
                    assert(row@.drop_last() =~= before);
                }
                j += 1;
            }
            let ghost before = cells@;
            cells.push(row);
            proof {
                assert(cells@.drop_last() =~= before);
                assert((i + 1) * n == i * n + n) by (nonlinear_arith);
            }
            i += 1;
        }
        Board { size: n, cells }
    }

    /// The number of cells.
    pub fn cell_count(&self) -> (r: usize)
        requires
            self.wf(),
        ensures
            r == self.size * self.size,
    {
        self.size * self.size
    }

    pub fn size(&self) -> (r: usize)
        ensures
            r == self.size,
    {
        self.size
    }

    /// The largest row or column index.
    pub fn max_index(&self) -> (r: isize)
        requires
            self.wf(),
        ensures
            r == self.size - 1,
    {
        proof {
            assert(self.size <= self.size * self.size) by (nonlinear_arith)
                requires
                    self.size >= 1,
            ;
        }
        (self.size - 1) as isize
    }

    /// Marks the cell with `val`.
    pub fn visit(&mut self, cell: &Cell, val: isize)
        requires
            old(self).wf(),
            old(self).on_board(cell.x as int, cell.y as int),
        ensures
            final(self).wf(),
            final(self).size == old(self).size,
            forall|x: int, y: int|
                final(self).on_board(x, y) ==> #[trigger] final(self).holds(x, y) == if x
                    == cell.x && y == cell.y {
                    val
                } else {
                    old(self).holds(x, y)
                },
            final(self).unvisited() + (if old(self).holds(cell.x as int, cell.y as int)
                == UNVISITED {
                1nat
            } else {
                0nat
            }) == old(self).unvisited() + (if val == UNVISITED {
                1nat
            } else {
                0nat
            }),
    {
        let x = cell.x as usize;
        let y = cell.y as usize;
        let ghost rows = self.cells@;
        self.cells[x].set(y, val);
        proof {
            assert(self.cells@ == rows.update(x as int, self.cells@[x as int]));
            lemma_row_update(rows[x as int]@, y as int, val);
            lemma_rows_update(rows, x as int, self.cells@[x as int]);
            assert forall|i: int| 0 <= i < self.size implies (#[trigger] self.cells@[i])@.len()
                == self.size by {
                if i != x {
                    assert(self.cells@[i] == rows[i]);
                }
            }
            assert forall|a: int, b: int| self.on_board(a, b) implies #[trigger] self.holds(a, b)
                == if a == cell.x && b == cell.y {
                val
            } else {
                old(self).holds(a, b)
            } by {
                if a != x {
                    assert(self.cells@[a] == rows[a]);
                }
            }
        }
    }

    /// Whether the cell has been visited.
    pub fn visited(&self, cell: &Cell) -> (r: bool)
        requires
            self.wf(),
            self.on_board(cell.x as int, cell.y as int),
        ensures
            r == (self.holds(cell.x as int, cell.y as int) != UNVISITED),
    {
        self.cells[cell.x as usize][cell.y as usize] != UNVISITED
    }

    /// Whether the knight move `m` from `pos` lands on an unvisited cell of
    /// the board.
    pub fn valid_move(&self, pos: &Cell, m: &(isize, isize)) -> (r: bool)
        requires
            self.wf(),
            self.on_board(pos.x as int, pos.y as int),
            -2 <= m.0 <= 2,
            -2 <= m.1 <= 2,
        ensures
            r == self.can_move(*pos, (m.0 as int, m.1 as int)),
    {
        proof {
            self.lemma_side_small();
        }
        let max = self.max_index();
        if pos.x + m.0 > max || pos.x + m.0 < 0 {
            return false;
        }
        if pos.y + m.1 > max || pos.y + m.1 < 0 {
            return false;
        }
        if self.visited(&Cell { x: pos.x + m.0, y: pos.y + m.1 }) {
            return false;
        }
        true
    }

    /// The unvisited cells that a knight at `pos` can move to, in the order
    /// of the eight moves.
    pub fn moves(&self, pos: Cell) -> (r: Vec<Cell>)
        requires
            self.wf(),
            self.on_board(pos.x as int, pos.y as int),
        ensures
            r@ == self.moves_from(pos, 8),
    {
        let mut r: Vec<Cell> = Vec::new();
        let mut k: usize = 0;
        while k < 8
            invariant
                self.wf(),
                self.on_board(pos.x as int, pos.y as int),
                k <= 8,
                r@ == self.moves_from(pos, k as int),
            decreases 8 - k,
        {
            let m = move_at(k);
            proof {
                self.lemma_side_small();
            }
            if self.valid_move(&pos, &m) {
                r.push(Cell { x: pos.x + m.0, y: pos.y + m.1 });
            }
            k += 1;
        }
        r
    }

    /// The next cell by Warnsdorff's rule: of the cells the knight can move
    /// to, one with the fewest onward moves.
    pub fn next_move(&self, pos: Cell) -> (r: Option<Cell>)
        requires
            self.wf(),
            self.on_board(pos.x as int, pos.y as int),
        ensures
            r is None <==> self.moves_from(pos, 8).len() == 0,
            r matches Some(c) ==> {
                &&& self.moves_from(pos, 8).contains(c)
                &&& forall|t: int|
                    0 <= t < self.moves_from(pos, 8).len() ==> self.moves_from(c, 8).len()
                        <= #[trigger] self.moves_from(self.moves_from(pos, 8)[t], 8).len()
            },
    {
        let moves = self.moves(pos);
        if moves.len() < 1 {
            return None;
        }
        proof {
            self.lemma_moves_land_unvisited(pos, 8);
        }
        let mut best: usize = 0;
        let mut best_paths = self.moves(moves[0]).len();
        let mut t: usize = 1;
        while t < moves.len()
            invariant
                self.wf(),
                moves@ == self.moves_from(pos, 8),
                forall|u: int|
                    0 <= u < moves@.len() ==> self.on_board(
                        (#[trigger] moves@[u]).x as int,
                        moves@[u].y as int,
                    ),
                1 <= t <= moves@.len(),
                best < t,
                best_paths == self.moves_from(moves@[best as int], 8).len(),
                forall|u: int|
                    0 <= u < t ==> best_paths <= #[trigger] self.moves_from(moves@[u], 8).len(),
            decreases moves@.len() - t,
        {
            let paths = self.moves(moves[t]).len();
            if paths < best_paths {
                best = t;
                best_paths = paths;
            }
            t += 1;
        }
        Some(moves[best])
    }
}

/// Walks a knight's tour from `cell` by Warnsdorff's rule, numbering the
/// cells from `count` on. Returns whether every cell got visited.
pub fn find_tour(board: &mut Board, cell: Cell, count: isize) -> (r: bool)
    requires
        old(board).wf(),
        old(board).on_board(cell.x as int, cell.y as int),
        old(board).holds(cell.x as int, cell.y as int) == UNVISITED,
        0 <= count,
        count + old(board).unvisited() == old(board).size * old(board).size,
    ensures
        final(board).wf(),
        final(board).size == old(board).size,
        r == (final(board).unvisited() == 0),
    decreases old(board).unvisited(),
{
    board.visit(&cell, count);
    match board.next_move(cell) {
        Some(next_cell) => {
            proof {
                board.lemma_moves_land_unvisited(cell, 8);
                let t = choose|t: int|
                    0 <= t < board.moves_from(cell, 8).len() && board.moves_from(cell, 8)[t]
                        == next_cell;
                assert(board.moves_from(cell, 8)[t] == next_cell);
            }
            find_tour(board, next_cell, count + 1)
        },
        None => {
            count == board.cell_count() as isize - 1
        },
    }
}

/// Searches for a knight's tour from `cell` by backtracking, numbering the
/// cells from `count` on; `cell` itself is already visited. Returns whether
/// the path so far extends to a tour of the whole board; on success the
/// whole board is visited, otherwise it is left as it was.
pub fn find_tour_backtracking(board: &mut Board, cell: Cell, count: isize) -> (r: bool)
    requires
        old(board).wf(),
        old(board).on_board(cell.x as int, cell.y as int),
        1 <= count,
        count + old(board).unvisited() == old(board).size * old(board).size,
        old(board).holds(cell.x as int, cell.y as int) == count - 1,
        old(board).labels_below(count as int),
        old(board).labels_distinct(),
        old(board).labels_chain(),
    ensures
        final(board).wf(),
        final(board).size == old(board).size,
        r ==> final(board).labels_distinct() && final(board).labels_chain(),
        r == completes(
            old(board).grid(),
            cell.x as int,
            cell.y as int,
            count as int,
            old(board).unvisited(),
        ),
        r ==> final(board).unvisited() == 0,
        r ==> forall|x: int, y: int|
            old(board).on_board(x, y) ==> if old(board).holds(x, y) == UNVISITED {
                #[trigger] final(board).holds(x, y) >= count
            } else {
                final(board).holds(x, y) == old(board).holds(x, y)
            },
        !r ==> final(board).unvisited() == old(board).unvisited(),
        !r ==> forall|x: int, y: int|
            final(board).on_board(x, y) ==> #[trigger] final(board).holds(x, y) == old(
                board,
            ).holds(x, y),
    decreases old(board).unvisited(),
{
    let ghost g = old(board).grid();
    let ghost fuel = old(board).unvisited();
    proof {
        old(board).lemma_grid_holds();
        assert(g.len() == board.size);
    }
    if count as usize == board.size() * board.size() {
        proof {
            lemma_none_unvisited(board.cells@);
        }
        return true;
    }
    let mut i: usize = 0;
    while i < 8
        invariant
            board.wf(),
            board.size == old(board).size,
            g == old(board).grid(),
            g.len() == board.size,
            forall|x: int| 0 <= x < board.size ==> (#[trigger] g[x]).len() == board.size,
            forall|x: int, y: int|
                0 <= x < board.size && 0 <= y < board.size ==> #[trigger] g[x][y] == old(
                    board,
                ).holds(x, y),
            fuel == old(board).unvisited(),
            board.unvisited() == old(board).unvisited(),
            forall|x: int, y: int|
                board.on_board(x, y) ==> #[trigger] board.holds(x, y) == old(board).holds(x, y),
            board.on_board(cell.x as int, cell.y as int),
            1 <= count,
            count + old(board).unvisited() == old(board).size * old(board).size,
            count < old(board).size * old(board).size,
            old(board).holds(cell.x as int, cell.y as int) == count - 1,
            old(board).labels_below(count as int),
            old(board).labels_distinct(),
            old(board).labels_chain(),
            i <= 8,
            forall|k: int|
                0 <= k < i ==> !(#[trigger] step_ok(g, cell.x as int, cell.y as int, k) && completes(
                    mark(
                        g,
                        step_target(cell.x as int, cell.y as int, k).0,
                        step_target(cell.x as int, cell.y as int, k).1,
                        count,
                    ),
                    step_target(cell.x as int, cell.y as int, k).0,
                    step_target(cell.x as int, cell.y as int, k).1,
                    count + 1,
                    (fuel - 1) as nat,
                )),
        decreases 8 - i,
    {
        let m = move_at(i);
        proof {
            board.lemma_side_small();
            board.lemma_grid_holds();
        }
        let ghost t = step_target(cell.x as int, cell.y as int, i as int);
        if board.valid_move(&cell, &(m.0, m.1)) {
            let c = Cell { x: cell.x + m.0, y: cell.y + m.1 };
            proof {
                assert(step_ok(g, cell.x as int, cell.y as int, i as int));
            }
            board.visit(&c, count);
            let ghost mid = *board;
            proof {
                mid.lemma_grid_holds();
                assert(mid.grid() =~~= mark(g, t.0, t.1, count)) by {
                    assert forall|x: int| 0 <= x < g.len() implies #[trigger] mid.grid()[x] =~= mark(
                        g,
                        t.0,
                        t.1,
                        count,
                    )[x] by {
                        assert forall|y: int| 0 <= y < g.len() implies mid.grid()[x][y] == mark(
                            g,
                            t.0,
                            t.1,
                            count,
                        )[x][y] by {
                            assert(mid.holds(x, y) == mid.grid()[x][y]);
                            assert(c.x == t.0 && c.y == t.1);
                            assert(g[x][y] == old(board).holds(x, y));
                        }
                        assert(mid.grid()[x].len() == g.len());
                    }
                }
            }
            proof {
                let mx = c.x as int;
                let my = c.y as int;
                assert(old(board).holds(mx, my) == UNVISITED);
                assert forall|x: int, y: int| mid.on_board(x, y) implies #[trigger] mid.holds(x, y)
                    == if x == mx && y == my {
                    count
                } else {
                    old(board).holds(x, y)
                } by {}
                assert(mid.labels_below(count + 1));
                assert(mid.labels_distinct()) by {
                    assert forall|x1: int, y1: int, x2: int, y2: int|
                        mid.on_board(x1, y1) && mid.on_board(x2, y2) && (x1 != x2 || y1 != y2)
                            && #[trigger] mid.holds(x1, y1) != UNVISITED implies #[trigger] mid.holds(
                        x2,
                        y2,
                    ) != mid.holds(x1, y1) by {
                        if (x1 == mx && y1 == my) {
                            assert(old(board).holds(x2, y2) == UNVISITED || old(board).holds(x2, y2) < count);
                        } else if (x2 == mx && y2 == my) {
                            assert(old(board).holds(x1, y1) < count);
                        } else {
                            assert(old(board).holds(x1, y1) != UNVISITED);
                        }
                    }
                }
                assert(mid.labels_chain()) by {
                    assert forall|x1: int, y1: int, x2: int, y2: int|
                        mid.on_board(x1, y1) && mid.on_board(x2, y2) && #[trigger] mid.holds(x1, y1)
                            != UNVISITED && #[trigger] mid.holds(x2, y2) == mid.holds(x1, y1) + 1
                            implies knight_apart(x1, y1, x2, y2) by {
                        if x2 == mx && y2 == my {
                            if x1 != cell.x || y1 != cell.y {
                                assert(old(board).holds(x1, y1) != UNVISITED);
                                assert(old(board).holds(cell.x as int, cell.y as int) != UNVISITED);
                            }
                            assert(step_target(cell.x as int, cell.y as int, i as int) == (x2, y2));
                        } else if x1 == mx && y1 == my {
                            assert(old(board).holds(x2, y2) < count);
                        } else {
                            assert(old(board).holds(x1, y1) != UNVISITED);
                            assert(old(board).holds(x2, y2) == old(board).holds(x1, y1) + 1);
                        }
                    }
                }
            }
            if find_tour_backtracking(board, c, count + 1) {
                proof {
                    assert(step_ok(g, cell.x as int, cell.y as int, i as int));
                    assert forall|x: int, y: int| old(board).on_board(x, y) implies if old(board).holds(x, y) == UNVISITED {
                        #[trigger] board.holds(x, y) >= count
                    } else {
                        board.holds(x, y) == old(board).holds(x, y)
                    } by {
                        assert(mid.on_board(x, y));
                        assert(mid.holds(x, y) == if x == c.x && y == c.y { count } else { old(board).holds(x, y) });
                    }
                }
                return true;
            }
            board.visit(&c, UNVISITED);
        } else {
            proof {
                assert(!step_ok(g, cell.x as int, cell.y as int, i as int));
            }
        }
        i += 1;
    }
    false
}

} // verus!
