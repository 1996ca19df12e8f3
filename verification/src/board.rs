//! A square tic-tac-toe board with walls. Players take turns marking empty
//! cells; the game is over when no cell is empty, and the score is the number
//! of three-in-a-row lines (across, down, and along both diagonals) held by X
//! minus the number held by O.
use vstd::prelude::*;

verus! {

/// The largest board side this library plays on.
pub const MAX_SIZE: usize = 64;

/// The content of a cell.
#[derive(Clone, Copy, Debug, PartialEq, Eq, Structural)]
pub enum Cell {
    X,
    O,
    Empty,
    Wall,
}

/// A player.
#[derive(Clone, Copy, Debug, PartialEq, Eq, Structural)]
pub enum Player {
    X,
    O,
}

/// The mark a player puts on a cell.
pub open spec fn mark(p: Player) -> Cell {
    match p {
        Player::X => Cell::X,
        Player::O => Cell::O,
    }
}

/// The other player.
pub open spec fn other(p: Player) -> Player {
    match p {
        Player::X => Player::O,
        Player::O => Player::X,
    }
}

/// A board: `cells[i][j]` is the cell in row `i` and column `j`.
#[derive(Debug)]
pub struct Board {
    cells: Vec<Vec<Cell>>,
}

/// The model of a board is its grid of cells.
pub open spec fn grid_view(cells: Seq<Vec<Cell>>) -> Seq<Seq<Cell>> {
    cells.map_values(|r: Vec<Cell>| r@)
}

impl View for Board {
    type V = Seq<Seq<Cell>>;

    closed spec fn view(&self) -> Seq<Seq<Cell>> {
        grid_view(self.cells@)
    }
}

/// The grid is square, of side at most [`MAX_SIZE`].
pub open spec fn wf(b: Seq<Seq<Cell>>) -> bool {
    &&& b.len() <= MAX_SIZE
    &&& forall|i: int| 0 <= i < b.len() ==> (#[trigger] b[i]).len() == b.len()
}

/// The grid with cell `(i, j)` replaced by `c`.
pub open spec fn with_cell(b: Seq<Seq<Cell>>, i: int, j: int, c: Cell) -> Seq<Seq<Cell>> {
    b.update(i, b[i].update(j, c))
}

/// The empty cells of row `i` among its first `j` columns, left to right.
pub open spec fn row_moves(b: Seq<Seq<Cell>>, i: int, j: int) -> Seq<(usize, usize)>
    decreases j,
{
    if j <= 0 {
        Seq::empty()
    } else if b[i][j - 1] == Cell::Empty {
        row_moves(b, i, j - 1).push((i as usize, (j - 1) as usize))
    } else {
        row_moves(b, i, j - 1)
    }
}

/// The empty cells of the first `i` rows, row by row.
pub open spec fn moves_upto(b: Seq<Seq<Cell>>, i: int) -> Seq<(usize, usize)>
    decreases i,
{
    if i <= 0 {
        Seq::empty()
    } else {
        moves_upto(b, i - 1) + row_moves(b, i - 1, b.len() as int)
    }
}

/// The empty cells of the board, row by row and left to right.
pub open spec fn moves(b: Seq<Seq<Cell>>) -> Seq<(usize, usize)> {
    moves_upto(b, b.len() as int)
}

/// No cell is empty.
pub open spec fn game_over(b: Seq<Seq<Cell>>) -> bool {
    moves(b).len() == 0
}

/// The cell at `(i, j)`, or a wall outside the board.
pub open spec fn cell_at(b: Seq<Seq<Cell>>, i: int, j: int) -> Cell {
    if 0 <= i < b.len() && 0 <= j < b[i].len() {
        b[i][j]
    } else {
        Cell::Wall
    }
}

/// The line of three cells from `(i, j)` in direction `(di, dj)` lies on the board.
pub open spec fn line_fits(n: int, i: int, j: int, di: int, dj: int) -> bool {
    0 <= i < n && 0 <= j < n && 0 <= i + 2 * di < n && 0 <= j + 2 * dj < n
}

/// 1 if X holds the three cells, -1 if O does, 0 otherwise.
pub open spec fn line_value(b: Seq<Seq<Cell>>, i: int, j: int, di: int, dj: int) -> int {
    let a = cell_at(b, i, j);
    let c = cell_at(b, i + di, j + dj);
    let d = cell_at(b, i + 2 * di, j + 2 * dj);
    if !line_fits(b.len() as int, i, j, di, dj) {
        0
    } else if a == Cell::X && c == Cell::X && d == Cell::X {
        1
    } else if a == Cell::O && c == Cell::O && d == Cell::O {
        -1
    } else {
        0
    }
}

/// The lines that start at `(i, j)`: across, down, down-right and down-left.
pub open spec fn lines_at(b: Seq<Seq<Cell>>, i: int, j: int) -> int {
    line_value(b, i, j, 0, 1) + line_value(b, i, j, 1, 0) + line_value(b, i, j, 1, 1)
        + line_value(b, i, j, 1, -1)
}

/// The lines that start in row `i` among its first `j` columns.
pub open spec fn score_row(b: Seq<Seq<Cell>>, i: int, j: int) -> int
    decreases j,
{
    if j <= 0 {
        0
    } else {
        score_row(b, i, j - 1) + lines_at(b, i, j - 1)
    }
}

/// The lines that start in the first `i` rows.
pub open spec fn score_upto(b: Seq<Seq<Cell>>, i: int) -> int
    decreases i,
{
    if i <= 0 {
        0
    } else {
        score_upto(b, i - 1) + score_row(b, i - 1, b.len() as int)
    }
}

/// Lines of three held by X minus lines of three held by O.
pub open spec fn score(b: Seq<Seq<Cell>>) -> int {
    score_upto(b, b.len() as int)
}

proof fn lemma_lines_at_bounds(b: Seq<Seq<Cell>>, i: int, j: int)
    ensures
        -4 <= lines_at(b, i, j) <= 4,
{
}

/// The score of a row prefix is at most four lines per cell.
pub proof fn lemma_score_row_bounds(b: Seq<Seq<Cell>>, i: int, j: int)
    requires
        0 <= j,
    ensures
        -4 * j <= score_row(b, i, j) <= 4 * j,
    decreases j,
{
    if j > 0 {
        lemma_score_row_bounds(b, i, j - 1);
        lemma_lines_at_bounds(b, i, j - 1);
    }
}

/// The score of the first `i` rows is at most four lines per cell.
pub proof fn lemma_score_upto_bounds(b: Seq<Seq<Cell>>, i: int)
    requires
        0 <= i,
    ensures
        -4 * (i * b.len()) <= score_upto(b, i) <= 4 * (i * b.len()),
    decreases i,
{
    if i > 0 {
        let n = b.len() as int;
        lemma_score_upto_bounds(b, i - 1);
        lemma_score_row_bounds(b, i - 1, n);
        assert((i - 1) * n + n == i * n) by (nonlinear_arith);
    }
}

/// The score lies between minus and plus four times the number of cells.
pub proof fn lemma_score_bounds(b: Seq<Seq<Cell>>)
    requires
        wf(b),
    ensures
        -4 * 64 * 64 <= score(b) <= 4 * 64 * 64,
{
    let n = b.len() as int;
    lemma_score_upto_bounds(b, n);
    assert(n * n <= 64 * 64) by (nonlinear_arith)
        requires
            0 <= n <= 64,
    ;
}

/// The moves of a row prefix are empty cells of that row, left of `j`.
pub proof fn lemma_row_moves(b: Seq<Seq<Cell>>, i: int, j: int)
    requires
        0 <= i < MAX_SIZE,
        0 <= j <= MAX_SIZE,
    ensures
        forall|k: int|
            0 <= k < row_moves(b, i, j).len() ==> {
                let m = #[trigger] row_moves(b, i, j)[k];
                m.0 == i && m.1 < j && b[i][m.1 as int] == Cell::Empty
            },
    decreases j,
{
    if j > 0 {
        lemma_row_moves(b, i, j - 1);
    }
}

/// The moves of the first `i` rows are empty cells of those rows.
pub proof fn lemma_moves_upto(b: Seq<Seq<Cell>>, i: int)
    requires
        wf(b),
        0 <= i <= b.len(),
    ensures
        forall|k: int|
            0 <= k < moves_upto(b, i).len() ==> {
                let m = #[trigger] moves_upto(b, i)[k];
                m.0 < i && m.1 < b.len() && b[m.0 as int][m.1 as int] == Cell::Empty
            },
    decreases i,
{
    if i > 0 {
        lemma_moves_upto(b, i - 1);
        let prev = moves_upto(b, i - 1);
        let row = row_moves(b, i - 1, b.len() as int);
        lemma_row_moves(b, i - 1, b.len() as int);
        assert forall|k: int| 0 <= k < moves_upto(b, i).len() implies {
            let m = #[trigger] moves_upto(b, i)[k];
            m.0 < i && m.1 < b.len() && b[m.0 as int][m.1 as int] == Cell::Empty
        } by {
            if k < prev.len() {
                assert(moves_upto(b, i)[k] == prev[k]);
            } else {
                assert(moves_upto(b, i)[k] == row[k - prev.len()]);
            }
        }
    }
}

/// The moves of a board are empty cells of the board.
pub proof fn lemma_moves(b: Seq<Seq<Cell>>)
    requires
        wf(b),
    ensures
        forall|k: int|
            0 <= k < moves(b).len() ==> {
                let m = #[trigger] moves(b)[k];
                m.0 < b.len() && m.1 < b.len() && b[m.0 as int][m.1 as int] == Cell::Empty
            },
{
    lemma_moves_upto(b, b.len() as int);
}

/// Marking a cell and clearing it again gives back a board whose cell was empty.
pub proof fn lemma_set_back(b: Seq<Seq<Cell>>, i: int, j: int, c: Cell)
    requires
        wf(b),
        0 <= i < b.len(),
        0 <= j < b.len(),
        b[i][j] == Cell::Empty,
    ensures
        with_cell(with_cell(b, i, j, c), i, j, Cell::Empty) == b,
        wf(with_cell(b, i, j, c)),
{
    assert(with_cell(with_cell(b, i, j, c), i, j, Cell::Empty)[i] =~= b[i]);
    assert(with_cell(with_cell(b, i, j, c), i, j, Cell::Empty) =~= b);
    assert forall|k: int| 0 <= k < with_cell(b, i, j, c).len() implies (#[trigger] with_cell(
        b,
        i,
        j,
        c,
    )[k]).len() == with_cell(b, i, j, c).len() by {
        if k != i {
            assert(with_cell(b, i, j, c)[k] == b[k]);
        }
    }
}

impl Board {
    /// An empty board of the given side.
    pub fn new(size: usize) -> (r: Board)
        requires
            size <= MAX_SIZE,
        ensures
            wf(r@),
            r@.len() == size,
            forall|i: int, j: int| 0 <= i < size && 0 <= j < size ==> r@[i][j] == Cell::Empty,
    {
        let mut cells: Vec<Vec<Cell>> = Vec::new();
        let mut i: usize = 0;
        while i < size
            invariant
                i <= size,
                cells@.len() == i,
                forall|k: int| 0 <= k < i ==> (#[trigger] cells@[k])@.len() == size,
                forall|k: int, j: int| 0 <= k < i && 0 <= j < size ==> cells@[k]@[j] == Cell::Empty,
            decreases size - i,
        {
            let mut row: Vec<Cell> = Vec::new();
            let mut j: usize = 0;
            while j < size
                invariant
                    j <= size,
                    row@.len() == j,
                    forall|k: int| 0 <= k < j ==> row@[k] == Cell::Empty,
                decreases size - j,
            {
                row.push(Cell::Empty);
                j = j + 1;
            }
            cells.push(row);
            i = i + 1;
        }
        Board { cells }
    }

    /// The side of the board.
    pub fn size(&self) -> (r: usize)
        ensures
            r == self@.len(),
    {
        self.cells.len()
    }

    /// The rows of cells.
    pub fn get_cells(&self) -> (r: &Vec<Vec<Cell>>)
        ensures
            grid_view(r@) == self@,
    {
        &self.cells
    }

    /// The cell at row `i`, column `j`.
    pub fn get_cell(&self, i: usize, j: usize) -> (r: Cell)
        requires
            wf(self@),
            i < self@.len(),
            j < self@.len(),
        ensures
            r == self@[i as int][j as int],
    {
        assert(self.cells@[i as int]@ == self@[i as int]);
        self.cells[i][j]
    }

    /// Puts `c` in the cell at row `i`, column `j`.
    pub fn set_cell(&mut self, i: usize, j: usize, c: Cell)
        requires
            wf(old(self)@),
            i < old(self)@.len(),
            j < old(self)@.len(),
        ensures
            final(self)@ == with_cell(old(self)@, i as int, j as int, c),
            wf(final(self)@),
    {
        let ghost b = self@;
        assert(self.cells@[i as int]@ == b[i as int]);
        let mut row = self.cells.remove(i);
        row.set(j, c);
        self.cells.insert(i, row);
        assert(self@ =~= with_cell(b, i as int, j as int, c));
        assert forall|k: int| 0 <= k < self@.len() implies (#[trigger] self@[k]).len() == self@.len() by {
            if k != i {
                assert(self@[k] == b[k]);
            }
        }
    }

    /// Marks the cell `m` for `player`.
    pub fn apply_move(&mut self, m: (usize, usize), player: Player)
        requires
            wf(old(self)@),
            m.0 < old(self)@.len(),
            m.1 < old(self)@.len(),
        ensures
            final(self)@ == with_cell(old(self)@, m.0 as int, m.1 as int, mark(player)),
            wf(final(self)@),
    {
        let c = match player {
            Player::X => Cell::X,
            Player::O => Cell::O,
        };
        self.set_cell(m.0, m.1, c);
    }

    /// Clears the cell `m` that `player` marked.
    pub fn undo_move(&mut self, m: (usize, usize), player: Player)
        requires
            wf(old(self)@),
            m.0 < old(self)@.len(),
            m.1 < old(self)@.len(),
        ensures
            final(self)@ == with_cell(old(self)@, m.0 as int, m.1 as int, Cell::Empty),
            wf(final(self)@),
    {
        self.set_cell(m.0, m.1, Cell::Empty);
    }

    /// The empty cells, row by row and left to right.
    pub fn moves(&self) -> (r: Vec<(usize, usize)>)
        requires
            wf(self@),
        ensures
            r@ == moves(self@),
    {
        let n = self.cells.len();
        let mut out: Vec<(usize, usize)> = Vec::new();
        let mut i: usize = 0;
        while i < n
            invariant
                n == self@.len(),
                wf(self@),
                i <= n,
                out@ == moves_upto(self@, i as int),
            decreases n - i,
        {
            let ghost base = out@;
            let mut j: usize = 0;
            while j < n
                invariant
                    n == self@.len(),
                    wf(self@),
                    i < n,
                    j <= n,
                    base == moves_upto(self@, i as int),
                    out@ == base + row_moves(self@, i as int, j as int),
                decreases n - j,
            {
                if self.get_cell(i, j) == Cell::Empty {
                    out.push((i, j));
                }
                assert(out@ =~= base + row_moves(self@, i as int, j + 1));
                j = j + 1;
            }
            i = i + 1;
        }
        out
    }

    /// Whether no cell is empty.
    pub fn game_over(&self) -> (r: bool)
        requires
            wf(self@),
        ensures
            r == game_over(self@),
    {
        let n = self.cells.len();
        let mut i: usize = 0;
        while i < n
            invariant
                n == self@.len(),
                wf(self@),
                i <= n,
                moves_upto(self@, i as int).len() == 0,
            decreases n - i,
        {
            let mut j: usize = 0;
            while j < n
                invariant
                    n == self@.len(),
                    wf(self@),
                    i < n,
                    j <= n,
                    moves_upto(self@, i as int).len() == 0,
                    row_moves(self@, i as int, j as int).len() == 0,
                decreases n - j,
            {
                if self.get_cell(i, j) == Cell::Empty {
                    proof {
                        lemma_row_moves_grow(self@, i as int, j as int + 1, n as int);
                        lemma_moves_upto_grow(self@, i as int + 1, n as int);
                    }
                    return false;
                }
                j = j + 1;
            }
            i = i + 1;
        }
        true
    }

    /// The cell at `(i, j)` as seen by the score: a wall outside the board.
    fn cell_or_wall(&self, i: i64, j: i64) -> (r: Cell)
        requires
            wf(self@),
        ensures
            r == cell_at(self@, i as int, j as int),
    {
        let n = self.cells.len() as i64;
        if 0 <= i && i < n && 0 <= j && j < n {
            self.get_cell(i as usize, j as usize)
        } else {
            Cell::Wall
        }
    }

    fn line_value_exec(&self, i: i64, j: i64, di: i64, dj: i64) -> (r: i32)
        requires
            wf(self@),
            0 <= i < 64,
            0 <= j < 64,
            -1 <= di <= 1,
            -1 <= dj <= 1,
        ensures
            r == line_value(self@, i as int, j as int, di as int, dj as int),
    {
        let n = self.cells.len() as i64;
        let fits = 0 <= i + 2 * di && i + 2 * di < n && 0 <= j + 2 * dj && j + 2 * dj < n && i < n
            && j < n;
        if !fits {
            return 0;
        }
        let a = self.cell_or_wall(i, j);
        let c = self.cell_or_wall(i + di, j + dj);
        let d = self.cell_or_wall(i + 2 * di, j + 2 * dj);
        if a == Cell::X && c == Cell::X && d == Cell::X {
            1
        } else if a == Cell::O && c == Cell::O && d == Cell::O {
            -1
        } else {
            0
        }
    }

    /// Lines of three held by X minus lines of three held by O.
    pub fn score(&self) -> (r: i32)
        requires
            wf(self@),
        ensures
            r == score(self@),
    {
        let n = self.cells.len();
        let mut total: i32 = 0;
        let mut i: usize = 0;
        while i < n
            invariant
                n == self@.len(),
                wf(self@),
                i <= n,
                total == score_upto(self@, i as int),
            decreases n - i,
        {
            let mut row_total: i32 = 0;
            let mut j: usize = 0;
            while j < n
                invariant
                    n == self@.len(),
                    wf(self@),
                    i < n,
                    j <= n,
                    row_total == score_row(self@, i as int, j as int),
                decreases n - j,
            {
                proof {
                    lemma_score_row_bounds(self@, i as int, j as int);
                }
                let ii = i as i64;
                let jj = j as i64;
                let here = self.line_value_exec(ii, jj, 0, 1) + self.line_value_exec(ii, jj, 1, 0)
                    + self.line_value_exec(ii, jj, 1, 1) + self.line_value_exec(ii, jj, 1, -1);
                row_total = row_total + here;
                j = j + 1;
            }
            proof {
                assert(score_upto(self@, i as int + 1) == total + row_total);
                lemma_score_upto_bounds(self@, i as int + 1);
                assert((i + 1) * n <= 64 * 64) by (nonlinear_arith)
                    requires
                        i < n,
                        n <= 64,
                ;
            }
            total = total + row_total;
            i = i + 1;
        }
        total
    }
}

/// A row prefix with an empty cell has a move.
proof fn lemma_row_moves_grow(b: Seq<Seq<Cell>>, i: int, j: int, n: int)
    requires
        0 < j <= n,
        b[i][j - 1] == Cell::Empty,
    ensures
        row_moves(b, i, n).len() > 0,
    decreases n - j,
{
    if j < n {
        lemma_row_moves_grow(b, i, j, n - 1);
    }
}

/// A row with a move makes the board have a move.
proof fn lemma_moves_upto_grow(b: Seq<Seq<Cell>>, i: int, k: int)
    requires
        0 < i <= k,
        row_moves(b, i - 1, b.len() as int).len() > 0,
    ensures
        moves_upto(b, k).len() > 0,
    decreases k - i,
{
    if i < k {
        lemma_moves_upto_grow(b, i, k - 1);
    }
}

/// Marking an empty cell of row `i` leaves one empty cell fewer in that row
/// (counting the columns before `j`), and changes no other row.
proof fn lemma_row_moves_fill(b: Seq<Seq<Cell>>, r: int, c: int, x: Cell, i: int, j: int)
    requires
        wf(b),
        0 <= r < b.len(),
        0 <= c < b.len(),
        b[r][c] == Cell::Empty,
        x != Cell::Empty,
        0 <= i < b.len(),
        0 <= j <= b.len(),
    ensures
        row_moves(with_cell(b, r, c, x), i, j).len() == row_moves(b, i, j).len() - if i == r && j
            > c {
            1int
        } else {
            0int
        },
    decreases j,
{
    if j > 0 {
        lemma_row_moves_fill(b, r, c, x, i, j - 1);
        let b2 = with_cell(b, r, c, x);
        assert(b[i].len() == b.len());
        if i == r {
            assert(b2[i] == b[i].update(c, x));
        } else {
            assert(b2[i] == b[i]);
        }
    }
}

proof fn lemma_moves_upto_fill(b: Seq<Seq<Cell>>, r: int, c: int, x: Cell, k: int)
    requires
        wf(b),
        0 <= r < b.len(),
        0 <= c < b.len(),
        b[r][c] == Cell::Empty,
        x != Cell::Empty,
        0 <= k <= b.len(),
    ensures
        moves_upto(with_cell(b, r, c, x), k).len() == moves_upto(b, k).len() - if k > r {
            1int
        } else {
            0int
        },
    decreases k,
{
    if k > 0 {
        lemma_moves_upto_fill(b, r, c, x, k - 1);
        lemma_row_moves_fill(b, r, c, x, k - 1, b.len() as int);
    }
}

/// Marking an empty cell leaves exactly one empty cell fewer.
pub proof fn lemma_moves_fill(b: Seq<Seq<Cell>>, r: int, c: int, x: Cell)
    requires
        wf(b),
        0 <= r < b.len(),
        0 <= c < b.len(),
        b[r][c] == Cell::Empty,
        x != Cell::Empty,
    ensures
        moves(with_cell(b, r, c, x)).len() == moves(b).len() - 1,
{
    lemma_moves_upto_fill(b, r, c, x, b.len() as int);
}

} // verus!
