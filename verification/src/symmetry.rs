//! The evaluation of a board does not depend on which way the board is
//! turned about its main diagonal: rows and columns play the same part.
use vstd::prelude::*;
use crate::board::{Cell, Player, cell_at, line_value, lines_at, score, score_row, score_upto, wf};
use crate::agent::{
    center_bonus, center_row, center_upto, heuristic, window_score, windows_at, windows_row,
    windows_upto,
};

verus! {

// ---------------------------------------------------------------------------
// Sums over a grid
// ---------------------------------------------------------------------------

/// `f(i, 0) + ... + f(i, k - 1)`.
pub open spec fn row_sum(f: spec_fn(int, int) -> int, i: int, k: int) -> int
    decreases k,
{
    if k <= 0 {
        0
    } else {
        row_sum(f, i, k - 1) + f(i, k - 1)
    }
}

/// `f(0, j) + ... + f(k - 1, j)`.
pub open spec fn col_sum(f: spec_fn(int, int) -> int, j: int, k: int) -> int
    decreases k,
{
    if k <= 0 {
        0
    } else {
        col_sum(f, j, k - 1) + f(k - 1, j)
    }
}

/// The sum of `f` over the first `k` rows and `m` columns.
pub open spec fn grid_sum(f: spec_fn(int, int) -> int, k: int, m: int) -> int
    decreases k,
{
    if k <= 0 {
        0
    } else {
        grid_sum(f, k - 1, m) + row_sum(f, k - 1, m)
    }
}

/// `f` with its arguments exchanged.
pub open spec fn swapped(f: spec_fn(int, int) -> int) -> spec_fn(int, int) -> int {
    |i: int, j: int| f(j, i)
}

proof fn lemma_row_sum_swapped(f: spec_fn(int, int) -> int, i: int, k: int)
    ensures
        row_sum(swapped(f), i, k) == col_sum(f, i, k),
    decreases k,
{
    if k > 0 {
        lemma_row_sum_swapped(f, i, k - 1);
    }
}

proof fn lemma_col_sum_swapped(f: spec_fn(int, int) -> int, j: int, k: int)
    ensures
        col_sum(swapped(f), j, k) == row_sum(f, j, k),
    decreases k,
{
    if k > 0 {
        lemma_col_sum_swapped(f, j, k - 1);
    }
}

/// One more column adds that column's sum.
proof fn lemma_grid_add_col(f: spec_fn(int, int) -> int, k: int, m: int)
    requires
        m >= 0,
    ensures
        grid_sum(f, k, m + 1) == grid_sum(f, k, m) + col_sum(f, m, k),
    decreases k,
{
    if k > 0 {
        lemma_grid_add_col(f, k - 1, m);
    }
}

/// Summing a square grid by rows or by columns gives the same.
pub proof fn lemma_grid_swap(f: spec_fn(int, int) -> int, n: int)
    requires
        n >= 0,
    ensures
        grid_sum(f, n, n) == grid_sum(swapped(f), n, n),
    decreases n,
{
    if n > 0 {
        let g = swapped(f);
        lemma_grid_swap(f, n - 1);
        lemma_grid_add_col(f, n - 1, n - 1);
        lemma_grid_add_col(g, n - 1, n - 1);
        lemma_row_sum_swapped(f, n - 1, n - 1);
        lemma_col_sum_swapped(f, n - 1, n - 1);
        assert(row_sum(f, n - 1, n) == row_sum(f, n - 1, n - 1) + f(n - 1, n - 1));
        assert(row_sum(g, n - 1, n) == row_sum(g, n - 1, n - 1) + g(n - 1, n - 1));
    }
}

/// Row `i` of `f` and row `i2` of `g` agree on the first `k` columns.
proof fn lemma_row_sum_ext(
    f: spec_fn(int, int) -> int,
    i: int,
    g: spec_fn(int, int) -> int,
    i2: int,
    k: int,
)
    requires
        forall|j: int| 0 <= j < k ==> #[trigger] f(i, j) == g(i2, j),
    ensures
        row_sum(f, i, k) == row_sum(g, i2, k),
    decreases k,
{
    if k > 0 {
        lemma_row_sum_ext(f, i, g, i2, k - 1);
    }
}

/// A row that is zero on its first `k` columns sums to zero.
proof fn lemma_row_sum_zero(f: spec_fn(int, int) -> int, i: int, k: int)
    requires
        forall|j: int| 0 <= j < k ==> #[trigger] f(i, j) == 0,
    ensures
        row_sum(f, i, k) == 0,
    decreases k,
{
    if k > 0 {
        lemma_row_sum_zero(f, i, k - 1);
    }
}

/// Sums of functions that agree on the grid agree.
pub proof fn lemma_grid_ext(f: spec_fn(int, int) -> int, g: spec_fn(int, int) -> int, k: int, m: int)
    requires
        forall|i: int, j: int| 0 <= i < k && 0 <= j < m ==> #[trigger] f(i, j) == g(i, j),
    ensures
        grid_sum(f, k, m) == grid_sum(g, k, m),
    decreases k,
{
    if k > 0 {
        lemma_grid_ext(f, g, k - 1, m);
        lemma_row_sum_ext(f, k - 1, g, k - 1, m);
    }
}

proof fn lemma_row_sum_add(
    f: spec_fn(int, int) -> int,
    g: spec_fn(int, int) -> int,
    h: spec_fn(int, int) -> int,
    i: int,
    k: int,
)
    requires
        forall|a: int, b: int| #[trigger] h(a, b) == f(a, b) + g(a, b),
    ensures
        row_sum(h, i, k) == row_sum(f, i, k) + row_sum(g, i, k),
    decreases k,
{
    if k > 0 {
        lemma_row_sum_add(f, g, h, i, k - 1);
    }
}

/// The sum of a sum is the sum of the sums.
pub proof fn lemma_grid_add(
    f: spec_fn(int, int) -> int,
    g: spec_fn(int, int) -> int,
    h: spec_fn(int, int) -> int,
    k: int,
    m: int,
)
    requires
        forall|a: int, b: int| #[trigger] h(a, b) == f(a, b) + g(a, b),
    ensures
        grid_sum(h, k, m) == grid_sum(f, k, m) + grid_sum(g, k, m),
    decreases k,
{
    if k > 0 {
        lemma_grid_add(f, g, h, k - 1, m);
        lemma_row_sum_add(f, g, h, k - 1, m);
    }
}


/// Moving every column two places to the left drops the first two columns.
proof fn lemma_row_sum_shift_cols(f: spec_fn(int, int) -> int, i: int, m: int, k: int)
    requires
        0 <= k,
        k + 2 <= m,
    ensures
        row_sum(|a: int, c: int| if c + 2 < m { f(a, c + 2) } else { 0 }, i, k) == row_sum(f, i, k + 2)
            - f(i, 0) - f(i, 1),
    decreases k,
{
    let cs = |a: int, c: int| if c + 2 < m { f(a, c + 2) } else { 0 };
    assert(row_sum(f, i, 1) == row_sum(f, i, 0) + f(i, 0));
    assert(row_sum(f, i, 2) == row_sum(f, i, 1) + f(i, 1));
    if k > 0 {
        lemma_row_sum_shift_cols(f, i, m, k - 1);
        assert(row_sum(cs, i, k) == row_sum(cs, i, k - 1) + cs(i, k - 1));
        assert(row_sum(f, i, k + 2) == row_sum(f, i, k + 1) + f(i, k + 1));
    }
}

/// Moving every row two places down adds two empty rows on top.
proof fn lemma_grid_sum_shift_rows(f: spec_fn(int, int) -> int, k: int, m: int)
    requires
        k >= 2,
    ensures
        grid_sum(|a: int, c: int| if a >= 2 { f(a - 2, c) } else { 0 }, k, m) == grid_sum(f, k - 2, m),
    decreases k,
{
    let r = |a: int, c: int| if a >= 2 { f(a - 2, c) } else { 0 };
    if k == 2 {
        lemma_row_sum_zero(r, 0, m);
        lemma_row_sum_zero(r, 1, m);
        assert(grid_sum(r, 1, m) == grid_sum(r, 0, m) + row_sum(r, 0, m));
    } else {
        lemma_grid_sum_shift_rows(f, k - 1, m);
        lemma_row_sum_ext(r, k - 1, f, k - 3, m);
    }
}

/// A grid sum of a function that vanishes on the grid is zero.
proof fn lemma_grid_sum_zero(f: spec_fn(int, int) -> int, k: int, m: int)
    requires
        forall|i: int, j: int| 0 <= i < k && 0 <= j < m ==> #[trigger] f(i, j) == 0,
    ensures
        grid_sum(f, k, m) == 0,
    decreases k,
{
    if k > 0 {
        lemma_grid_sum_zero(f, k - 1, m);
        lemma_row_sum_zero(f, k - 1, m);
    }
}

/// Moving a function two rows down and two columns left keeps its sum over the
/// `n` by `n` grid, when it vanishes on the last two rows and the first two columns.
pub proof fn lemma_grid_shift(f: spec_fn(int, int) -> int, n: int)
    requires
        n >= 0,
        forall|i: int, j: int| 0 <= i < n && 0 <= j < n && (i + 2 >= n || j < 2) ==> #[trigger] f(i, j) == 0,
    ensures
        grid_sum(|a: int, c: int| if a >= 2 && c + 2 < n { f(a - 2, c + 2) } else { 0 }, n, n)
            == grid_sum(f, n, n),
{
    let s = |a: int, c: int| if a >= 2 && c + 2 < n { f(a - 2, c + 2) } else { 0 };
    if n < 2 {
        lemma_grid_sum_zero(s, n, n);
        lemma_grid_sum_zero(f, n, n);
    } else {
        let cs = |a: int, c: int| if c + 2 < n { f(a, c + 2) } else { 0 };
        let r = |a: int, c: int| if a >= 2 { cs(a - 2, c) } else { 0 };
        lemma_grid_ext(s, r, n, n);
        lemma_grid_sum_shift_rows(cs, n, n);
        // Each of the first n - 2 rows of the column shift sums as the row itself.
        assert forall|i: int| 0 <= i < n - 2 implies #[trigger] row_sum(cs, i, n) == row_sum(f, i, n) by {
            lemma_row_sum_shift_cols(f, i, n, n - 2);
            assert(row_sum(cs, i, n - 1) == row_sum(cs, i, n - 2) + cs(i, n - 2));
            assert(row_sum(cs, i, n) == row_sum(cs, i, n - 1) + cs(i, n - 1));
        }
        lemma_grid_rows_ext(cs, f, n - 2, n);
        // The last two rows of f are zero.
        lemma_row_sum_zero(f, n - 2, n);
        lemma_row_sum_zero(f, n - 1, n);
        assert(grid_sum(f, n, n) == grid_sum(f, n - 1, n) + row_sum(f, n - 1, n));
        assert(grid_sum(f, n - 1, n) == grid_sum(f, n - 2, n) + row_sum(f, n - 2, n));
    }
}

/// Grids whose rows have the same sums have the same sum.
proof fn lemma_grid_rows_ext(f: spec_fn(int, int) -> int, g: spec_fn(int, int) -> int, k: int, m: int)
    requires
        forall|i: int| 0 <= i < k ==> #[trigger] row_sum(f, i, m) == row_sum(g, i, m),
    ensures
        grid_sum(f, k, m) == grid_sum(g, k, m),
    decreases k,
{
    if k > 0 {
        lemma_grid_rows_ext(f, g, k - 1, m);
    }
}

// ---------------------------------------------------------------------------
// The transposed board
// ---------------------------------------------------------------------------

/// The board turned about its main diagonal: row `i` is column `i` of `b`.
pub open spec fn transpose(b: Seq<Seq<Cell>>) -> Seq<Seq<Cell>> {
    Seq::new(b.len(), |i: int| Seq::new(b.len(), |j: int| b[j][i]))
}

/// A turned board is a board.
pub proof fn lemma_transpose_wf(b: Seq<Seq<Cell>>)
    requires
        wf(b),
    ensures
        wf(transpose(b)),
        transpose(b).len() == b.len(),
        forall|i: int, j: int|
            0 <= i < b.len() && 0 <= j < b.len() ==> #[trigger] transpose(b)[i][j] == b[j][i],
{
}

// ---------------------------------------------------------------------------
// Windows, direction by direction
// ---------------------------------------------------------------------------

/// The across window that starts at a cell.
pub open spec fn across_windows(b: Seq<Seq<Cell>>, root: Player) -> spec_fn(int, int) -> int {
    |i: int, j: int|
        if j + 2 < b.len() {
            window_score(b[i][j], b[i][j + 1], b[i][j + 2], root)
        } else {
            0
        }
}

/// The down window that starts at a cell.
pub open spec fn down_windows(b: Seq<Seq<Cell>>, root: Player) -> spec_fn(int, int) -> int {
    |i: int, j: int|
        if i + 2 < b.len() {
            window_score(b[i][j], b[i + 1][j], b[i + 2][j], root)
        } else {
            0
        }
}

/// The down-right window that starts at a cell.
pub open spec fn diag_windows(b: Seq<Seq<Cell>>, root: Player) -> spec_fn(int, int) -> int {
    |i: int, j: int|
        if i + 2 < b.len() && j + 2 < b.len() {
            window_score(b[i][j], b[i + 1][j + 1], b[i + 2][j + 2], root)
        } else {
            0
        }
}

/// The down-left window that starts at a cell.
pub open spec fn anti_windows(b: Seq<Seq<Cell>>, root: Player) -> spec_fn(int, int) -> int {
    |i: int, j: int|
        if i + 2 < b.len() && j >= 2 {
            window_score(b[i][j], b[i + 1][j - 1], b[i + 2][j - 2], root)
        } else {
            0
        }
}

/// A window read backwards scores the same.
proof fn lemma_window_reversed(a: Cell, b: Cell, c: Cell, root: Player)
    ensures
        window_score(a, b, c, root) == window_score(c, b, a, root),
{
    reveal(window_score);
}

/// The windows total of an evaluation is, over every cell, the across, down,
/// down-right and down-left windows of three that start there and fit on the board.
pub proof fn windows_by_direction(b: Seq<Seq<Cell>>, root: Player)
    ensures
        windows_upto(b, root, b.len() as int) == grid_sum(across_windows(b, root), b.len() as int, b.len() as int)
            + grid_sum(down_windows(b, root), b.len() as int, b.len() as int)
            + grid_sum(diag_windows(b, root), b.len() as int, b.len() as int)
            + grid_sum(anti_windows(b, root), b.len() as int, b.len() as int),
{
    let n = b.len() as int;
    let a = across_windows(b, root);
    let d = down_windows(b, root);
    let g = diag_windows(b, root);
    let h = anti_windows(b, root);
    let ad = |x: int, y: int| a(x, y) + d(x, y);
    let adg = |x: int, y: int| ad(x, y) + g(x, y);
    let w = |x: int, y: int| windows_at(b, root, x, y);
    lemma_windows_upto_grid(b, root, n);
    lemma_grid_add(a, d, ad, n, n);
    lemma_grid_add(ad, g, adg, n, n);
    lemma_grid_add(adg, h, w, n, n);
}

proof fn lemma_windows_row_grid(b: Seq<Seq<Cell>>, root: Player, i: int, j: int)
    ensures
        windows_row(b, root, i, j) == row_sum(|x: int, y: int| windows_at(b, root, x, y), i, j),
    decreases j,
{
    if j > 0 {
        lemma_windows_row_grid(b, root, i, j - 1);
    }
}

proof fn lemma_windows_upto_grid(b: Seq<Seq<Cell>>, root: Player, i: int)
    ensures
        windows_upto(b, root, i) == grid_sum(|x: int, y: int| windows_at(b, root, x, y), i, b.len() as int),
    decreases i,
{
    if i > 0 {
        lemma_windows_upto_grid(b, root, i - 1);
        lemma_windows_row_grid(b, root, i - 1, b.len() as int);
    }
}

/// The windows of three are counted alike on a board and on the board turned
/// about its main diagonal: every across window of one is a down window of the
/// other, and each diagonal window is a diagonal window of the other.
pub proof fn windows_transpose_symmetry(b: Seq<Seq<Cell>>, root: Player)
    requires
        wf(b),
    ensures
        windows_upto(transpose(b), root, b.len() as int) == windows_upto(b, root, b.len() as int),
{
    let n = b.len() as int;
    let t = transpose(b);
    lemma_transpose_wf(b);
    windows_by_direction(b, root);
    windows_by_direction(t, root);
    // Across on the turned board is down on the board, and the other way round.
    lemma_grid_ext(across_windows(t, root), swapped(down_windows(b, root)), n, n);
    lemma_grid_swap(down_windows(b, root), n);
    lemma_grid_ext(down_windows(t, root), swapped(across_windows(b, root)), n, n);
    lemma_grid_swap(across_windows(b, root), n);
    lemma_grid_ext(diag_windows(t, root), swapped(diag_windows(b, root)), n, n);
    lemma_grid_swap(diag_windows(b, root), n);
    // A down-left window of the turned board is a down-left window of the
    // board read backwards, starting two rows up and two columns right.
    let ht = anti_windows(t, root);
    let hb = anti_windows(b, root);
    lemma_grid_swap(ht, n);
    assert forall|i: int, j: int| 0 <= i < n && 0 <= j < n implies #[trigger] swapped(ht)(i, j) == (
    if i >= 2 && j + 2 < n {
        hb(i - 2, j + 2)
    } else {
        0
    }) by {
        if i >= 2 && j + 2 < n {
            lemma_window_reversed(b[i - 2][j + 2], b[i - 1][j + 1], b[i][j], root);
        }
    }
    lemma_grid_ext(
        swapped(ht),
        |a: int, c: int| if a >= 2 && c + 2 < n { hb(a - 2, c + 2) } else { 0 },
        n,
        n,
    );
    lemma_grid_shift(hb, n);
}


// ---------------------------------------------------------------------------
// Centre bonuses
// ---------------------------------------------------------------------------

proof fn lemma_center_row_grid(b: Seq<Seq<Cell>>, root: Player, i: int, j: int)
    ensures
        center_row(b, root, i, j) == row_sum(|x: int, y: int| center_bonus(b, root, x, y), i, j),
    decreases j,
{
    if j > 0 {
        lemma_center_row_grid(b, root, i, j - 1);
    }
}

proof fn lemma_center_upto_grid(b: Seq<Seq<Cell>>, root: Player, i: int)
    ensures
        center_upto(b, root, i) == grid_sum(|x: int, y: int| center_bonus(b, root, x, y), i, b.len() as int),
    decreases i,
{
    if i > 0 {
        lemma_center_upto_grid(b, root, i - 1);
        lemma_center_row_grid(b, root, i - 1, b.len() as int);
    }
}

/// The centre bonuses add up alike on a board and on the board turned about
/// its main diagonal.
pub proof fn center_transpose_symmetry(b: Seq<Seq<Cell>>, root: Player)
    requires
        wf(b),
    ensures
        center_upto(transpose(b), root, b.len() as int) == center_upto(b, root, b.len() as int),
{
    let n = b.len() as int;
    let t = transpose(b);
    lemma_transpose_wf(b);
    let cb = |x: int, y: int| center_bonus(b, root, x, y);
    let ct = |x: int, y: int| center_bonus(t, root, x, y);
    lemma_center_upto_grid(b, root, n);
    lemma_center_upto_grid(t, root, n);
    lemma_grid_ext(ct, swapped(cb), n, n);
    lemma_grid_swap(cb, n);
}

// ---------------------------------------------------------------------------
// Lines of three
// ---------------------------------------------------------------------------

/// The line of three that starts at a cell in direction `(di, dj)`.
pub open spec fn lines_toward(b: Seq<Seq<Cell>>, di: int, dj: int) -> spec_fn(int, int) -> int {
    |i: int, j: int| line_value(b, i, j, di, dj)
}

proof fn lemma_score_row_grid(b: Seq<Seq<Cell>>, i: int, j: int)
    ensures
        score_row(b, i, j) == row_sum(|x: int, y: int| lines_at(b, x, y), i, j),
    decreases j,
{
    if j > 0 {
        lemma_score_row_grid(b, i, j - 1);
    }
}

proof fn lemma_score_upto_grid(b: Seq<Seq<Cell>>, i: int)
    ensures
        score_upto(b, i) == grid_sum(|x: int, y: int| lines_at(b, x, y), i, b.len() as int),
    decreases i,
{
    if i > 0 {
        lemma_score_upto_grid(b, i - 1);
        lemma_score_row_grid(b, i - 1, b.len() as int);
    }
}

/// The score is, over every cell, the across, down, down-right and down-left
/// lines of three that start there and fit on the board.
pub proof fn score_by_direction(b: Seq<Seq<Cell>>)
    ensures
        score(b) == grid_sum(lines_toward(b, 0, 1), b.len() as int, b.len() as int)
            + grid_sum(lines_toward(b, 1, 0), b.len() as int, b.len() as int)
            + grid_sum(lines_toward(b, 1, 1), b.len() as int, b.len() as int)
            + grid_sum(lines_toward(b, 1, -1), b.len() as int, b.len() as int),
{
    let n = b.len() as int;
    let a = lines_toward(b, 0, 1);
    let d = lines_toward(b, 1, 0);
    let g = lines_toward(b, 1, 1);
    let h = lines_toward(b, 1, -1);
    let ad = |x: int, y: int| a(x, y) + d(x, y);
    let adg = |x: int, y: int| ad(x, y) + g(x, y);
    let w = |x: int, y: int| lines_at(b, x, y);
    lemma_score_upto_grid(b, n);
    lemma_grid_add(a, d, ad, n, n);
    lemma_grid_add(ad, g, adg, n, n);
    lemma_grid_add(adg, h, w, n, n);
}

/// A line on the turned board is the line with rows and columns exchanged on the board.
proof fn lemma_line_transpose(b: Seq<Seq<Cell>>, i: int, j: int, di: int, dj: int)
    requires
        wf(b),
    ensures
        line_value(transpose(b), i, j, di, dj) == line_value(b, j, i, dj, di),
{
    lemma_transpose_wf(b);
    let t = transpose(b);
    assert forall|x: int, y: int| #[trigger] cell_at(t, x, y) == cell_at(b, y, x) by {
        if 0 <= x < b.len() && 0 <= y < b.len() {
            assert(t[x].len() == b.len());
        }
    }
}

/// The score counts lines alike on a board and on the board turned about its
/// main diagonal.
pub proof fn score_transpose_symmetry(b: Seq<Seq<Cell>>)
    requires
        wf(b),
    ensures
        score(transpose(b)) == score(b),
{
    let n = b.len() as int;
    let t = transpose(b);
    lemma_transpose_wf(b);
    score_by_direction(b);
    score_by_direction(t);
    assert forall|i: int, j: int, di: int, dj: int| #[trigger] line_value(t, i, j, di, dj) == line_value(
        b,
        j,
        i,
        dj,
        di,
    ) by {
        lemma_line_transpose(b, i, j, di, dj);
    }
    lemma_grid_ext(lines_toward(t, 0, 1), swapped(lines_toward(b, 1, 0)), n, n);
    lemma_grid_swap(lines_toward(b, 1, 0), n);
    lemma_grid_ext(lines_toward(t, 1, 0), swapped(lines_toward(b, 0, 1)), n, n);
    lemma_grid_swap(lines_toward(b, 0, 1), n);
    lemma_grid_ext(lines_toward(t, 1, 1), swapped(lines_toward(b, 1, 1)), n, n);
    lemma_grid_swap(lines_toward(b, 1, 1), n);
    // A down-left line of the turned board is a down-left line of the board
    // read backwards, starting two rows up and two columns right.
    let ht = lines_toward(t, 1, -1);
    let hb = lines_toward(b, 1, -1);
    lemma_grid_swap(ht, n);
    assert forall|i: int, j: int| 0 <= i < n && 0 <= j < n implies #[trigger] swapped(ht)(i, j) == (
    if i >= 2 && j + 2 < n {
        hb(i - 2, j + 2)
    } else {
        0
    }) by {
        assert(swapped(ht)(i, j) == line_value(b, i, j, -1, 1));
    }
    lemma_grid_ext(
        swapped(ht),
        |a: int, c: int| if a >= 2 && c + 2 < n { hb(a - 2, c + 2) } else { 0 },
        n,
        n,
    );
    lemma_grid_shift(hb, n);
}

/// The evaluation of a position does not depend on which way the board is
/// turned about its main diagonal: rows and columns count alike, so a line
/// across the last row weighs as much as a line down the last column.
pub proof fn heuristic_transpose_symmetry(b: Seq<Seq<Cell>>, root: Player)
    requires
        wf(b),
    ensures
        heuristic(transpose(b), root) == heuristic(b, root),
{
    lemma_transpose_wf(b);
    score_transpose_symmetry(b);
    center_transpose_symmetry(b, root);
    windows_transpose_symmetry(b, root);
}

} // verus!
