//! A game-playing agent: immediate wins and blocks, a one-move attack
//! heuristic, and depth-limited minimax search with alpha-beta pruning.
use vstd::prelude::*;
use crate::board::{
    Board, Cell, MAX_SIZE, Player, game_over, grid_view, lemma_moves, lemma_moves_fill,
    lemma_score_bounds, lemma_set_back, mark, moves, moves_upto, other, row_moves, score, with_cell,
    wf,
};

verus! {

// ---------------------------------------------------------------------------
// Evaluation models
// ---------------------------------------------------------------------------

/// 1 if the cell is `c`, else 0.
pub open spec fn is_cell(x: Cell, c: Cell) -> int {
    if x == c {
        1
    } else {
        0
    }
}

/// The value of a line of three cells for `root`: nothing if a wall or both
/// players are in it; otherwise a reward for `root`'s marks and a penalty for
/// the opponent's, larger the fewer cells are left empty.
#[verifier::opaque]
pub open spec fn window_score(a: Cell, b: Cell, c: Cell, root: Player) -> int {
    let root_count = is_cell(a, mark(root)) + is_cell(b, mark(root)) + is_cell(c, mark(root));
    let opp_count = is_cell(a, mark(other(root))) + is_cell(b, mark(other(root))) + is_cell(
        c,
        mark(other(root)),
    );
    let empty_count = is_cell(a, Cell::Empty) + is_cell(b, Cell::Empty) + is_cell(c, Cell::Empty);
    let wall_count = is_cell(a, Cell::Wall) + is_cell(b, Cell::Wall) + is_cell(c, Cell::Wall);
    if wall_count > 0 || (root_count > 0 && opp_count > 0) {
        0
    } else if root_count == 3 {
        10_000
    } else if root_count == 2 && empty_count == 1 {
        900
    } else if root_count == 1 && empty_count == 2 {
        30
    } else if opp_count == 3 {
        -9_000
    } else if opp_count == 2 && empty_count == 1 {
        -700
    } else if opp_count == 1 && empty_count == 2 {
        -10
    } else {
        0
    }
}

/// The distance of `(i, j)` to the centre cell `(n / 2, n / 2)`, counted along rows and columns.
pub open spec fn center_distance(n: int, i: int, j: int) -> int {
    let c = n / 2;
    (if i >= c {
        i - c
    } else {
        c - i
    }) + (if j >= c {
        j - c
    } else {
        c - j
    })
}

/// The bonus of cell `(i, j)` for `root`: ten less its distance to the centre,
/// counted for `root`'s marks and against the opponent's.
pub open spec fn center_bonus(b: Seq<Seq<Cell>>, root: Player, i: int, j: int) -> int {
    let bonus = 10 - center_distance(b.len() as int, i, j);
    if b[i][j] == mark(root) {
        bonus
    } else if b[i][j] == mark(other(root)) {
        -bonus
    } else {
        0
    }
}

/// The centre bonuses of the first `j` cells of row `i`.
pub open spec fn center_row(b: Seq<Seq<Cell>>, root: Player, i: int, j: int) -> int
    decreases j,
{
    if j <= 0 {
        0
    } else {
        center_row(b, root, i, j - 1) + center_bonus(b, root, i, j - 1)
    }
}

/// The centre bonuses of the cells of the first `i` rows.
pub open spec fn center_upto(b: Seq<Seq<Cell>>, root: Player, i: int) -> int
    decreases i,
{
    if i <= 0 {
        0
    } else {
        center_upto(b, root, i - 1) + center_row(b, root, i - 1, b.len() as int)
    }
}

/// The windows of three that start at `(i, j)`: across, down, down-right, down-left.
pub open spec fn windows_at(b: Seq<Seq<Cell>>, root: Player, i: int, j: int) -> int {
    let n = b.len() as int;
    (if j + 2 < n {
        window_score(b[i][j], b[i][j + 1], b[i][j + 2], root)
    } else {
        0
    }) + (if i + 2 < n {
        window_score(b[i][j], b[i + 1][j], b[i + 2][j], root)
    } else {
        0
    }) + (if i + 2 < n && j + 2 < n {
        window_score(b[i][j], b[i + 1][j + 1], b[i + 2][j + 2], root)
    } else {
        0
    }) + (if i + 2 < n && j >= 2 {
        window_score(b[i][j], b[i + 1][j - 1], b[i + 2][j - 2], root)
    } else {
        0
    })
}

/// The windows that start in row `i` among its first `j` columns.
pub open spec fn windows_row(b: Seq<Seq<Cell>>, root: Player, i: int, j: int) -> int
    decreases j,
{
    if j <= 0 {
        0
    } else {
        windows_row(b, root, i, j - 1) + windows_at(b, root, i, j - 1)
    }
}

/// The windows that start in the first `i` rows.
pub open spec fn windows_upto(b: Seq<Seq<Cell>>, root: Player, i: int) -> int
    decreases i,
{
    if i <= 0 {
        0
    } else {
        windows_upto(b, root, i - 1) + windows_row(b, root, i - 1, b.len() as int)
    }
}

/// The evaluation of a position for `root`: a hundred times the board's score
/// (as the board counts it, X's lines less O's, whoever `root` is), plus the
/// centre bonuses of all cells, plus the values of all windows of three.
pub open spec fn heuristic(b: Seq<Seq<Cell>>, root: Player) -> int {
    score(b) * 100 + center_upto(b, root, b.len() as int) + windows_upto(b, root, b.len() as int)
}

/// The bound on the absolute value of [`heuristic`] on boards of side at most [`MAX_SIZE`].
pub open spec fn heuristic_bound() -> int {
    200_000_000
}

/// The value of a finished game for `root` found at search depth `depth`:
/// a win is worth more the sooner it comes, a loss costs less the later it comes.
pub open spec fn terminal_value(b: Seq<Seq<Cell>>, root: Player, depth: int) -> int {
    let raw = score(b);
    let adjusted = if root == Player::X {
        raw
    } else {
        -raw
    };
    if adjusted > 0 {
        100_000 - depth
    } else if adjusted < 0 {
        depth - 100_000
    } else {
        0
    }
}

/// The position is searched further: the game goes on and the depth limit is not reached.
pub open spec fn is_search_node(b: Seq<Seq<Cell>>, depth: int, max_depth: int) -> bool {
    !game_over(b) && depth < max_depth
}

/// The minimax value for `root` of the position `b` with `cur` to move at search
/// depth `depth`: the value of a finished game, the evaluation at the depth
/// limit, or else the best value of a move for `cur` (the largest when `cur`
/// is `root`, the smallest otherwise).
pub open spec fn node_value(
    b: Seq<Seq<Cell>>,
    cur: Player,
    root: Player,
    depth: int,
    max_depth: int,
) -> int
    decreases max_depth - depth, 1int, 0int,
{
    if game_over(b) {
        terminal_value(b, root, depth)
    } else if depth >= max_depth {
        heuristic(b, root)
    } else {
        children_best(b, cur, root, depth, max_depth, moves(b), moves(b).len() as int)
    }
}

/// The best value for `cur` over the first `k` moves of `ms`, starting from the
/// smallest `i32` (when `cur` is `root`) or the largest (otherwise).
pub open spec fn children_best(
    b: Seq<Seq<Cell>>,
    cur: Player,
    root: Player,
    depth: int,
    max_depth: int,
    ms: Seq<(usize, usize)>,
    k: int,
) -> int
    decreases max_depth - depth, 0int, k,
{
    if k <= 0 || depth >= max_depth {
        if cur == root {
            i32::MIN as int
        } else {
            i32::MAX as int
        }
    } else {
        let prev = children_best(b, cur, root, depth, max_depth, ms, k - 1);
        let m = ms[k - 1];
        let v = node_value(
            with_cell(b, m.0 as int, m.1 as int, mark(cur)),
            other(cur),
            root,
            depth + 1,
            max_depth,
        );
        if cur == root {
            if v > prev {
                v
            } else {
                prev
            }
        } else {
            if v < prev {
                v
            } else {
                prev
            }
        }
    }
}

/// The minimax value of the position after `cur` plays `m`.
pub open spec fn child_value(
    b: Seq<Seq<Cell>>,
    cur: Player,
    root: Player,
    depth: int,
    max_depth: int,
    m: (usize, usize),
) -> int {
    node_value(with_cell(b, m.0 as int, m.1 as int, mark(cur)), other(cur), root, depth + 1, max_depth)
}

/// The moves of a position in the order the search tries them: nearest the
/// centre first, ties row by row.
pub open spec fn search_order(b: Seq<Seq<Cell>>) -> Seq<(usize, usize)> {
    ordered_moves(moves(b), b.len() as int)
}

/// `m` is the first move, in the search order, whose value is `v` and is the
/// best for `cur`: every move tried before it is worse for `cur` (smaller when
/// `cur` is `root`, larger otherwise).
pub open spec fn first_best(
    b: Seq<Seq<Cell>>,
    cur: Player,
    root: Player,
    depth: int,
    max_depth: int,
    m: (usize, usize),
    v: int,
) -> bool {
    let ord = search_order(b);
    exists|k: int|
        0 <= k < ord.len() && ord[k] == m && forall|j: int|
            0 <= j < k ==> if cur == root {
                child_value(b, cur, root, depth, max_depth, #[trigger] ord[j]) < v
            } else {
                child_value(b, cur, root, depth, max_depth, #[trigger] ord[j]) > v
            }
}

/// The distance of a move to the centre.
pub open spec fn move_distance(n: int, m: (usize, usize)) -> int {
    center_distance(n, m.0 as int, m.1 as int)
}

/// The moves at distance `d` from the centre, in their order in `ms`.
pub open spec fn at_distance(n: int, d: int) -> spec_fn((usize, usize)) -> bool {
    |m: (usize, usize)| move_distance(n, m) == d
}

/// The moves at distance less than `d`, nearest first, ties in their order in `ms`.
pub open spec fn ordered_upto(ms: Seq<(usize, usize)>, n: int, d: int) -> Seq<(usize, usize)>
    decreases d,
{
    if d <= 0 {
        Seq::empty()
    } else {
        ordered_upto(ms, n, d - 1) + ms.filter(at_distance(n, d - 1))
    }
}

/// The moves of `ms` sorted by distance to the centre, ties in their order in
/// `ms` (a stable sort on a board of side `n`).
pub open spec fn ordered_moves(ms: Seq<(usize, usize)>, n: int) -> Seq<(usize, usize)> {
    ordered_upto(ms, n, 2 * n + 1)
}

/// The first move of `ms`, from position `k` on, after which no cell is empty.
pub open spec fn finishing_from(b: Seq<Seq<Cell>>, ms: Seq<(usize, usize)>, p: Player, k: int) -> Option<
    int,
>
    decreases ms.len() - k,
{
    if k < 0 || k >= ms.len() {
        None
    } else if game_over(with_cell(b, ms[k].0 as int, ms[k].1 as int, mark(p))) {
        Some(k)
    } else {
        finishing_from(b, ms, p, k + 1)
    }
}

/// The evaluation for `p` of the position after `p` plays `m`.
pub open spec fn attack_value(b: Seq<Seq<Cell>>, p: Player, m: (usize, usize)) -> int {
    heuristic(with_cell(b, m.0 as int, m.1 as int, mark(p)), p)
}

/// The best attack among the first `k` moves: its evaluation and the position
/// of the first move that reaches it (none while no move beats the smallest `i32`).
pub open spec fn best_attack(b: Seq<Seq<Cell>>, ms: Seq<(usize, usize)>, p: Player, k: int) -> (
    int,
    Option<int>,
)
    decreases k,
{
    if k <= 0 {
        (i32::MIN as int, None)
    } else {
        let prev = best_attack(b, ms, p, k - 1);
        let h = attack_value(b, p, ms[k - 1]);
        if h > prev.0 {
            (h, Some(k - 1))
        } else {
            prev
        }
    }
}

/// How deep the agent searches: 9 on a board of 9 playable cells, 7 on
/// boards of at most 16, [`SolutionAgent::MAX_DEPTH`] otherwise.
pub open spec fn search_depth(b: Seq<Seq<Cell>>) -> int {
    let c = playable_count(b);
    if c == 9 {
        9
    } else if c <= 16 {
        7
    } else {
        6
    }
}

// ---------------------------------------------------------------------------
// Bounds
// ---------------------------------------------------------------------------

proof fn lemma_window_bounds(a: Cell, b: Cell, c: Cell, root: Player)
    ensures
        -9_000 <= window_score(a, b, c, root) <= 10_000,
{
    reveal(window_score);
}

proof fn lemma_center_bonus_bounds(b: Seq<Seq<Cell>>, root: Player, i: int, j: int)
    requires
        wf(b),
        0 <= i < b.len(),
        0 <= j < b.len(),
    ensures
        -200 <= center_bonus(b, root, i, j) <= 200,
{
}

proof fn lemma_center_row_bounds(b: Seq<Seq<Cell>>, root: Player, i: int, j: int)
    requires
        wf(b),
        0 <= i < b.len(),
        0 <= j <= b.len(),
    ensures
        -200 * j <= center_row(b, root, i, j) <= 200 * j,
    decreases j,
{
    if j > 0 {
        lemma_center_row_bounds(b, root, i, j - 1);
        lemma_center_bonus_bounds(b, root, i, j - 1);
    }
}

proof fn lemma_center_upto_bounds(b: Seq<Seq<Cell>>, root: Player, i: int)
    requires
        wf(b),
        0 <= i <= b.len(),
    ensures
        -200 * (i * b.len()) <= center_upto(b, root, i) <= 200 * (i * b.len()),
    decreases i,
{
    if i > 0 {
        let n = b.len() as int;
        lemma_center_upto_bounds(b, root, i - 1);
        lemma_center_row_bounds(b, root, i - 1, n);
        assert((i - 1) * n + n == i * n) by (nonlinear_arith);
    }
}

proof fn lemma_windows_at_bounds(b: Seq<Seq<Cell>>, root: Player, i: int, j: int)
    ensures
        -40_000 <= windows_at(b, root, i, j) <= 40_000,
{
    lemma_window_bounds(b[i][j], b[i][j + 1], b[i][j + 2], root);
    lemma_window_bounds(b[i][j], b[i + 1][j], b[i + 2][j], root);
    lemma_window_bounds(b[i][j], b[i + 1][j + 1], b[i + 2][j + 2], root);
    lemma_window_bounds(b[i][j], b[i + 1][j - 1], b[i + 2][j - 2], root);
}

proof fn lemma_windows_row_bounds(b: Seq<Seq<Cell>>, root: Player, i: int, j: int)
    requires
        0 <= j,
    ensures
        -40_000 * j <= windows_row(b, root, i, j) <= 40_000 * j,
    decreases j,
{
    if j > 0 {
        lemma_windows_row_bounds(b, root, i, j - 1);
        lemma_windows_at_bounds(b, root, i, j - 1);
    }
}

proof fn lemma_windows_upto_bounds(b: Seq<Seq<Cell>>, root: Player, i: int)
    requires
        0 <= i,
    ensures
        -40_000 * (i * b.len()) <= windows_upto(b, root, i) <= 40_000 * (i * b.len()),
    decreases i,
{
    if i > 0 {
        let n = b.len() as int;
        lemma_windows_upto_bounds(b, root, i - 1);
        lemma_windows_row_bounds(b, root, i - 1, n);
        assert((i - 1) * n + n == i * n) by (nonlinear_arith);
    }
}

/// The evaluation is bounded.
pub proof fn lemma_heuristic_bounds(b: Seq<Seq<Cell>>, root: Player)
    requires
        wf(b),
    ensures
        -heuristic_bound() <= heuristic(b, root) <= heuristic_bound(),
{
    let n = b.len() as int;
    lemma_score_bounds(b);
    lemma_center_upto_bounds(b, root, n);
    lemma_windows_upto_bounds(b, root, n);
    assert(n * n <= 64 * 64) by (nonlinear_arith)
        requires
            0 <= n <= 64,
    ;
}

// ---------------------------------------------------------------------------
// The steps of the choice
// ---------------------------------------------------------------------------

/// `finishing_from` picks the first move, from `k` on, after which the game
/// is over, and finds none when no such move exists.
pub proof fn lemma_finishing_first(b: Seq<Seq<Cell>>, ms: Seq<(usize, usize)>, p: Player, k: int)
    requires
        0 <= k <= ms.len(),
    ensures
        match finishing_from(b, ms, p, k) {
            Some(i) => {
                &&& k <= i < ms.len()
                &&& game_over(with_cell(b, ms[i].0 as int, ms[i].1 as int, mark(p)))
                &&& forall|j: int|
                    k <= j < i ==> !game_over(
                        with_cell(b, (#[trigger] ms[j]).0 as int, ms[j].1 as int, mark(p)),
                    )
            },
            None => forall|j: int|
                k <= j < ms.len() ==> !game_over(
                    with_cell(b, (#[trigger] ms[j]).0 as int, ms[j].1 as int, mark(p)),
                ),
        },
    decreases ms.len() - k,
{
    if k < ms.len() {
        lemma_finishing_first(b, ms, p, k + 1);
    }
}

/// `best_attack` over the first `n` moves finds the largest evaluation and
/// the first move that reaches it; none while no evaluation exceeds the
/// smallest `i32`.
pub proof fn lemma_best_attack_first(b: Seq<Seq<Cell>>, ms: Seq<(usize, usize)>, p: Player, n: int)
    requires
        0 <= n <= ms.len(),
    ensures
        ({
            let (h, o) = best_attack(b, ms, p, n);
            &&& h >= i32::MIN
            &&& forall|j: int| 0 <= j < n ==> attack_value(b, p, #[trigger] ms[j]) <= h
            &&& match o {
                Some(i) => {
                    &&& 0 <= i < n
                    &&& h == attack_value(b, p, ms[i])
                    &&& forall|j: int| 0 <= j < i ==> attack_value(b, p, #[trigger] ms[j]) < h
                },
                None => h == i32::MIN,
            }
        }),
    decreases n,
{
    if n > 0 {
        lemma_best_attack_first(b, ms, p, n - 1);
    }
}

// ---------------------------------------------------------------------------
// Search depth
// ---------------------------------------------------------------------------

proof fn lemma_row_moves_le(b: Seq<Seq<Cell>>, i: int, j: int)
    ensures
        row_moves(b, i, j).len() <= playable_row(b, i, j),
    decreases j,
{
    if j > 0 {
        lemma_row_moves_le(b, i, j - 1);
    }
}

proof fn lemma_moves_upto_le(b: Seq<Seq<Cell>>, i: int)
    ensures
        moves_upto(b, i).len() <= playable_upto(b, i),
    decreases i,
{
    if i > 0 {
        lemma_moves_upto_le(b, i - 1);
        lemma_row_moves_le(b, i - 1, b.len() as int);
    }
}

/// Every empty cell is playable: there are no more empty cells than cells
/// that are not walls.
pub proof fn lemma_empty_cells_playable(b: Seq<Seq<Cell>>)
    ensures
        moves(b).len() <= playable_count(b),
{
    lemma_moves_upto_le(b, b.len() as int);
}

/// Once the depth left covers every empty cell, searching deeper changes
/// nothing: the search already reaches the end of every game.
pub proof fn lemma_deeper_search_same(
    b: Seq<Seq<Cell>>,
    cur: Player,
    root: Player,
    depth: int,
    d1: int,
    d2: int,
)
    requires
        wf(b),
        moves(b).len() <= d1 - depth,
        d1 <= d2,
    ensures
        node_value(b, cur, root, depth, d1) == node_value(b, cur, root, depth, d2),
    decreases d1 - depth, 1int, 0int,
{
    if !game_over(b) {
        lemma_moves(b);
        lemma_best_deeper(b, cur, root, depth, d1, d2, moves(b), moves(b).len() as int);
    }
}

proof fn lemma_best_deeper(
    b: Seq<Seq<Cell>>,
    cur: Player,
    root: Player,
    depth: int,
    d1: int,
    d2: int,
    ms: Seq<(usize, usize)>,
    k: int,
)
    requires
        wf(b),
        1 <= moves(b).len() <= d1 - depth,
        d1 <= d2,
        0 <= k <= ms.len(),
        valid_moves(b, ms),
    ensures
        children_best(b, cur, root, depth, d1, ms, k) == children_best(b, cur, root, depth, d2, ms, k),
    decreases d1 - depth, 0int, k,
{
    if k > 0 {
        lemma_best_deeper(b, cur, root, depth, d1, d2, ms, k - 1);
        let m = ms[k - 1];
        lemma_set_back(b, m.0 as int, m.1 as int, mark(cur));
        lemma_moves_fill(b, m.0 as int, m.1 as int, mark(cur));
        lemma_deeper_search_same(
            with_cell(b, m.0 as int, m.1 as int, mark(cur)),
            other(cur),
            root,
            depth + 1,
            d1,
            d2,
        );
    }
}

/// On a board of nine playable cells the agent searches to the end of the
/// game: the depth it uses covers every empty cell, so its minimax value is
/// the value of a search of any greater depth.
pub proof fn small_boards_searched_to_the_end(b: Seq<Seq<Cell>>, cur: Player, root: Player, d: int)
    requires
        wf(b),
        playable_count(b) == 9,
        d >= search_depth(b),
    ensures
        moves(b).len() <= search_depth(b),
        node_value(b, cur, root, 0, search_depth(b)) == node_value(b, cur, root, 0, d),
{
    lemma_empty_cells_playable(b);
    lemma_deeper_search_same(b, cur, root, 0, search_depth(b), d);
}

// ---------------------------------------------------------------------------
// Colour symmetry
// ---------------------------------------------------------------------------

/// The cell with the players' marks exchanged.
pub open spec fn swap_cell(c: Cell) -> Cell {
    match c {
        Cell::X => Cell::O,
        Cell::O => Cell::X,
        Cell::Empty => Cell::Empty,
        Cell::Wall => Cell::Wall,
    }
}

/// The board with every X made an O and every O an X.
pub open spec fn swap_colours(b: Seq<Seq<Cell>>) -> Seq<Seq<Cell>> {
    Seq::new(b.len(), |i: int| Seq::new(b[i].len(), |j: int| swap_cell(b[i][j])))
}

proof fn lemma_window_swap(a: Cell, b: Cell, c: Cell, p: Player)
    ensures
        window_score(a, b, c, p) == window_score(swap_cell(a), swap_cell(b), swap_cell(c), other(p)),
{
    reveal(window_score);
}

proof fn lemma_center_row_swap(b: Seq<Seq<Cell>>, p: Player, i: int, j: int)
    requires
        wf(b),
        0 <= i < b.len(),
        0 <= j <= b.len(),
    ensures
        center_row(b, p, i, j) == center_row(swap_colours(b), other(p), i, j),
    decreases j,
{
    if j > 0 {
        lemma_center_row_swap(b, p, i, j - 1);
        assert(swap_colours(b)[i][j - 1] == swap_cell(b[i][j - 1]));
    }
}

proof fn lemma_center_upto_swap(b: Seq<Seq<Cell>>, p: Player, i: int)
    requires
        wf(b),
        0 <= i <= b.len(),
    ensures
        center_upto(b, p, i) == center_upto(swap_colours(b), other(p), i),
    decreases i,
{
    if i > 0 {
        lemma_center_upto_swap(b, p, i - 1);
        lemma_center_row_swap(b, p, i - 1, b.len() as int);
    }
}

proof fn lemma_windows_at_swap(b: Seq<Seq<Cell>>, p: Player, i: int, j: int)
    requires
        wf(b),
        0 <= i < b.len(),
        0 <= j < b.len(),
    ensures
        windows_at(b, p, i, j) == windows_at(swap_colours(b), other(p), i, j),
{
    let n = b.len() as int;
    let s = swap_colours(b);
    assert forall|x: int, y: int| 0 <= x < n && 0 <= y < n implies #[trigger] s[x][y] == swap_cell(
        b[x][y],
    ) by {}
    if j + 2 < n {
        lemma_window_swap(b[i][j], b[i][j + 1], b[i][j + 2], p);
    }
    if i + 2 < n {
        lemma_window_swap(b[i][j], b[i + 1][j], b[i + 2][j], p);
    }
    if i + 2 < n && j + 2 < n {
        lemma_window_swap(b[i][j], b[i + 1][j + 1], b[i + 2][j + 2], p);
    }
    if i + 2 < n && j >= 2 {
        lemma_window_swap(b[i][j], b[i + 1][j - 1], b[i + 2][j - 2], p);
    }
}

proof fn lemma_windows_row_swap(b: Seq<Seq<Cell>>, p: Player, i: int, j: int)
    requires
        wf(b),
        0 <= i < b.len(),
        0 <= j <= b.len(),
    ensures
        windows_row(b, p, i, j) == windows_row(swap_colours(b), other(p), i, j),
    decreases j,
{
    if j > 0 {
        lemma_windows_row_swap(b, p, i, j - 1);
        lemma_windows_at_swap(b, p, i, j - 1);
    }
}

proof fn lemma_windows_upto_swap(b: Seq<Seq<Cell>>, p: Player, i: int)
    requires
        wf(b),
        0 <= i <= b.len(),
    ensures
        windows_upto(b, p, i) == windows_upto(swap_colours(b), other(p), i),
    decreases i,
{
    if i > 0 {
        lemma_windows_upto_swap(b, p, i - 1);
        lemma_windows_row_swap(b, p, i - 1, b.len() as int);
    }
}

/// Apart from the board's score, the evaluation is colour-symmetric: the
/// evaluation for `p` of a board equals the evaluation for the other player
/// of the board with X and O exchanged.
pub proof fn heuristic_colour_symmetry(b: Seq<Seq<Cell>>, p: Player)
    requires
        wf(b),
    ensures
        heuristic(b, p) - 100 * score(b) == heuristic(swap_colours(b), other(p)) - 100 * score(
            swap_colours(b),
        ),
{
    lemma_center_upto_swap(b, p, b.len() as int);
    lemma_windows_upto_swap(b, p, b.len() as int);
}

// ---------------------------------------------------------------------------
// Search facts
// ---------------------------------------------------------------------------

/// Every move of `ms` is an empty cell of `b`.
pub open spec fn valid_moves(b: Seq<Seq<Cell>>, ms: Seq<(usize, usize)>) -> bool {
    forall|k: int|
        0 <= k < ms.len() ==> {
            let m = #[trigger] ms[k];
            m.0 < b.len() && m.1 < b.len() && b[m.0 as int][m.1 as int] == Cell::Empty
        }
}

/// The minimax value lies strictly between the smallest and the largest `i32`.
pub proof fn lemma_value_bounds(b: Seq<Seq<Cell>>, cur: Player, root: Player, depth: int, max_depth: int)
    requires
        wf(b),
        0 <= depth <= i32::MAX,
        max_depth <= i32::MAX,
    ensures
        i32::MIN < node_value(b, cur, root, depth, max_depth) < i32::MAX,
    decreases max_depth - depth, 1int, 0int,
{
    if game_over(b) {
    } else if depth >= max_depth {
        lemma_heuristic_bounds(b, root);
    } else {
        lemma_moves(b);
        lemma_best_bounds(b, cur, root, depth, max_depth, moves(b), moves(b).len() as int);
    }
}

/// The best value over a nonempty prefix of valid moves is bounded.
pub proof fn lemma_best_bounds(
    b: Seq<Seq<Cell>>,
    cur: Player,
    root: Player,
    depth: int,
    max_depth: int,
    ms: Seq<(usize, usize)>,
    k: int,
)
    requires
        wf(b),
        0 <= depth < max_depth,
        max_depth <= i32::MAX,
        1 <= k <= ms.len(),
        valid_moves(b, ms),
    ensures
        i32::MIN < children_best(b, cur, root, depth, max_depth, ms, k) < i32::MAX,
    decreases max_depth - depth, 0int, k,
{
    let m = ms[k - 1];
    lemma_set_back(b, m.0 as int, m.1 as int, mark(cur));
    lemma_value_bounds(
        with_cell(b, m.0 as int, m.1 as int, mark(cur)),
        other(cur),
        root,
        depth + 1,
        max_depth,
    );
    let v = child_value(b, cur, root, depth, max_depth, m);
    let prev = children_best(b, cur, root, depth, max_depth, ms, k - 1);
    if k > 1 {
        lemma_best_bounds(b, cur, root, depth, max_depth, ms, k - 1);
    } else {
        assert(prev == if cur == root { i32::MIN as int } else { i32::MAX as int });
    }
    assert(children_best(b, cur, root, depth, max_depth, ms, k) == if cur == root {
        if v > prev { v } else { prev }
    } else {
        if v < prev { v } else { prev }
    });
}

/// The best value over the first `k` moves bounds each of their values and is
/// one of them (or the starting value).
pub proof fn lemma_best_char(
    b: Seq<Seq<Cell>>,
    cur: Player,
    root: Player,
    depth: int,
    max_depth: int,
    ms: Seq<(usize, usize)>,
    k: int,
)
    requires
        depth < max_depth,
        0 <= k <= ms.len(),
    ensures
        cur == root ==> {
            let v = children_best(b, cur, root, depth, max_depth, ms, k);
            &&& v >= i32::MIN
            &&& forall|j: int|
                0 <= j < k ==> v >= child_value(b, cur, root, depth, max_depth, #[trigger] ms[j])
            &&& (v == i32::MIN || exists|j: int|
                0 <= j < k && v == child_value(b, cur, root, depth, max_depth, #[trigger] ms[j]))
        },
        cur != root ==> {
            let v = children_best(b, cur, root, depth, max_depth, ms, k);
            &&& v <= i32::MAX
            &&& forall|j: int|
                0 <= j < k ==> v <= child_value(b, cur, root, depth, max_depth, #[trigger] ms[j])
            &&& (v == i32::MAX || exists|j: int|
                0 <= j < k && v == child_value(b, cur, root, depth, max_depth, #[trigger] ms[j]))
        },
    decreases k,
{
    if k > 0 {
        lemma_best_char(b, cur, root, depth, max_depth, ms, k - 1);
        let v = children_best(b, cur, root, depth, max_depth, ms, k);
        let prev = children_best(b, cur, root, depth, max_depth, ms, k - 1);
        let c = child_value(b, cur, root, depth, max_depth, ms[k - 1]);
        if cur == root {
            if v != i32::MIN {
                if v == c {
                    assert(v == child_value(b, cur, root, depth, max_depth, ms[k - 1]));
                } else {
                    assert(v == prev);
                    let j = choose|j: int|
                        0 <= j < k - 1 && prev == child_value(b, cur, root, depth, max_depth, #[trigger] ms[j]);
                    assert(v == child_value(b, cur, root, depth, max_depth, ms[j]));
                }
            }
        } else {
            if v != i32::MAX {
                if v == c {
                    assert(v == child_value(b, cur, root, depth, max_depth, ms[k - 1]));
                } else {
                    assert(v == prev);
                    let j = choose|j: int|
                        0 <= j < k - 1 && prev == child_value(b, cur, root, depth, max_depth, #[trigger] ms[j]);
                    assert(v == child_value(b, cur, root, depth, max_depth, ms[j]));
                }
            }
        }
    }
}

/// The best value over a list of moves depends only on which moves it holds.
pub proof fn lemma_best_same_moves(
    b: Seq<Seq<Cell>>,
    cur: Player,
    root: Player,
    depth: int,
    max_depth: int,
    s1: Seq<(usize, usize)>,
    s2: Seq<(usize, usize)>,
)
    requires
        depth < max_depth,
        forall|j: int| 0 <= j < s1.len() ==> s2.contains(#[trigger] s1[j]),
        forall|j: int| 0 <= j < s2.len() ==> s1.contains(#[trigger] s2[j]),
    ensures
        children_best(b, cur, root, depth, max_depth, s1, s1.len() as int) == children_best(
            b,
            cur,
            root,
            depth,
            max_depth,
            s2,
            s2.len() as int,
        ),
{
    lemma_best_char(b, cur, root, depth, max_depth, s1, s1.len() as int);
    lemma_best_char(b, cur, root, depth, max_depth, s2, s2.len() as int);
    let v1 = children_best(b, cur, root, depth, max_depth, s1, s1.len() as int);
    let v2 = children_best(b, cur, root, depth, max_depth, s2, s2.len() as int);
    if cur == root {
        if v1 != i32::MIN {
            let j = choose|j: int|
                0 <= j < s1.len() && v1 == child_value(b, cur, root, depth, max_depth, #[trigger] s1[j]);
            assert(s2.contains(s1[j]));
            let w = choose|w: int| 0 <= w < s2.len() && s2[w] == s1[j];
            assert(v2 >= child_value(b, cur, root, depth, max_depth, s2[w]));
        }
        if v2 != i32::MIN {
            let j = choose|j: int|
                0 <= j < s2.len() && v2 == child_value(b, cur, root, depth, max_depth, #[trigger] s2[j]);
            assert(s1.contains(s2[j]));
            let w = choose|w: int| 0 <= w < s1.len() && s1[w] == s2[j];
            assert(v1 >= child_value(b, cur, root, depth, max_depth, s1[w]));
        }
    } else {
        if v1 != i32::MAX {
            let j = choose|j: int|
                0 <= j < s1.len() && v1 == child_value(b, cur, root, depth, max_depth, #[trigger] s1[j]);
            assert(s2.contains(s1[j]));
            let w = choose|w: int| 0 <= w < s2.len() && s2[w] == s1[j];
            assert(v2 <= child_value(b, cur, root, depth, max_depth, s2[w]));
        }
        if v2 != i32::MAX {
            let j = choose|j: int|
                0 <= j < s2.len() && v2 == child_value(b, cur, root, depth, max_depth, #[trigger] s2[j]);
            assert(s1.contains(s2[j]));
            let w = choose|w: int| 0 <= w < s1.len() && s1[w] == s2[j];
            assert(v1 <= child_value(b, cur, root, depth, max_depth, s1[w]));
        }
    }
}

/// A move's distance to the centre is at most twice the side.
proof fn lemma_distance_bound(n: int, m: (usize, usize))
    requires
        0 <= n,
        m.0 < n,
        m.1 < n,
    ensures
        0 <= move_distance(n, m) <= 2 * n,
{
}

/// Sorting by distance keeps exactly the moves of the list.
pub proof fn lemma_ordered_same_moves(ms: Seq<(usize, usize)>, n: int)
    requires
        0 <= n,
        forall|j: int| 0 <= j < ms.len() ==> (#[trigger] ms[j]).0 < n && ms[j].1 < n,
    ensures
        forall|j: int| 0 <= j < ordered_moves(ms, n).len() ==> ms.contains(#[trigger] ordered_moves(ms, n)[j]),
        forall|j: int| 0 <= j < ms.len() ==> ordered_moves(ms, n).contains(#[trigger] ms[j]),
{
    lemma_ordered_from_ms(ms, n, 2 * n + 1);
    assert forall|j: int| 0 <= j < ms.len() implies ordered_moves(ms, n).contains(#[trigger] ms[j]) by {
        lemma_distance_bound(n, ms[j]);
        lemma_ordered_keeps(ms, n, 2 * n + 1, j);
    }
}

proof fn lemma_ordered_from_ms(ms: Seq<(usize, usize)>, n: int, d: int)
    ensures
        forall|j: int| 0 <= j < ordered_upto(ms, n, d).len() ==> ms.contains(#[trigger] ordered_upto(ms, n, d)[j]),
    decreases d,
{
    if d > 0 {
        lemma_ordered_from_ms(ms, n, d - 1);
        let prev = ordered_upto(ms, n, d - 1);
        let part = ms.filter(at_distance(n, d - 1));
        crate::analytics::lemma_filter_elements(ms, at_distance(n, d - 1));
        assert forall|j: int| 0 <= j < ordered_upto(ms, n, d).len() implies ms.contains(
            #[trigger] ordered_upto(ms, n, d)[j],
        ) by {
            if j < prev.len() {
                assert(ordered_upto(ms, n, d)[j] == prev[j]);
            } else {
                assert(ordered_upto(ms, n, d)[j] == part[j - prev.len()]);
            }
        }
    }
}

proof fn lemma_ordered_keeps(ms: Seq<(usize, usize)>, n: int, d: int, j: int)
    requires
        0 <= j < ms.len(),
        0 <= move_distance(n, ms[j]) < d,
    ensures
        ordered_upto(ms, n, d).contains(ms[j]),
    decreases d,
{
    let prev = ordered_upto(ms, n, d - 1);
    let part = ms.filter(at_distance(n, d - 1));
    if move_distance(n, ms[j]) == d - 1 {
        crate::analytics::lemma_filter_keeps(ms, at_distance(n, d - 1), j);
        let w = choose|w: int| 0 <= w < part.len() && part[w] == ms[j];
        assert(ordered_upto(ms, n, d)[prev.len() + w] == part[w]);
    } else {
        lemma_ordered_keeps(ms, n, d - 1, j);
        let w = choose|w: int| 0 <= w < prev.len() && prev[w] == ms[j];
        assert(ordered_upto(ms, n, d)[w] == prev[w]);
    }
}

// ---------------------------------------------------------------------------
// The agent
// ---------------------------------------------------------------------------

/// The agent.
pub struct SolutionAgent {}

impl SolutionAgent {
    /// The deepest search on large boards.
    pub const MAX_DEPTH: i32 = 6;

    /// The other player.
    pub fn opponent(player: Player) -> (r: Player)
        ensures
            r == other(player),
    {
        match player {
            Player::X => Player::O,
            Player::O => Player::X,
        }
    }

    /// The number of cells that are not walls.
    pub fn playable_cell_count(board: &Board) -> (r: usize)
        requires
            wf(board@),
        ensures
            r == playable_count(board@),
    {
        let cells = board.get_cells();
        let n = cells.len();
        let mut count: usize = 0;
        let mut i: usize = 0;
        while i < n
            invariant
                n == board@.len(),
                wf(board@),
                i <= n,
                count == playable_upto(board@, i as int),
                count <= i * 64,
            decreases n - i,
        {
            let mut j: usize = 0;
            let ghost base = count;
            while j < n
                invariant
                    n == board@.len(),
                    wf(board@),
                    i < n,
                    j <= n,
                    base == playable_upto(board@, i as int),
                    base <= i * 64,
                    count == base + playable_row(board@, i as int, j as int),
                    count <= base + j,
                decreases n - j,
            {
                match board.get_cell(i, j) {
                    Cell::X | Cell::O | Cell::Empty => {
                        count = count + 1;
                    },
                    Cell::Wall => {},
                }
                j = j + 1;
            }
            i = i + 1;
        }
        count
    }

    /// The value of a window of three cells for `root_player` (see [`window_score`]).
    pub fn score_window(window: [&Cell; 3], root_player: Player) -> (r: i32)
        ensures
            r == window_score(*window[0], *window[1], *window[2], root_player),
            -9_000 <= r <= 10_000,
    {
        proof {
            lemma_window_bounds(*window[0], *window[1], *window[2], root_player);
        }
        let mut root_count: i32 = 0;
        let mut opp_count: i32 = 0;
        let mut empty_count: i32 = 0;
        let mut wall_count: i32 = 0;
        let mut k: usize = 0;
        while k < 3
            invariant
                k <= 3,
                0 <= root_count <= k,
                0 <= opp_count <= k,
                0 <= empty_count <= k,
                0 <= wall_count <= k,
                root_count == count_in(window@, k as int, mark(root_player)),
                opp_count == count_in(window@, k as int, mark(other(root_player))),
                empty_count == count_in(window@, k as int, Cell::Empty),
                wall_count == count_in(window@, k as int, Cell::Wall),
            decreases 3 - k,
        {
            let cell = window[k];
            match cell {
                Cell::X => {
                    if root_player == Player::X {
                        root_count += 1;
                    } else {
                        opp_count += 1;
                    }
                },
                Cell::O => {
                    if root_player == Player::O {
                        root_count += 1;
                    } else {
                        opp_count += 1;
                    }
                },
                Cell::Empty => empty_count += 1,
                Cell::Wall => wall_count += 1,
            }
            k = k + 1;
        }
        proof {
            reveal_with_fuel(count_in, 4);
            reveal(window_score);
        }
        if wall_count > 0 || (root_count > 0 && opp_count > 0) {
            return 0;
        }
        if root_count == 3 {
            return 10_000;
        }
        if root_count == 2 && empty_count == 1 {
            return 900;
        }
        if root_count == 1 && empty_count == 2 {
            return 30;
        }
        if opp_count == 3 {
            return -9_000;
        }
        if opp_count == 2 && empty_count == 1 {
            return -700;
        }
        if opp_count == 1 && empty_count == 2 {
            return -10;
        }
        0
    }

    /// The centre bonus of cell `(i, j)` for `root_player`.
    fn center_bonus_at(cells: &Vec<Vec<Cell>>, i: usize, j: usize, root_player: Player) -> (r: i32)
        requires
            wf(grid_view(cells@)),
            i < cells@.len(),
            j < cells@.len(),
        ensures
            r == center_bonus(grid_view(cells@), root_player, i as int, j as int),
    {
        let n = cells.len();
        let center: usize = n / 2;
        let di: usize = if i >= center {
            i - center
        } else {
            center - i
        };
        let dj: usize = if j >= center {
            j - center
        } else {
            center - j
        };
        let center_bonus: i32 = 10 - ((di + dj) as i32);
        assert(cells@[i as int]@ == grid_view(cells@)[i as int]);
        match cells[i][j] {
            Cell::X => {
                if root_player == Player::X {
                    center_bonus
                } else {
                    -center_bonus
                }
            },
            Cell::O => {
                if root_player == Player::O {
                    center_bonus
                } else {
                    -center_bonus
                }
            },
            Cell::Empty | Cell::Wall => 0,
        }
    }

    /// The windows of three that start at `(i, j)`, for `root_player`.
    fn windows_at_cell(cells: &Vec<Vec<Cell>>, i: usize, j: usize, root_player: Player) -> (r: i32)
        requires
            wf(grid_view(cells@)),
            i < cells@.len(),
            j < cells@.len(),
        ensures
            r == windows_at(grid_view(cells@), root_player, i as int, j as int),
    {
        let ghost b = grid_view(cells@);
        let n = cells.len();
        assert(forall|r: int| 0 <= r < n ==> (#[trigger] cells@[r])@ == b[r]);
        proof {
            lemma_windows_at_bounds(b, root_player, i as int, j as int);
        }
        let mut total: i32 = 0;
        if j + 2 < n {
            total += Self::score_window([&cells[i][j], &cells[i][j + 1], &cells[i][j + 2]], root_player);
        }
        if i + 2 < n {
            total += Self::score_window([&cells[i][j], &cells[i + 1][j], &cells[i + 2][j]], root_player);
        }
        if i + 2 < n && j + 2 < n {
            total += Self::score_window(
                [&cells[i][j], &cells[i + 1][j + 1], &cells[i + 2][j + 2]],
                root_player,
            );
        }
        if i + 2 < n && j >= 2 {
            total += Self::score_window(
                [&cells[i][j], &cells[i + 1][j - 1], &cells[i + 2][j - 2]],
                root_player,
            );
        }
        total
    }

    /// The evaluation of the position for `root_player` (see [`heuristic`]).
    pub fn heuristic(board: &Board, root_player: Player) -> (r: i32)
        requires
            wf(board@),
        ensures
            r == heuristic(board@, root_player),
    {
        let ghost b = board@;
        let cells = board.get_cells();
        let n = cells.len();
        proof {
            lemma_score_bounds(b);
        }
        let raw = board.score();
        let mut total: i32 = raw * 100;

        // Prefer center squares
        let mut i: usize = 0;
        while i < n
            invariant
                n == b.len(),
                wf(b),
                grid_view(cells@) == b,
                i <= n,
                total == score(b) * 100 + center_upto(b, root_player, i as int),
                -4 * 64 * 64 <= score(b) <= 4 * 64 * 64,
            decreases n - i,
        {
            let ghost base = total;
            proof {
                lemma_center_upto_bounds(b, root_player, i as int);
                assert(i * n <= 64 * 64) by (nonlinear_arith)
                    requires
                        i <= n,
                        n <= 64,
                ;
            }
            let mut j: usize = 0;
            while j < n
                invariant
                    n == b.len(),
                    wf(b),
                    grid_view(cells@) == b,
                    i < n,
                    j <= n,
                    total == base + center_row(b, root_player, i as int, j as int),
                    -3_000_000 <= base <= 3_000_000,
                decreases n - j,
            {
                proof {
                    lemma_center_row_bounds(b, root_player, i as int, j as int);
                    lemma_center_bonus_bounds(b, root_player, i as int, j as int);
                }
                total += Self::center_bonus_at(cells, i, j, root_player);
                j = j + 1;
            }
            i = i + 1;
        }
        proof {
            lemma_center_upto_bounds(b, root_player, n as int);
            assert(n * n <= 64 * 64) by (nonlinear_arith)
                requires
                    n <= 64,
            ;
        }

        // Check rows, columns, and diagonals in windows of 3
        let ghost after_center = total;
        let mut i: usize = 0;
        while i < n
            invariant
                n == b.len(),
                wf(b),
                grid_view(cells@) == b,
                i <= n,
                total == after_center + windows_upto(b, root_player, i as int),
                -3_000_000 <= after_center <= 3_000_000,
            decreases n - i,
        {
            let ghost base = total;
            proof {
                lemma_windows_upto_bounds(b, root_player, i as int);
                assert(i * n <= 64 * 64) by (nonlinear_arith)
                    requires
                        i <= n,
                        n <= 64,
                ;
            }
            let mut j: usize = 0;
            while j < n
                invariant
                    n == b.len(),
                    wf(b),
                    grid_view(cells@) == b,
                    i < n,
                    j <= n,
                    total == base + windows_row(b, root_player, i as int, j as int),
                    -170_000_000 <= base <= 170_000_000,
                decreases n - j,
            {
                proof {
                    lemma_windows_row_bounds(b, root_player, i as int, j as int);
                    lemma_windows_at_bounds(b, root_player, i as int, j as int);
                }
                total += Self::windows_at_cell(cells, i, j, root_player);
                j = j + 1;
            }
            i = i + 1;
        }
        total
    }

    /// The value of a finished game for `root_player` at search depth `depth`
    /// (see [`terminal_value`]); none while cells are empty.
    pub fn evaluate_terminal(board: &Board, root_player: Player, depth: i32) -> (r: Option<i32>)
        requires
            wf(board@),
            game_over(board@) ==> i32::MIN <= terminal_value(board@, root_player, depth as int)
                <= i32::MAX,
        ensures
            r == if game_over(board@) {
                Some(terminal_value(board@, root_player, depth as int) as i32)
            } else {
                None::<i32>
            },
    {
        if board.game_over() {
            proof {
                lemma_score_bounds(board@);
            }
            let raw_score = board.score();
            let adjusted_score = match root_player {
                Player::X => raw_score,
                Player::O => -raw_score,
            };
            if adjusted_score > 0 {
                return Some(100_000 - depth);
            } else if adjusted_score < 0 {
                return Some(depth - 100_000);
            } else {
                return Some(0);
            }
        }
        None
    }

    /// The moves sorted by distance to the centre of a board of side `n`,
    /// nearest first, ties kept in their order.
    fn order_moves(moves: &Vec<(usize, usize)>, n: usize) -> (r: Vec<(usize, usize)>)
        requires
            n <= MAX_SIZE,
            forall|j: int| 0 <= j < moves@.len() ==> (#[trigger] moves@[j]).0 < n && moves@[j].1 < n,
        ensures
            r@ == ordered_moves(moves@, n as int),
    {
        let center: usize = n / 2;
        let mut out: Vec<(usize, usize)> = Vec::new();
        let mut d: usize = 0;
        while d <= 2 * n
            invariant
                n <= MAX_SIZE,
                center == n / 2,
                d <= 2 * n + 1,
                out@ == ordered_upto(moves@, n as int, d as int),
                forall|j: int| 0 <= j < moves@.len() ==> (#[trigger] moves@[j]).0 < n && moves@[j].1 < n,
            decreases 2 * n + 1 - d,
        {
            let ghost base = out@;
            let ghost pred = at_distance(n as int, d as int);
            let mut k: usize = 0;
            while k < moves.len()
                invariant
                    n <= MAX_SIZE,
                    center == n / 2,
                    d <= 2 * n,
                    k <= moves@.len(),
                    pred == at_distance(n as int, d as int),
                    base == ordered_upto(moves@, n as int, d as int),
                    out@ == base + moves@.take(k as int).filter(pred),
                    forall|j: int| 0 <= j < moves@.len() ==> (#[trigger] moves@[j]).0 < n && moves@[j].1 < n,
                decreases moves.len() - k,
            {
                let m = moves[k];
                let dx: usize = if m.0 >= center {
                    m.0 - center
                } else {
                    center - m.0
                };
                let dy: usize = if m.1 >= center {
                    m.1 - center
                } else {
                    center - m.1
                };
                proof {
                    crate::analytics::lemma_filter_step(moves@, pred, k as int);
                }
                if dx + dy == d {
                    out.push(m);
                }
                k = k + 1;
            }
            proof {
                crate::analytics::lemma_take_all(moves@);
            }
            d = d + 1;
        }
        out
    }

    /// Depth-limited minimax search with alpha-beta pruning, trying moves
    /// nearest the centre first. The score it returns relates to the minimax
    /// value `v` of the position as alpha-beta search guarantees: it is `v`
    /// when it lies strictly between `alpha` and `beta`, an upper bound on `v`
    /// when it is at most `alpha`, and a lower bound when it is at least `beta`.
    /// With a score between the bounds comes the first move, in the search
    /// order, whose value it is. The board is left as it was.
    pub fn minimax(
        board: &mut Board,
        current_player: Player,
        root_player: Player,
        depth: i32,
        max_depth: i32,
        alpha: i32,
        beta: i32,
    ) -> (r: (i32, usize, usize))
        requires
            wf(old(board)@),
            0 <= depth,
            alpha < beta,
        ensures
            final(board)@ == old(board)@,
            r.0 <= alpha ==> node_value(
                old(board)@,
                current_player,
                root_player,
                depth as int,
                max_depth as int,
            ) <= r.0,
            r.0 >= beta ==> node_value(
                old(board)@,
                current_player,
                root_player,
                depth as int,
                max_depth as int,
            ) >= r.0,
            alpha < r.0 < beta ==> node_value(
                old(board)@,
                current_player,
                root_player,
                depth as int,
                max_depth as int,
            ) == r.0,
            alpha == i32::MIN && beta == i32::MAX ==> r.0 == node_value(
                old(board)@,
                current_player,
                root_player,
                depth as int,
                max_depth as int,
            ),
            is_search_node(old(board)@, depth as int, max_depth as int) && alpha < r.0 < beta ==> {
                &&& moves(old(board)@).contains((r.1, r.2))
                &&& first_best(
                    old(board)@,
                    current_player,
                    root_player,
                    depth as int,
                    max_depth as int,
                    (r.1, r.2),
                    r.0 as int,
                )
                &&& child_value(
                    old(board)@,
                    current_player,
                    root_player,
                    depth as int,
                    max_depth as int,
                    (r.1, r.2),
                ) == r.0
            },
            !is_search_node(old(board)@, depth as int, max_depth as int) ==> {
                &&& r.0 == node_value(
                    old(board)@,
                    current_player,
                    root_player,
                    depth as int,
                    max_depth as int,
                )
                &&& r.1 == 0
                &&& r.2 == 0
            },
        decreases max_depth - depth,
    {
        let ghost b0 = board@;
        let ghost cur = current_player;
        let ghost root = root_player;
        let ghost v_all = node_value(b0, cur, root, depth as int, max_depth as int);
        proof {
            lemma_value_bounds(b0, cur, root, depth as int, max_depth as int);
        }
        if let Some(score) = Self::evaluate_terminal(board, root_player, depth) {
            return (score, 0, 0);
        }
        if depth >= max_depth {
            return (Self::heuristic(board, root_player), 0, 0);
        }
        let moves = board.moves();
        if moves.is_empty() {
            return (Self::heuristic(board, root_player), 0, 0);
        }
        // Try center moves first
        let cells = board.get_cells();
        let n = cells.len();
        proof {
            lemma_moves(b0);
        }
        let moves = Self::order_moves(&moves, n);
        let ghost ordered = moves@;
        assert(ordered == search_order(b0));
        proof {
            lemma_ordered_same_moves(crate::board::moves(b0), n as int);
            lemma_best_same_moves(
                b0,
                cur,
                root,
                depth as int,
                max_depth as int,
                ordered,
                crate::board::moves(b0),
            );
            assert forall|k: int| 0 <= k < ordered.len() implies {
                let m = #[trigger] ordered[k];
                m.0 < b0.len() && m.1 < b0.len() && b0[m.0 as int][m.1 as int] == Cell::Empty
            } by {
                let w = choose|w: int| 0 <= w < crate::board::moves(b0).len() && crate::board::moves(b0)[w] == ordered[k];
                assert(crate::board::moves(b0)[w] == ordered[k]);
            }
            assert(ordered.contains(crate::board::moves(b0)[0]));
        }
        let ghost a0 = alpha;
        let ghost b_0 = beta;
        if current_player == root_player {
            let mut best_score: i32 = i32::MIN;
            let mut best_move = moves[0];
            let ghost mut bi: int = 0;
            let mut lo = alpha;
            let mut i: usize = 0;
            while i < moves.len()
                invariant
                    board@ == b0,
                    b0 == old(board)@,
                    v_all == node_value(b0, cur, root, depth as int, max_depth as int),
                    i32::MIN < v_all < i32::MAX,
                    wf(b0),
                    !game_over(b0),
                    moves@ == ordered,
                    valid_moves(b0, ordered),
                    ordered.len() >= 1,
                    forall|j: int| 0 <= j < ordered.len() ==> crate::board::moves(b0).contains(#[trigger] ordered[j]),
                    0 <= depth < max_depth,
                    cur == current_player,
                    root == root_player,
                    cur == root,
                    i <= ordered.len(),
                    a0 < b_0,
                    b_0 == beta,
                    a0 == alpha,
                    lo == (if a0 > best_score { a0 } else { best_score }),
                    best_score < beta,
                    i == 0 ==> best_score == i32::MIN,
                    best_score <= a0 ==> children_best(b0, cur, root, depth as int, max_depth as int, ordered, i as int) <= best_score,
                    a0 < best_score ==> children_best(b0, cur, root, depth as int, max_depth as int, ordered, i as int) == best_score,
                    ordered.contains(best_move),
                    a0 < best_score ==> child_value(b0, cur, root, depth as int, max_depth as int, best_move) == best_score,
                    ordered == search_order(b0),
                    0 <= bi < ordered.len(),
                    ordered[bi] == best_move,
                    i == 0 ==> bi == 0,
                    i > 0 ==> bi < i,
                    a0 < best_score ==> forall|j: int|
                        0 <= j < bi ==> child_value(b0, cur, root, depth as int, max_depth as int, #[trigger] ordered[j])
                            < best_score,
                    children_best(b0, cur, root, depth as int, max_depth as int, ordered, ordered.len() as int) == v_all,
                decreases ordered.len() - i,
            {
                let m = moves[i];
                assert(ordered[i as int] == m);
                board.apply_move(m, current_player);
                let (score, _, _) = Self::minimax(
                    board,
                    Self::opponent(current_player),
                    root_player,
                    depth + 1,
                    max_depth,
                    lo,
                    beta,
                );
                board.undo_move(m, current_player);
                proof {
                    lemma_set_back(b0, m.0 as int, m.1 as int, mark(cur));
                }
                let ghost cv = child_value(b0, cur, root, depth as int, max_depth as int, m);
                let ghost prev_best = best_score;
                assert(children_best(b0, cur, root, depth as int, max_depth as int, ordered, i + 1) == if cv > children_best(b0, cur, root, depth as int, max_depth as int, ordered, i as int) {
                    cv
                } else {
                    children_best(b0, cur, root, depth as int, max_depth as int, ordered, i as int)
                });
                if score > best_score {
                    proof {
                        lemma_best_char(b0, cur, root, depth as int, max_depth as int, ordered, i as int);
                        bi = i as int;
                    }
                    best_score = score;
                    best_move = m;
                }
                lo = if lo > best_score {
                    lo
                } else {
                    best_score
                };
                if beta <= lo {
                    proof {
                        lemma_best_char(b0, cur, root, depth as int, max_depth as int, ordered, ordered.len() as int);
                        assert(v_all >= child_value(b0, cur, root, depth as int, max_depth as int, ordered[i as int]));
                    }
                    return (best_score, best_move.0, best_move.1);
                }
                i = i + 1;
            }
            (best_score, best_move.0, best_move.1)
        } else {
            let mut best_score: i32 = i32::MAX;
            let mut best_move = moves[0];
            let ghost mut bi: int = 0;
            let mut hi = beta;
            let mut i: usize = 0;
            while i < moves.len()
                invariant
                    board@ == b0,
                    b0 == old(board)@,
                    v_all == node_value(b0, cur, root, depth as int, max_depth as int),
                    i32::MIN < v_all < i32::MAX,
                    wf(b0),
                    !game_over(b0),
                    moves@ == ordered,
                    valid_moves(b0, ordered),
                    ordered.len() >= 1,
                    forall|j: int| 0 <= j < ordered.len() ==> crate::board::moves(b0).contains(#[trigger] ordered[j]),
                    0 <= depth < max_depth,
                    cur == current_player,
                    root == root_player,
                    cur != root,
                    i <= ordered.len(),
                    a0 < b_0,
                    a0 == alpha,
                    b_0 == beta,
                    hi == (if b_0 < best_score { b_0 } else { best_score }),
                    best_score > alpha,
                    i == 0 ==> best_score == i32::MAX,
                    best_score >= b_0 ==> children_best(b0, cur, root, depth as int, max_depth as int, ordered, i as int) >= best_score,
                    best_score < b_0 ==> children_best(b0, cur, root, depth as int, max_depth as int, ordered, i as int) == best_score,
                    ordered.contains(best_move),
                    best_score < b_0 ==> child_value(b0, cur, root, depth as int, max_depth as int, best_move) == best_score,
                    ordered == search_order(b0),
                    0 <= bi < ordered.len(),
                    ordered[bi] == best_move,
                    i == 0 ==> bi == 0,
                    i > 0 ==> bi < i,
                    best_score < b_0 ==> forall|j: int|
                        0 <= j < bi ==> child_value(b0, cur, root, depth as int, max_depth as int, #[trigger] ordered[j])
                            > best_score,
                    children_best(b0, cur, root, depth as int, max_depth as int, ordered, ordered.len() as int) == v_all,
                decreases ordered.len() - i,
            {
                let m = moves[i];
                assert(ordered[i as int] == m);
                board.apply_move(m, current_player);
                let (score, _, _) = Self::minimax(
                    board,
                    Self::opponent(current_player),
                    root_player,
                    depth + 1,
                    max_depth,
                    alpha,
                    hi,
                );
                board.undo_move(m, current_player);
                proof {
                    lemma_set_back(b0, m.0 as int, m.1 as int, mark(cur));
                }
                let ghost cv = child_value(b0, cur, root, depth as int, max_depth as int, m);
                assert(children_best(b0, cur, root, depth as int, max_depth as int, ordered, i + 1) == if cv < children_best(b0, cur, root, depth as int, max_depth as int, ordered, i as int) {
                    cv
                } else {
                    children_best(b0, cur, root, depth as int, max_depth as int, ordered, i as int)
                });
                if score < best_score {
                    proof {
                        lemma_best_char(b0, cur, root, depth as int, max_depth as int, ordered, i as int);
                        bi = i as int;
                    }
                    best_score = score;
                    best_move = m;
                }
                hi = if hi < best_score {
                    hi
                } else {
                    best_score
                };
                if hi <= alpha {
                    proof {
                        lemma_best_char(b0, cur, root, depth as int, max_depth as int, ordered, ordered.len() as int);
                        assert(v_all <= child_value(b0, cur, root, depth as int, max_depth as int, ordered[i as int]));
                    }
                    return (best_score, best_move.0, best_move.1);
                }
                i = i + 1;
            }
            (best_score, best_move.0, best_move.1)
        }
    }
}

impl SolutionAgent {
    /// Chooses a move for `player`: a move that ends the game, scored
    /// 100 000; else a move that would end the game for the opponent, taken to
    /// block it and scored 90 000; else the move after which the evaluation for
    /// `player` is highest, if that evaluation exceeds 1 200; else the minimax
    /// value to [`search_depth`] with the first move, in the search order, that
    /// reaches it. Among equal candidates the first in row order is taken. The
    /// board is left as it was. The time limit is not consulted.
    pub fn solve(board: &mut Board, player: Player, _time_limit: u64) -> (r: (i32, usize, usize))
        requires
            wf(old(board)@),
        ensures
            final(board)@ == old(board)@,
            !game_over(old(board)@) ==> moves(old(board)@).contains((r.1, r.2)),
            ({
                let b = old(board)@;
                let ms = moves(b);
                let attack = best_attack(b, ms, player, ms.len() as int);
                match finishing_from(b, ms, player, 0) {
                    Some(k) => r == (100_000i32, ms[k].0, ms[k].1),
                    None => match finishing_from(b, ms, other(player), 0) {
                        Some(k) => r == (90_000i32, ms[k].0, ms[k].1),
                        None => if attack.1 is Some && attack.0 > 1200 {
                            r == (attack.0 as i32, ms[attack.1->0].0, ms[attack.1->0].1)
                        } else {
                            let v = node_value(b, player, player, 0, search_depth(b));
                            &&& r.0 == v
                            &&& game_over(b) ==> r.1 == 0 && r.2 == 0
                            &&& !game_over(b) ==> {
                                &&& ms.contains((r.1, r.2))
                                &&& child_value(b, player, player, 0, search_depth(b), (r.1, r.2)) == v
                                &&& first_best(b, player, player, 0, search_depth(b), (r.1, r.2), v)
                            }
                        },
                    },
                }
            }),
    {
        let ghost b = board@;
        let moves = board.moves();
        let ghost ms = moves@;
        proof {
            lemma_moves(b);
        }
        // 1. If we can win immediately, take it.
        let mut k: usize = 0;
        while k < moves.len()
            invariant
                board@ == b,
                b == old(board)@,
                wf(b),
                moves@ == ms,
                ms == crate::board::moves(b),
                valid_moves(b, ms),
                k <= ms.len(),
                finishing_from(b, ms, player, 0) == finishing_from(b, ms, player, k as int),
            decreases ms.len() - k,
        {
            let m = moves[k];
            assert(ms[k as int] == m);
            board.apply_move(m, player);
            if board.game_over() {
                let result = (100_000i32, m.0, m.1);
                assert(finishing_from(b, ms, player, k as int) == Some(k as int));
                board.undo_move(m, player);
                proof {
                    lemma_set_back(b, m.0 as int, m.1 as int, mark(player));
                }
                return result;
            }
            board.undo_move(m, player);
            proof {
                lemma_set_back(b, m.0 as int, m.1 as int, mark(player));
            }
            k = k + 1;
        }
        // 2. If opponent can win immediately, block it.
        let opponent = Self::opponent(player);
        let mut k: usize = 0;
        while k < moves.len()
            invariant
                board@ == b,
                b == old(board)@,
                wf(b),
                moves@ == ms,
                ms == crate::board::moves(b),
                valid_moves(b, ms),
                opponent == other(player),
                finishing_from(b, ms, player, 0) is None,
                k <= ms.len(),
                finishing_from(b, ms, opponent, 0) == finishing_from(b, ms, opponent, k as int),
            decreases ms.len() - k,
        {
            let m = moves[k];
            assert(ms[k as int] == m);
            board.apply_move(m, opponent);
            if board.game_over() {
                let result = (90_000i32, m.0, m.1);
                assert(finishing_from(b, ms, opponent, k as int) == Some(k as int));
                board.undo_move(m, opponent);
                proof {
                    lemma_set_back(b, m.0 as int, m.1 as int, mark(opponent));
                }
                return result;
            }
            board.undo_move(m, opponent);
            proof {
                lemma_set_back(b, m.0 as int, m.1 as int, mark(opponent));
            }
            k = k + 1;
        }
        // 3. Prefer strong attacking moves before minimax.
        let mut best_attack_score: i32 = i32::MIN;
        let mut best_attack_move: Option<(usize, usize)> = None;
        let mut k: usize = 0;
        while k < moves.len()
            invariant
                board@ == b,
                b == old(board)@,
                wf(b),
                moves@ == ms,
                ms == crate::board::moves(b),
                valid_moves(b, ms),
                finishing_from(b, ms, player, 0) is None,
                finishing_from(b, ms, other(player), 0) is None,
                k <= ms.len(),
                best_attack(b, ms, player, k as int).0 == best_attack_score,
                match best_attack(b, ms, player, k as int).1 {
                    Some(j) => 0 <= j < k && best_attack_move == Some(ms[j]),
                    None => best_attack_move is None,
                },
            decreases ms.len() - k,
        {
            let m = moves[k];
            assert(ms[k as int] == m);
            board.apply_move(m, player);
            proof {
                lemma_set_back(b, m.0 as int, m.1 as int, mark(player));
                lemma_heuristic_bounds(board@, player);
            }
            let attack_score = Self::heuristic(board, player);
            board.undo_move(m, player);
            if attack_score > best_attack_score {
                best_attack_score = attack_score;
                best_attack_move = Some(m);
            }
            k = k + 1;
        }
        if let Some(m) = best_attack_move {
            if best_attack_score > 1200 {
                return (best_attack_score, m.0, m.1);
            }
        }
        // 4. Otherwise use minimax.
        let playable = Self::playable_cell_count(board);
        let max_depth: i32 = if playable == 9 {
            9
        } else if playable <= 16 {
            7
        } else {
            Self::MAX_DEPTH
        };
        proof {
            lemma_value_bounds(b, player, player, 0, max_depth as int);
        }
        Self::minimax(board, player, player, 0, max_depth, i32::MIN, i32::MAX)
    }
}

/// The number of cells of `c` among the first `k` of a window.
pub open spec fn count_in(w: Seq<&Cell>, k: int, c: Cell) -> int
    decreases k,
{
    if k <= 0 {
        0
    } else {
        count_in(w, k - 1, c) + is_cell(*w[k - 1], c)
    }
}

/// The cells of row `i` among its first `j` columns that are not walls.
pub open spec fn playable_row(b: Seq<Seq<Cell>>, i: int, j: int) -> int
    decreases j,
{
    if j <= 0 {
        0
    } else {
        playable_row(b, i, j - 1) + if b[i][j - 1] == Cell::Wall {
            0int
        } else {
            1int
        }
    }
}

/// The cells of the first `i` rows that are not walls.
pub open spec fn playable_upto(b: Seq<Seq<Cell>>, i: int) -> int
    decreases i,
{
    if i <= 0 {
        0
    } else {
        playable_upto(b, i - 1) + playable_row(b, i - 1, b.len() as int)
    }
}

/// The cells that are not walls.
pub open spec fn playable_count(b: Seq<Seq<Cell>>) -> int {
    playable_upto(b, b.len() as int)
}

} // verus!
