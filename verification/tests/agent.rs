use course_projects::agent::SolutionAgent;
use course_projects::board::{Board, Cell, Player};

fn board_from(rows: &[&str]) -> Board {
    let mut b = Board::new(rows.len());
    for (i, r) in rows.iter().enumerate() {
        for (j, c) in r.chars().enumerate() {
            let cell = match c {
                'X' => Cell::X,
                'O' => Cell::O,
                '#' => Cell::Wall,
                _ => Cell::Empty,
            };
            b.set_cell(i, j, cell);
        }
    }
    b
}

#[test]
fn board_moves_and_undo() {
    let mut b = Board::new(3);
    assert_eq!(b.size(), 3);
    assert_eq!(b.moves().len(), 9);
    assert_eq!(b.moves()[0], (0, 0));
    assert_eq!(b.moves()[8], (2, 2));
    assert!(!b.game_over());
    b.apply_move((1, 2), Player::O);
    assert_eq!(b.get_cell(1, 2), Cell::O);
    assert_eq!(b.moves().len(), 8);
    assert!(!b.moves().contains(&(1, 2)));
    b.undo_move((1, 2), Player::O);
    assert_eq!(b.get_cell(1, 2), Cell::Empty);
    assert_eq!(b.moves().len(), 9);
}

#[test]
fn board_score_counts_lines() {
    let b = board_from(&["XXX", "O.O", "..."]);
    assert_eq!(b.score(), 1);
    let b = board_from(&["XO.", "XO.", ".O."]);
    assert_eq!(b.score(), -1);
    let b = board_from(&["X.O", ".XO", "..X"]);
    assert_eq!(b.score(), 1);
    let b = board_from(&["..O", ".O.", "O.."]);
    assert_eq!(b.score(), -1);
    // overlapping lines on a wider board count separately
    let b = board_from(&["XXXX", "....", "....", "...."]);
    assert_eq!(b.score(), 2);
    let b = board_from(&["XXX", "OOO", "..."]);
    assert_eq!(b.score(), 0);
}

#[test]
fn board_is_over_when_no_cell_is_empty() {
    let b = board_from(&["XOX", "OXO", "OX#"]);
    assert!(b.game_over());
    assert_eq!(b.moves().len(), 0);
    let b = board_from(&["XOX", "OXO", "OX."]);
    assert!(!b.game_over());
}

#[test]
fn opponent_swaps_players() {
    assert_eq!(SolutionAgent::opponent(Player::X), Player::O);
    assert_eq!(SolutionAgent::opponent(Player::O), Player::X);
}

#[test]
fn playable_cells_exclude_walls() {
    assert_eq!(SolutionAgent::playable_cell_count(&Board::new(3)), 9);
    let b = board_from(&["#..", ".X.", "..#"]);
    assert_eq!(SolutionAgent::playable_cell_count(&b), 7);
}

#[test]
fn window_scores() {
    let (x, o, e, w) = (Cell::X, Cell::O, Cell::Empty, Cell::Wall);
    assert_eq!(SolutionAgent::score_window([&x, &x, &x], Player::X), 10_000);
    assert_eq!(SolutionAgent::score_window([&x, &e, &x], Player::X), 900);
    assert_eq!(SolutionAgent::score_window([&e, &e, &o], Player::O), 30);
    assert_eq!(SolutionAgent::score_window([&o, &o, &o], Player::X), -9_000);
    assert_eq!(SolutionAgent::score_window([&o, &o, &e], Player::X), -700);
    assert_eq!(SolutionAgent::score_window([&e, &x, &e], Player::O), -10);
    assert_eq!(SolutionAgent::score_window([&x, &o, &e], Player::X), 0);
    assert_eq!(SolutionAgent::score_window([&x, &x, &w], Player::X), 0);
    assert_eq!(SolutionAgent::score_window([&e, &e, &e], Player::X), 0);
}

#[test]
fn heuristic_values() {
    assert_eq!(SolutionAgent::heuristic(&Board::new(3), Player::X), 0);
    let b = board_from(&["...", ".X.", "..."]);
    // centre bonus 10 and four open windows worth 30 each
    assert_eq!(SolutionAgent::heuristic(&b, Player::X), 130);
    // for O the bonus and the windows count against
    assert_eq!(SolutionAgent::heuristic(&b, Player::O), -50);
}

#[test]
fn terminal_values() {
    let open = board_from(&["XOX", "OXO", "OX."]);
    assert_eq!(SolutionAgent::evaluate_terminal(&open, Player::X, 0), None);
    let x_wins = board_from(&["XOX", "OXO", "OXX"]);
    assert_eq!(SolutionAgent::evaluate_terminal(&x_wins, Player::X, 3), Some(99_997));
    assert_eq!(SolutionAgent::evaluate_terminal(&x_wins, Player::O, 3), Some(-99_997));
    let draw = board_from(&["XOX", "XOO", "OXX"]);
    assert_eq!(SolutionAgent::evaluate_terminal(&draw, Player::X, 5), Some(0));
}

#[test]
fn minimax_finds_the_winning_line() {
    let mut b = board_from(&["XOX", "OOX", ".X."]);
    let before = b.get_cells().clone();
    let r = SolutionAgent::minimax(&mut b, Player::X, Player::X, 0, 9, i32::MIN, i32::MAX);
    assert_eq!(r, (99_998, 2, 2));
    assert_eq!(*b.get_cells(), before);
}

#[test]
fn minimax_on_a_finished_game() {
    let mut b = board_from(&["XOX", "OXO", "OXX"]);
    let r = SolutionAgent::minimax(&mut b, Player::O, Player::X, 4, 9, i32::MIN, i32::MAX);
    assert_eq!(r, (99_996, 0, 0));
}

#[test]
fn minimax_at_the_depth_limit_evaluates() {
    let mut b = board_from(&["...", ".X.", "..."]);
    let r = SolutionAgent::minimax(&mut b, Player::O, Player::X, 2, 2, i32::MIN, i32::MAX);
    assert_eq!(r, (130, 0, 0));
}

#[test]
fn minimax_full_window_equals_narrow_windows_inside() {
    let mut b = board_from(&["X..", ".O.", "..."]);
    let full = SolutionAgent::minimax(&mut b, Player::X, Player::X, 0, 3, i32::MIN, i32::MAX);
    let narrow = SolutionAgent::minimax(&mut b, Player::X, Player::X, 0, 3, full.0 - 1, full.0 + 1);
    assert_eq!(narrow.0, full.0);
}

#[test]
fn solve_ends_the_game_when_it_can() {
    let mut b = board_from(&["XOX", "OXO", "OX."]);
    assert_eq!(SolutionAgent::solve(&mut b, Player::O, 1000), (100_000, 2, 2));
    assert_eq!(b.get_cell(2, 2), Cell::Empty);
}

#[test]
fn solve_takes_a_strong_attack() {
    let mut b = board_from(&["XX..", "....", "....", "..OO"]);
    let before = b.get_cells().clone();
    let r = SolutionAgent::solve(&mut b, Player::X, 1000);
    assert_eq!((r.1, r.2), (0, 2));
    let after = board_from(&["XXX.", "....", "....", "..OO"]);
    assert_eq!(r.0, SolutionAgent::heuristic(&after, Player::X));
    assert!(r.0 > 1200);
    assert_eq!(*b.get_cells(), before);
}

#[test]
fn solve_searches_otherwise_and_leaves_the_board() {
    let mut b = board_from(&["X..", "...", "..."]);
    let before = b.get_cells().clone();
    let r = SolutionAgent::solve(&mut b, Player::O, 1000);
    assert_eq!(*b.get_cells(), before);
    assert_eq!(b.get_cell(r.1, r.2), Cell::Empty);
}

#[test]
fn heuristic_is_colour_symmetric_apart_from_the_score() {
    let b = board_from(&["XO..", ".X#.", "O..X", "..OO"]);
    let swapped = board_from(&["OX..", ".O#.", "X..O", "..XX"]);
    for (p, q) in [(Player::X, Player::O), (Player::O, Player::X)] {
        let left = SolutionAgent::heuristic(&b, p) - 100 * b.score();
        let right = SolutionAgent::heuristic(&swapped, q) - 100 * swapped.score();
        assert_eq!(left, right);
    }
}

#[test]
fn minimax_with_the_full_window_is_the_minimax_value() {
    // X to move; playing (2,2) completes a line, and O's only reply leaves it.
    let mut b = board_from(&["XOX", "OOX", ".X."]);
    let full = SolutionAgent::minimax(&mut b, Player::X, Player::X, 0, 9, i32::MIN, i32::MAX);
    // The other move leads to a finished board without lines, worth 0.
    let mut after = board_from(&["XOX", "OOX", "XXO"]);
    let other = SolutionAgent::minimax(&mut after, Player::X, Player::X, 2, 9, i32::MIN, i32::MAX);
    assert_eq!(other.0, 0);
    assert_eq!(full.0, 99_998);
}
