use course_projects::guessing::{Part1, Part2, Player, Strategy};

#[test]
fn player_answers_questions() {
    let mut p = Player::new(17);
    assert!(p.ask_if_equal(17));
    assert!(!p.ask_if_equal(16));
    assert_eq!(p.ask_to_compare(17), 0);
    assert_eq!(p.ask_to_compare(3), 1);
    assert_eq!(p.ask_to_compare(40), -1);
}

#[test]
fn linear_strategy_finds_the_number_in_range() {
    let mut p = Player::new(37);
    assert_eq!(Part1::guess_the_number(&mut p, 0, 100), 37);
    assert_eq!(Part1::guess_the_number(&mut p, 37, 38), 37);
    assert_eq!(Part1::guess_the_number(&mut p, 36, 38), 37);
}

#[test]
fn linear_strategy_answers_min_out_of_range() {
    let mut p = Player::new(37);
    // max is excluded
    assert_eq!(Part1::guess_the_number(&mut p, 0, 37), 0);
    assert_eq!(Part1::guess_the_number(&mut p, 50, 60), 50);
    assert_eq!(Part1::guess_the_number(&mut p, 10, 20), 10);
}

#[test]
fn binary_strategy_finds_every_number_in_range() {
    for n in 0..=64u32 {
        let mut p = Player::new(n);
        assert_eq!(Part2::guess_the_number(&mut p, 0, 64), n);
    }
    let mut p = Player::new(u32::MAX);
    assert_eq!(Part2::guess_the_number(&mut p, 0, u32::MAX), u32::MAX);
    let mut p = Player::new(0);
    assert_eq!(Part2::guess_the_number(&mut p, 0, u32::MAX), 0);
    let mut p = Player::new(5);
    assert_eq!(Part2::guess_the_number(&mut p, 5, 5), 5);
}

#[test]
fn binary_strategy_out_of_range() {
    // below the range: the lower bound
    let mut p = Player::new(3);
    assert_eq!(Part2::guess_the_number(&mut p, 10, 20), 10);
    // above the range: one past the upper bound
    let mut p = Player::new(30);
    assert_eq!(Part2::guess_the_number(&mut p, 10, 20), 21);
    let mut p = Player::new(0);
    assert_eq!(Part2::guess_the_number(&mut p, 1, 1), 1);
}

#[test]
fn strategies_agree_in_range() {
    for n in 10..30u32 {
        let mut p = Player::new(n);
        let a = Part1::guess_the_number(&mut p, 10, 30);
        let b = Part2::guess_the_number(&mut p, 10, 30);
        assert_eq!(a, n);
        assert_eq!(b, n);
    }
}

#[test]
fn binary_strategy_answers_within_the_range_bounds() {
    // a secret of max + 1 is reported as max + 1, one of min is min
    let mut p = Player::new(21);
    assert_eq!(Part2::guess_the_number(&mut p, 10, 20), 21);
    let mut p = Player::new(10);
    assert_eq!(Part2::guess_the_number(&mut p, 10, 20), 10);
}

#[test]
fn strategies_report_whether_the_secret_was_in_range() {
    let mut p = Player::new(37);
    assert_eq!(Part1::guess_reporting(&mut p, 0, 100), (37, true));
    assert_eq!(Part1::guess_reporting(&mut p, 0, 37), (0, false));
    assert_eq!(Part2::guess_reporting(&mut p, 0, 37), (37, true));
    assert_eq!(Part2::guess_reporting(&mut p, 38, 50), (38, false));
    assert_eq!(Part2::guess_reporting(&mut p, 0, 36), (37, false));
}
