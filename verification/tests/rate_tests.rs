use club_ranking::ratio::rate_millis;

#[test]
fn rate_of_all_wins_is_one() {
    assert_eq!(rate_millis(1, 1), 1000);
    assert_eq!(rate_millis(7, 7), 1000);
}

#[test]
fn rate_of_no_wins_is_zero() {
    assert_eq!(rate_millis(0, 1), 0);
    assert_eq!(rate_millis(0, 5), 0);
}

#[test]
fn rate_rounds_to_thousandths() {
    assert_eq!(rate_millis(1, 2), 500);
    assert_eq!(rate_millis(1, 3), 333);
    assert_eq!(rate_millis(2, 3), 667);
    assert_eq!(rate_millis(1, 6), 167);
    assert_eq!(rate_millis(1, 8), 125);
    assert_eq!(rate_millis(5, 1000), 5);
}

#[test]
fn rate_rounds_halves_up() {
    // 1/2000 = 0.0005 exactly, which rounds up to 0.001
    assert_eq!(rate_millis(1, 2000), 1);
    // 3/8 = 0.375 exactly, no rounding needed
    assert_eq!(rate_millis(3, 8), 375);
}
