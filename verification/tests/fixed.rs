use edpi::fixed::{distance, div_round, edpi, round_to_thousandths, SCALE};

#[test]
fn edpi_is_the_exact_product() {
    assert_eq!(edpi(800, 350_000), 280_000_000);
    assert_eq!(edpi(-800, -350_000), 280_000_000);
    assert_eq!(edpi(800, -350_000), -280_000_000);
    assert_eq!(edpi(0, 350_000), 0);
    assert_eq!(edpi(i32::MAX, i64::MAX), (i32::MAX as i128) * (i64::MAX as i128));
    assert_eq!(edpi(i32::MIN, i64::MIN), (i32::MIN as i128) * (i64::MIN as i128));
    assert_eq!(SCALE, 1_000_000);
}

#[test]
fn distance_has_no_overflow() {
    assert_eq!(distance(5, 3), 2);
    assert_eq!(distance(3, 5), 2);
    assert_eq!(distance(-3, 5), 8);
    assert_eq!(distance(5, -3), 8);
    assert_eq!(distance(-5, -3), 2);
    assert_eq!(distance(7, 7), 0);
    assert_eq!(distance(i128::MAX, i128::MIN), u128::MAX);
    assert_eq!(distance(i128::MIN, i128::MAX), u128::MAX);
    assert_eq!(distance(i128::MIN, 0), 1u128 << 127);
    assert_eq!(distance(0, i128::MIN), 1u128 << 127);
    assert_eq!(distance(i128::MAX, 0), i128::MAX as u128);
}

#[test]
fn division_rounds_to_the_nearest() {
    assert_eq!(div_round(7, 2), 4);
    assert_eq!(div_round(6, 4), 2);
    assert_eq!(div_round(5, 4), 1);
    assert_eq!(div_round(4, 4), 1);
    assert_eq!(div_round(1, 3), 0);
    assert_eq!(div_round(2, 3), 1);
    assert_eq!(div_round(0, 9), 0);
    assert_eq!(div_round(10, 1), 10);
}

#[test]
fn halves_go_away_from_zero() {
    assert_eq!(div_round(1, 2), 1);
    assert_eq!(div_round(-1, 2), -1);
    assert_eq!(div_round(3, 2), 2);
    assert_eq!(div_round(-3, 2), -2);
    assert_eq!(div_round(-7, 2), -4);
    assert_eq!(div_round(-5, 4), -1);
    assert_eq!(div_round(-6, 4), -2);
    assert_eq!(round_to_thousandths(500), 1);
    assert_eq!(round_to_thousandths(499), 0);
    assert_eq!(round_to_thousandths(-500), -1);
    assert_eq!(round_to_thousandths(-499), 0);
    assert_eq!(round_to_thousandths(1_500), 2);
    assert_eq!(round_to_thousandths(-1_500), -2);
}

#[test]
fn division_at_the_ends_of_the_range() {
    assert_eq!(div_round(i128::MAX, 1), i128::MAX);
    assert_eq!(div_round(i128::MIN, 1), i128::MIN);
    assert_eq!(div_round(i128::MAX, i128::MAX), 1);
    assert_eq!(div_round(i128::MIN, i128::MAX), -1);
    assert_eq!(div_round(i128::MAX, 2), (i128::MAX / 2) + 1);
    assert_eq!(div_round(i128::MIN, 2), i128::MIN / 2);
    assert_eq!(div_round(1, i128::MAX), 0);
}

#[test]
fn rounding_twice_changes_nothing() {
    for units in [0i128, 1, 499, 500, 501, 999, 1_000, 1_499, 1_500, 350_000, 799_500, -1, -499, -500, -1_500, -799_500, 123_456_789] {
        let once = round_to_thousandths(units);
        assert_eq!(round_to_thousandths(1000 * once), once, "units {}", units);
    }
}
