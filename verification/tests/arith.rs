use combine_core::arith::{apply_operation, clamp_number, div_away, is_clear_value};
use combine_core::block::Operation;

#[test]
fn div_away_rounds_positive_dividend_up() {
    // 7 / 2 = 3.5 rounds away from zero to 4
    assert_eq!(div_away(7, 2), 4);
    assert_eq!(div_away(9, 4), 3);
    assert_eq!(div_away(8, 2), 4);
}

#[test]
fn div_away_rounds_negative_dividend_down() {
    // -7 / 2 = -3.5 rounds away from zero to -4
    assert_eq!(div_away(-7, 2), -4);
    assert_eq!(div_away(-9, 4), -3);
    assert_eq!(div_away(-8, 2), -4);
}

#[test]
fn div_away_with_negative_divisor() {
    // positive dividend: ceiling of -3.5 is -3
    assert_eq!(div_away(7, -2), -3);
    // negative dividend: floor of 3.5 is 3
    assert_eq!(div_away(-7, -2), 3);
}

#[test]
fn div_away_zero_dividend_is_zero() {
    assert_eq!(div_away(0, 5), 0);
    assert_eq!(div_away(0, -5), 0);
}

#[test]
fn div_away_by_one_is_identity() {
    assert_eq!(div_away(99, 1), 99);
    assert_eq!(div_away(-99, 1), -99);
}

#[test]
fn apply_operation_ordinary_results() {
    assert_eq!(apply_operation(Operation::ADD, 3, 7), 10);
    assert_eq!(apply_operation(Operation::SUBTRACT, 5, 7), -2);
    assert_eq!(apply_operation(Operation::MULTIPLY, 6, 7), 42);
    assert_eq!(apply_operation(Operation::DIVIDE, 7, 2), 4);
}

#[test]
fn apply_operation_clamps_high_results() {
    assert_eq!(apply_operation(Operation::MULTIPLY, 50, 3), 99);
    assert_eq!(apply_operation(Operation::ADD, 99, 99), 99);
}

#[test]
fn apply_operation_clamps_low_results() {
    assert_eq!(apply_operation(Operation::MULTIPLY, -50, 3), -99);
    assert_eq!(apply_operation(Operation::SUBTRACT, -99, 99), -99);
}

#[test]
fn clamp_number_bounds() {
    assert_eq!(clamp_number(150), 99);
    assert_eq!(clamp_number(-150), -99);
    assert_eq!(clamp_number(42), 42);
    assert_eq!(clamp_number(99), 99);
    assert_eq!(clamp_number(-99), -99);
}

#[test]
fn clear_condition_is_multiple_of_ten() {
    assert!(is_clear_value(10));
    assert!(is_clear_value(-20));
    assert!(is_clear_value(90));
    assert!(is_clear_value(-90));
    assert!(!is_clear_value(7));
    assert!(!is_clear_value(-3));
    assert!(!is_clear_value(99));
    assert!(!is_clear_value(-99));
}

#[test]
fn clear_condition_zero_clears() {
    // policy: zero counts as a multiple of ten and clears
    assert!(is_clear_value(0));
}
