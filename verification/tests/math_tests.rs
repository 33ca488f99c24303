//! Exact values of the arithmetic helpers: checked operations, the
//! 256-bit-intermediate ratio multiplication, and the fixed-point ratio
//! type.
use liquid_queue::decimal::{get_ratio, Decimal};
use liquid_queue::error::ContractError;
use liquid_queue::math::{checked_add, checked_sub, multiply_ratio};

#[test]
fn checked_add_reports_overflow() {
    assert_eq!(checked_add(2, 3).unwrap(), 5);
    assert!(matches!(
        checked_add(u128::MAX, 1),
        Err(ContractError::ArithmeticOverflow)
    ));
}

#[test]
fn checked_sub_reports_underflow() {
    assert_eq!(checked_sub(5, 3).unwrap(), 2);
    assert!(matches!(
        checked_sub(3, 5),
        Err(ContractError::ArithmeticUnderflow)
    ));
}

#[test]
fn multiply_ratio_floors_the_quotient() {
    // 6 * 35 / 10 = 21 exactly
    assert_eq!(multiply_ratio(6, 35, 10).unwrap(), 21);
    // 5 * 99 / 100 floors to 4
    assert_eq!(multiply_ratio(5, 99, 100).unwrap(), 4);
    // the product would not fit in 128 bits, the quotient does
    assert_eq!(multiply_ratio(u128::MAX, 4, 8).unwrap(), u128::MAX / 2);
    // the quotient itself no longer fits
    assert!(matches!(
        multiply_ratio(u128::MAX, 3, 2),
        Err(ContractError::ArithmeticOverflow)
    ));
}

#[test]
fn ratio_values_are_scaled_by_ten_to_the_eighteenth() {
    assert_eq!(Decimal::one().atomics, 1_000_000_000_000_000_000);
    assert_eq!(
        Decimal::from_ratio(1, 3).unwrap().atomics,
        333_333_333_333_333_333
    );
    assert_eq!(
        Decimal::from_ratio(3, 2).unwrap().atomics,
        1_500_000_000_000_000_000
    );
    assert!(matches!(
        Decimal::from_ratio(u128::MAX, 1),
        Err(ContractError::ArithmeticOverflow)
    ));
}

#[test]
fn ratio_multiplication_rounds_down() {
    let one_and_a_half = Decimal::from_ratio(3, 2).unwrap();
    assert_eq!(one_and_a_half.mul_floor(10).unwrap(), 15);
    assert_eq!(one_and_a_half.mul_floor(1).unwrap(), 1);
    let third = Decimal::from_ratio(1, 3).unwrap();
    assert_eq!(third.mul_floor(10).unwrap(), 3);
}

#[test]
fn get_ratio_falls_back_to_one_on_a_zero_denominator() {
    assert_eq!(get_ratio(7, 0).unwrap(), Decimal::one());
    assert_eq!(
        get_ratio(1, 2).unwrap().atomics,
        500_000_000_000_000_000
    );
}
