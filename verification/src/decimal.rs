//! A fixed-point ratio with eighteen fractional decimal digits, used to
//! price share units in units of underlying value. The stored integer is
//! the ratio scaled by `10^18`; every operation rounds down.
use vstd::prelude::*;

use crate::error::ContractError;
use crate::math::multiply_ratio;

verus! {

/// The scaling factor: one whole unit in atomic fractional units.
pub const DECIMAL_FRACTIONAL: u128 = 1_000_000_000_000_000_000u128;

/// A ratio, stored as its value scaled by `10^18` and rounded down.
#[derive(Clone, Copy, Debug, PartialEq, Eq, Structural)]
pub struct Decimal {
    pub atomics: u128,
}

/// The scaled value of the ratio `numerator / denominator`, as an
/// unbounded integer.
pub open spec fn spec_ratio_atomics(numerator: u128, denominator: u128) -> int {
    (numerator * DECIMAL_FRACTIONAL) / (denominator as int)
}

/// The whole-unit product `amount * d`, rounded down, as an unbounded
/// integer.
pub open spec fn spec_mul_floor(amount: u128, d: Decimal) -> int {
    (amount * d.atomics) / (DECIMAL_FRACTIONAL as int)
}

impl Decimal {
    /// The ratio `1`.
    pub open spec fn spec_one() -> Decimal {
        Decimal { atomics: DECIMAL_FRACTIONAL }
    }

    /// The ratio `1`.
    pub fn one() -> (d: Decimal)
        ensures
            d == Decimal::spec_one(),
    {
        Decimal { atomics: DECIMAL_FRACTIONAL }
    }

    /// The ratio `numerator / denominator`, rounded down to eighteen
    /// fractional digits; overflow of the scaled value is surfaced as an
    /// error.
    pub fn from_ratio(numerator: u128, denominator: u128) -> (r: Result<Decimal, ContractError>)
        requires
            denominator > 0,
        ensures
            spec_ratio_atomics(numerator, denominator) <= u128::MAX ==> r == Ok::<
                Decimal,
                ContractError,
            >(Decimal { atomics: spec_ratio_atomics(numerator, denominator) as u128 }),
            spec_ratio_atomics(numerator, denominator) > u128::MAX ==> r == Err::<
                Decimal,
                ContractError,
            >(ContractError::ArithmeticOverflow),
    {
        match multiply_ratio(numerator, DECIMAL_FRACTIONAL, denominator) {
            Ok(atomics) => Ok(Decimal { atomics }),
            Err(e) => Err(e),
        }
    }

    /// `amount * self`, rounded down; overflow of the product is surfaced
    /// as an error.
    pub fn mul_floor(self, amount: u128) -> (r: Result<u128, ContractError>)
        ensures
            spec_mul_floor(amount, self) <= u128::MAX ==> r == Ok::<u128, ContractError>(
                spec_mul_floor(amount, self) as u128,
            ),
            spec_mul_floor(amount, self) > u128::MAX ==> r == Err::<u128, ContractError>(
                ContractError::ArithmeticOverflow,
            ),
    {
        multiply_ratio(amount, self.atomics, DECIMAL_FRACTIONAL)
    }
}

/// The ratio `numerator / denominator`, with the defined fallback of `1`
/// when the denominator is zero, so that a freshly initialised system
/// prices one share unit at one unit of value.
pub fn get_ratio(numerator: u128, denominator: u128) -> (r: Result<Decimal, ContractError>)
    ensures
        denominator == 0 ==> r == Ok::<Decimal, ContractError>(Decimal::spec_one()),
        denominator > 0 && spec_ratio_atomics(numerator, denominator) <= u128::MAX ==> r == Ok::<
            Decimal,
            ContractError,
        >(Decimal { atomics: spec_ratio_atomics(numerator, denominator) as u128 }),
        denominator > 0 && spec_ratio_atomics(numerator, denominator) > u128::MAX ==> r == Err::<
            Decimal,
            ContractError,
        >(ContractError::ArithmeticOverflow),
{
    if denominator == 0 {
        Ok(Decimal::one())
    } else {
        Decimal::from_ratio(numerator, denominator)
    }
}

} // verus!
