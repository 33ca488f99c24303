//! Checked arithmetic on value amounts.
//!
//! Every value transfer in the ledgers goes through these helpers: additions
//! and subtractions surface overflow and underflow as hard failures instead
//! of wrapping, and the proportional-settlement ratio multiplication uses a
//! 256-bit intermediate so that `a * b / c` never loses value to an
//! intermediate overflow.
use vstd::prelude::*;

use crate::error::ContractError;

verus! {

/// With the scaling factor bounded by the divisor, the floored ratio
/// product `a * b / c` stays within `b`.
pub proof fn lemma_mul_div_le(a: int, b: int, c: int)
    requires
        0 <= a,
        0 <= b,
        0 < c,
        a <= c,
    ensures
        0 <= (a * b) / c,
        (a * b) / c <= b,
{
    vstd::arithmetic::mul::lemma_mul_inequality(a, c, b);
    vstd::arithmetic::mul::lemma_mul_nonnegative(a, b);
    vstd::arithmetic::div_mod::lemma_div_is_ordered(a * b, c * b, c);
    vstd::arithmetic::div_mod::lemma_div_is_ordered(0, a * b, c);
    vstd::arithmetic::div_mod::lemma_div_multiples_vanish(b, c);
    assert(c * b == b * c) by (nonlinear_arith);
}

/// Floors add up: dividing two amounts separately never yields more than
/// dividing their sum once.
pub proof fn lemma_div_add_le(x: int, y: int, c: int)
    requires
        0 <= x,
        0 <= y,
        0 < c,
    ensures
        x / c + y / c <= (x + y) / c,
{
    vstd::arithmetic::div_mod::lemma_fundamental_div_mod(x, c);
    vstd::arithmetic::div_mod::lemma_fundamental_div_mod(y, c);
    vstd::arithmetic::div_mod::lemma_mod_bound(x, c);
    vstd::arithmetic::div_mod::lemma_mod_bound(y, c);
    let t = x / c + y / c;
    assert(c * (x / c) + c * (y / c) == c * t) by {
        vstd::arithmetic::mul::lemma_mul_is_distributive_add(c, x / c, y / c);
    }
    assert(x + y >= c * t);
    vstd::arithmetic::div_mod::lemma_div_is_ordered(c * t, x + y, c);
    vstd::arithmetic::div_mod::lemma_div_multiples_vanish(t, c);
}

/// Addition that surfaces overflow as an error instead of wrapping.
pub fn checked_add(a: u128, b: u128) -> (r: Result<u128, ContractError>)
    ensures
        a + b <= u128::MAX ==> r == Ok::<u128, ContractError>((a + b) as u128),
        a + b > u128::MAX ==> r == Err::<u128, ContractError>(ContractError::ArithmeticOverflow),
{
    match a.checked_add(b) {
        Some(v) => Ok(v),
        None => Err(ContractError::ArithmeticOverflow),
    }
}

/// Subtraction that surfaces underflow as an error instead of wrapping.
pub fn checked_sub(a: u128, b: u128) -> (r: Result<u128, ContractError>)
    ensures
        b <= a ==> r == Ok::<u128, ContractError>((a - b) as u128),
        b > a ==> r == Err::<u128, ContractError>(ContractError::ArithmeticUnderflow),
{
    match a.checked_sub(b) {
        Some(v) => Ok(v),
        None => Err(ContractError::ArithmeticUnderflow),
    }
}

/// Relies on `cosmwasm_std::Uint128::full_mul`, `cosmwasm_std::Uint256`
/// division and `Uint128::try_from`: the product is taken in 256 bits, the
/// quotient is exact truncating division, and the conversion back reports
/// whether the quotient fits in 128 bits.
#[verifier::external_body]
fn mul_div_256(a: u128, b: u128, c: u128) -> (r: Option<u128>)
    requires
        c > 0,
    ensures
        r is Some <==> (a * b) / (c as int) <= u128::MAX,
        r matches Some(v) ==> v == (a * b) / (c as int),
{
    let product = cosmwasm_std::Uint128::new(a).full_mul(cosmwasm_std::Uint128::new(b));
    let quotient = product / cosmwasm_std::Uint256::from(c);
    match cosmwasm_std::Uint128::try_from(quotient) {
        Ok(v) => Some(v.u128()),
        Err(_) => None,
    }
}

/// Floor of `a * b / c`, computed with a 256-bit intermediate; overflow of
/// the final 128-bit result is surfaced as an error.
pub fn multiply_ratio(a: u128, b: u128, c: u128) -> (r: Result<u128, ContractError>)
    requires
        c > 0,
    ensures
        (a * b) / (c as int) <= u128::MAX ==> r == Ok::<u128, ContractError>(
            (((a * b) / (c as int)) as u128),
        ),
        (a * b) / (c as int) > u128::MAX ==> r == Err::<u128, ContractError>(
            ContractError::ArithmeticOverflow,
        ),
{
    match mul_div_256(a, b, c) {
        Some(v) => Ok(v),
        None => Err(ContractError::ArithmeticOverflow),
    }
}

} // verus!
