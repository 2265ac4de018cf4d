//! Fixed-point decimals with 18 fractional digits, held as their atomic units.
//!
//! A decimal `d` is the number `d / 10^18`; the multiplications and divisions are
//! computed by `cosmwasm_std::Decimal` and `cosmwasm_std::Uint128`.
use cosmwasm_std::{Decimal, Uint128};
use vstd::prelude::*;

verus! {

/// The atomic units of 1.0.
pub const DECIMAL_FRACTIONAL: u128 = 1_000_000_000_000_000_000;

/// The decimal `x` percent.
pub open spec fn percent(x: nat) -> nat {
    x * 10_000_000_000_000_000
}

/// `Decimal::from_ratio(numerator, denominator)`: the ratio, rounded down to 18 digits.
/// The call panics on a zero denominator or a result beyond `u128`, which `requires` rules out.
#[verifier::external_body]
pub(crate) fn decimal_from_ratio(numerator: u128, denominator: u128) -> (r: u128)
    requires
        denominator > 0,
        numerator * (DECIMAL_FRACTIONAL as int) / (denominator as int) <= u128::MAX,
    ensures
        r == numerator * (DECIMAL_FRACTIONAL as int) / (denominator as int),
{
    Decimal::from_ratio(numerator, denominator).atomics().u128()
}

/// `Decimal * Decimal`: the product, rounded down to 18 digits (computed in 256 bits).
/// The call panics on a result beyond `u128`, which `requires` rules out.
#[verifier::external_body]
pub(crate) fn decimal_mul(a: u128, b: u128) -> (r: u128)
    requires
        a * b / (DECIMAL_FRACTIONAL as int) <= u128::MAX,
    ensures
        r == a * b / (DECIMAL_FRACTIONAL as int),
{
    (Decimal::raw(a) * Decimal::raw(b)).atomics().u128()
}

/// `Decimal / Decimal`: the quotient, rounded down to 18 digits (computed in 256 bits).
/// The call panics on a zero divisor or a result beyond `u128`, which `requires` rules out.
#[verifier::external_body]
pub(crate) fn decimal_div(a: u128, b: u128) -> (r: u128)
    requires
        b > 0,
        a * (DECIMAL_FRACTIONAL as int) / (b as int) <= u128::MAX,
    ensures
        r == a * (DECIMAL_FRACTIONAL as int) / (b as int),
{
    (Decimal::raw(a) / Decimal::raw(b)).atomics().u128()
}

/// `Uint128 * Decimal`: the product rounded down to an integer (computed in 256 bits).
/// The call panics on a result beyond `u128`, which `requires` rules out.
#[verifier::external_body]
pub(crate) fn uint_mul_decimal(u: u128, d: u128) -> (r: u128)
    requires
        u * d / (DECIMAL_FRACTIONAL as int) <= u128::MAX,
    ensures
        r == u * d / (DECIMAL_FRACTIONAL as int),
{
    (Uint128::new(u) * Decimal::raw(d)).u128()
}

} // verus!
