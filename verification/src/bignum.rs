use num_bigint::BigUint;
use vstd::arithmetic::power::pow;
use vstd::prelude::*;

verus! {

/// The arbitrary-precision unsigned integer of `num_bigint`, opaque to the
/// verifier: nothing is known of a value but what the functions below state.
#[verifier::external_type_specification]
#[verifier::external_body]
pub struct ExBigUint(num_bigint::BigUint);

/// The digits of a big integer in base 2³², least significant first, as
/// `BigUint::to_u32_digits` lists them.
pub uninterp spec fn big_digits(b: BigUint) -> Seq<u32>;

/// The number that a list of base-2³² digits stands for, least significant
/// digit first.
pub open spec fn digits_value(digits: Seq<u32>) -> nat
    decreases digits.len(),
{
    if digits.len() == 0 {
        0
    } else {
        digits[0] as nat + 0x1_0000_0000 * digits_value(digits.drop_first())
    }
}

/// The number that a big integer holds.
pub open spec fn big_value(b: BigUint) -> nat {
    digits_value(big_digits(b))
}

/// `BigUint::from(u64)`: the big integer that holds `x`.
#[verifier::external_body]
pub(crate) fn big_from_u64(x: u64) -> (r: BigUint)
    ensures
        digits_value(big_digits(r)) == x,
{
    BigUint::from(x)
}

/// `num_traits::One::one` for `BigUint`: the big integer that holds 1.
#[verifier::external_body]
pub(crate) fn big_one() -> (r: BigUint)
    ensures
        digits_value(big_digits(r)) == 1,
{
    num_traits::One::one()
}

/// `BigUint::pow`: the base raised to the exponent.
#[verifier::external_body]
pub(crate) fn big_pow(base: &BigUint, exponent: u32) -> (r: BigUint)
    ensures
        digits_value(big_digits(r)) == pow(
            digits_value(big_digits(*base)) as int,
            exponent as nat,
        ),
{
    base.pow(exponent)
}

/// Subtraction of `BigUint`, which panics where the result would be
/// negative: the difference, for a subtrahend that is no larger.
#[verifier::external_body]
pub(crate) fn big_sub(a: &BigUint, b: &BigUint) -> (r: BigUint)
    requires
        digits_value(big_digits(*b)) <= digits_value(big_digits(*a)),
    ensures
        digits_value(big_digits(r)) == digits_value(big_digits(*a)) - digits_value(big_digits(*b)),
{
    a - b
}

/// Division of `BigUint`, which panics on a zero divisor: the quotient
/// rounded down, for a divisor that is not zero.
#[verifier::external_body]
pub(crate) fn big_div(a: &BigUint, b: &BigUint) -> (r: BigUint)
    requires
        digits_value(big_digits(*b)) > 0,
    ensures
        digits_value(big_digits(r)) == digits_value(big_digits(*a)) / digits_value(big_digits(*b)),
{
    a / b
}

/// Remainder of `BigUint`, which panics on a zero divisor: what the division
/// leaves, for a divisor that is not zero.
#[verifier::external_body]
pub(crate) fn big_rem(a: &BigUint, b: &BigUint) -> (r: BigUint)
    requires
        digits_value(big_digits(*b)) > 0,
    ensures
        digits_value(big_digits(r)) == digits_value(big_digits(*a)) % digits_value(big_digits(*b)),
{
    a % b
}

/// Multiplication of `BigUint`: the product.
#[verifier::external_body]
pub(crate) fn big_mul(a: &BigUint, b: &BigUint) -> (r: BigUint)
    ensures
        digits_value(big_digits(r)) == digits_value(big_digits(*a)) * digits_value(big_digits(*b)),
{
    a * b
}

/// `u128::try_from(&BigUint)`: the number as a `u128` where it fits, nothing
/// where it does not.
#[verifier::external_body]
pub(crate) fn big_to_u128(b: &BigUint) -> (r: Option<u128>)
    ensures
        match r {
            Some(v) => v == digits_value(big_digits(*b)),
            None => digits_value(big_digits(*b)) > u128::MAX,
        },
{
    u128::try_from(b).ok()
}

} // verus!
