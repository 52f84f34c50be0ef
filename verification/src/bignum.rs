use vstd::prelude::*;

use num::bigint::BigInt;

verus! {

#[verifier::external_type_specification]
#[verifier::external_body]
pub struct ExBigInt(BigInt);

/// The mathematical integer that a `num::bigint::BigInt` holds.
pub uninterp spec fn big_value(b: BigInt) -> int;

/// Relies on `<BigInt as From<i64>>::from`: the big integer holding exactly
/// the given value.
#[verifier::external_body]
pub fn big_from_i64(x: i64) -> (r: BigInt)
    ensures
        big_value(r) == x as int,
{
    BigInt::from(x)
}

/// Relies on `<BigInt as Clone>::clone`: an equal, independent copy
/// (sign and magnitude are reproduced field for field).
#[verifier::external_body]
pub fn big_clone(a: &BigInt) -> (r: BigInt)
    ensures
        r == *a,
{
    a.clone()
}

/// Relies on `Add for &BigInt`: arbitrary-precision addition.
#[verifier::external_body]
pub fn big_add(a: &BigInt, b: &BigInt) -> (r: BigInt)
    ensures
        big_value(r) == big_value(*a) + big_value(*b),
{
    a + b
}

/// Relies on `Sub for &BigInt`: arbitrary-precision subtraction.
#[verifier::external_body]
pub fn big_sub(a: &BigInt, b: &BigInt) -> (r: BigInt)
    ensures
        big_value(r) == big_value(*a) - big_value(*b),
{
    a - b
}

/// Relies on `Mul for &BigInt`: arbitrary-precision multiplication.
#[verifier::external_body]
pub fn big_mul(a: &BigInt, b: &BigInt) -> (r: BigInt)
    ensures
        big_value(r) == big_value(*a) * big_value(*b),
{
    a * b
}

/// Relies on `PartialOrd for BigInt`: compares the held integers.
#[verifier::external_body]
pub fn big_lt(a: &BigInt, b: &BigInt) -> (r: bool)
    ensures
        r == (big_value(*a) < big_value(*b)),
{
    a < b
}

/// Relies on `PartialEq for BigInt`: big integers are kept in canonical form,
/// so structural equality coincides with equality of the held integers.
#[verifier::external_body]
pub fn big_eq(a: &BigInt, b: &BigInt) -> (r: bool)
    ensures
        r == (big_value(*a) == big_value(*b)),
{
    a == b
}

/// Relies on `Div for &BigInt`, whose quotient is truncated toward zero: on a
/// non-negative dividend and a positive divisor that is the Euclidean
/// quotient, which is what `/` means on `int`.
#[verifier::external_body]
pub fn big_div(a: &BigInt, b: &BigInt) -> (r: BigInt)
    requires
        0 <= big_value(*a),
        0 < big_value(*b),
    ensures
        big_value(r) == big_value(*a) / big_value(*b),
{
    a / b
}

/// Relies on `num::traits::ToPrimitive::to_usize` for `BigInt`: `Some`
/// exactly when the held integer fits in `usize`.
#[verifier::external_body]
pub fn big_to_usize(a: &BigInt) -> (r: Option<usize>)
    ensures
        match r {
            Some(u) => u as int == big_value(*a),
            None => !(0 <= big_value(*a) <= usize::MAX as int),
        },
{
    num::ToPrimitive::to_usize(a)
}

} // verus!
