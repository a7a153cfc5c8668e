//! Trusted boundary around `num_bigint::BigInt`.
//!
//! Arbitrary-precision signed integers carry every intermediate value of the
//! scoring arithmetic, so none of it can overflow. Verus sees `BigInt` as an
//! opaque type; the spec function `big_int` names the mathematical value one
//! holds, and each wrapper below states how a single operation of the crate
//! relates the values of its arguments and of its result.

use num_bigint::BigInt;
use vstd::prelude::*;

verus! {

#[verifier::external_type_specification]
#[verifier::external_body]
pub struct ExBigInt(BigInt);

/// The mathematical value held by a `BigInt`.
pub uninterp spec fn big_int(b: BigInt) -> int;

/// Relies on `<BigInt as From<i64>>::from`: exact conversion of a machine
/// integer into an arbitrary-precision one.
#[verifier::external_body]
pub(crate) fn big_from_i64(v: i64) -> (r: BigInt)
    ensures
        big_int(r) == v as int,
{
    BigInt::from(v)
}

/// Relies on `<&BigInt as Add<&BigInt>>::add`: exact integer addition.
#[verifier::external_body]
pub(crate) fn big_add(a: &BigInt, b: &BigInt) -> (r: BigInt)
    ensures
        big_int(r) == big_int(*a) + big_int(*b),
{
    a + b
}

/// Relies on `<&BigInt as Sub<&BigInt>>::sub`: exact integer subtraction.
#[verifier::external_body]
pub(crate) fn big_sub(a: &BigInt, b: &BigInt) -> (r: BigInt)
    ensures
        big_int(r) == big_int(*a) - big_int(*b),
{
    a - b
}

/// Relies on `<&BigInt as Mul<&BigInt>>::mul`: exact integer multiplication.
#[verifier::external_body]
pub(crate) fn big_mul(a: &BigInt, b: &BigInt) -> (r: BigInt)
    ensures
        big_int(r) == big_int(*a) * big_int(*b),
{
    a * b
}

/// Relies on `<BigInt as PartialOrd>::lt`: `BigInt`s order as the integers
/// they hold.
#[verifier::external_body]
pub(crate) fn big_lt(a: &BigInt, b: &BigInt) -> (r: bool)
    ensures
        r == (big_int(*a) < big_int(*b)),
{
    a < b
}

/// Relies on `<BigInt as PartialEq>::eq`: `BigInt`s compare equal exactly
/// when they hold the same integer.
#[verifier::external_body]
pub(crate) fn big_eq(a: &BigInt, b: &BigInt) -> (r: bool)
    ensures
        r == (big_int(*a) == big_int(*b)),
{
    a == b
}

/// Relies on `<BigInt as Clone>::clone`: an independent copy holding the
/// same value.
#[verifier::external_body]
pub(crate) fn big_clone(a: &BigInt) -> (r: BigInt)
    ensures
        big_int(r) == big_int(*a),
{
    a.clone()
}

} // verus!
