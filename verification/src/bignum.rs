use vstd::prelude::*;

verus! {

#[verifier::external_type_specification]
#[verifier::external_body]
pub struct ExBigInt(num_bigint::BigInt);

/// The integer that a `num_bigint::BigInt` holds.
pub uninterp spec fn big_value(b: num_bigint::BigInt) -> int;

/// Relies on `num_bigint::BigInt`'s `From<i64>` impl: it builds the
/// arbitrary-precision integer with exactly the given value.
#[verifier::external_body]
pub fn big_from_i64(x: i64) -> (r: num_bigint::BigInt)
    ensures
        big_value(r) == x as int,
{
    num_bigint::BigInt::from(x)
}

/// Relies on the `Add` impl for `&num_bigint::BigInt`: exact integer addition,
/// never overflowing.
#[verifier::external_body]
pub fn big_add(a: &num_bigint::BigInt, b: &num_bigint::BigInt) -> (r: num_bigint::BigInt)
    ensures
        big_value(r) == big_value(*a) + big_value(*b),
{
    a + b
}

/// Relies on the `Sub` impl for `&num_bigint::BigInt`: exact integer subtraction.
#[verifier::external_body]
pub fn big_sub(a: &num_bigint::BigInt, b: &num_bigint::BigInt) -> (r: num_bigint::BigInt)
    ensures
        big_value(r) == big_value(*a) - big_value(*b),
{
    a - b
}

/// Relies on the `Mul` impl for `&num_bigint::BigInt`: exact integer multiplication.
#[verifier::external_body]
pub fn big_mul(a: &num_bigint::BigInt, b: &num_bigint::BigInt) -> (r: num_bigint::BigInt)
    ensures
        big_value(r) == big_value(*a) * big_value(*b),
{
    a * b
}

/// Relies on `num_bigint::BigInt`'s `PartialEq` impl: it compares the held
/// integers, which are kept in a canonical sign-magnitude form.
#[verifier::external_body]
pub fn big_eq(a: &num_bigint::BigInt, b: &num_bigint::BigInt) -> (r: bool)
    ensures
        r == (big_value(*a) == big_value(*b)),
{
    a == b
}

/// Relies on `num_bigint::BigInt`'s `Clone` impl: the copy holds the same integer.
#[verifier::external_body]
pub fn big_clone(a: &num_bigint::BigInt) -> (r: num_bigint::BigInt)
    ensures
        big_value(r) == big_value(*a),
{
    a.clone()
}

} // verus!
