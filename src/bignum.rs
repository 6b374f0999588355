use vstd::prelude::*;

use num_bigint::BigUint;

verus! {

/// `num_bigint::BigUint`, an arbitrary-precision natural number, carried as an opaque value.
#[verifier::external_type_specification]
#[verifier::external_body]
pub struct ExBigUint(BigUint);

/// The number that a `BigUint` holds.
pub uninterp spec fn big_value(b: BigUint) -> nat;

/// Relies on `From<u64> for BigUint`: the same number.
#[verifier::external_body]
pub(crate) fn big_from_u64(n: u64) -> (r: BigUint)
    ensures
        big_value(r) == n,
{
    BigUint::from(n)
}

/// Relies on `Mul<u64> for &BigUint`: the exact product.
#[verifier::external_body]
pub(crate) fn big_mul_u64(a: &BigUint, n: u64) -> (r: BigUint)
    ensures
        big_value(r) == big_value(*a) * n,
{
    a * n
}

/// Relies on `Add<&BigUint> for &BigUint`: the exact sum.
#[verifier::external_body]
pub(crate) fn big_add(a: &BigUint, b: &BigUint) -> (r: BigUint)
    ensures
        big_value(r) == big_value(*a) + big_value(*b),
{
    a + b
}

/// Relies on `Ord for BigUint`: numeric order.
#[verifier::external_body]
pub(crate) fn big_lt(a: &BigUint, b: &BigUint) -> (r: bool)
    ensures
        r == (big_value(*a) < big_value(*b)),
{
    a < b
}

} // verus!
