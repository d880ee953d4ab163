//! Arbitrary-precision natural numbers from `num_bigint`, used to count
//! model spaces that overflow machine integers.
use vstd::prelude::*;
use num_bigint::BigUint;
use crate::model::pow_nat;

verus! {

/// `num_bigint::BigUint`, carried opaquely.
#[verifier::external_type_specification]
#[verifier::external_body]
pub struct ExBigUint(BigUint);

/// The natural number a `BigUint` stands for.
pub uninterp spec fn biguint_value(b: BigUint) -> nat;

/// `BigUint::from(usize)`: the number `x`.
#[verifier::external_body]
pub(crate) fn big_from_usize(x: usize) -> (r: BigUint)
    ensures
        biguint_value(r) == x,
{
    BigUint::from(x)
}

/// `BigUint::from(u64)`: the number `x`.
#[verifier::external_body]
pub(crate) fn big_from_u64(x: u64) -> (r: BigUint)
    ensures
        biguint_value(r) == x,
{
    BigUint::from(x)
}

/// `BigUint::pow`: `b` raised to `e` (0⁰ = 1).  A result too large for
/// memory aborts the process rather than returning.
#[verifier::external_body]
pub(crate) fn big_pow(b: &BigUint, e: u32) -> (r: BigUint)
    ensures
        biguint_value(r) == pow_nat(biguint_value(*b), e as nat),
{
    b.pow(e)
}

/// `&BigUint * &BigUint`: the product.
#[verifier::external_body]
pub(crate) fn big_mul(a: &BigUint, b: &BigUint) -> (r: BigUint)
    ensures
        biguint_value(r) == biguint_value(*a) * biguint_value(*b),
{
    a * b
}

/// `u32::try_from(&BigUint)`: the number when it fits in a `u32`.
#[verifier::external_body]
pub(crate) fn big_to_u32(b: &BigUint) -> (r: Option<u32>)
    ensures
        r == (if biguint_value(*b) <= u32::MAX { Some(biguint_value(*b) as u32) } else { None::<u32> }),
{
    u32::try_from(b).ok()
}

/// `>` on `BigUint`: numeric comparison.
#[verifier::external_body]
pub(crate) fn big_gt(a: &BigUint, b: &BigUint) -> (r: bool)
    ensures
        r == (biguint_value(*a) > biguint_value(*b)),
{
    a > b
}

/// `space` exceeds `limit`.
pub fn space_exceeds(space: &BigUint, limit: u64) -> (r: bool)
    ensures
        r == (biguint_value(*space) > limit),
{
    let l = big_from_u64(limit);
    big_gt(space, &l)
}

} // verus!
