//! Arbitrary-precision integers.
//!
//! The sums this crate computes outgrow every machine integer, so they are
//! held in `rug::Integer`. Verus cannot look inside that type; it sees each
//! value only through [`integer_value`], and it believes without proof what
//! the functions of this module state about the `rug` operations they call.

use vstd::arithmetic::power::pow;
use vstd::prelude::*;

verus! {

#[verifier::external_type_specification]
#[verifier::external_body]
pub struct ExInteger(rug::Integer);

/// The mathematical integer that a big integer holds.
pub uninterp spec fn integer_value(v: rug::Integer) -> int;

/// `Integer::from(u64)`: the big integer equal to `x`.
#[verifier::external_body]
pub(crate) fn from_u64(x: u64) -> (r: rug::Integer)
    ensures
        integer_value(r) == x,
{
    rug::Integer::from(x)
}

/// `Integer::to_u64`: the value as a `u64` when it lies in that type's
/// range, and `None` when it does not.
#[verifier::external_body]
pub(crate) fn to_u64(a: &rug::Integer) -> (r: Option<u64>)
    ensures
        r is Some <==> 0 <= integer_value(*a) <= u64::MAX,
        r is Some ==> r->0 == integer_value(*a),
{
    a.to_u64()
}

/// `Integer += &Integer`: afterwards `a` holds the sum.
#[verifier::external_body]
pub(crate) fn add_assign(a: &mut rug::Integer, b: &rug::Integer)
    ensures
        integer_value(*final(a)) == integer_value(*old(a)) + integer_value(*b),
{
    *a += b;
}

/// `Integer -= &Integer`: afterwards `a` holds the difference.
#[verifier::external_body]
pub(crate) fn sub_assign(a: &mut rug::Integer, b: &rug::Integer)
    ensures
        integer_value(*final(a)) == integer_value(*old(a)) - integer_value(*b),
{
    *a -= b;
}

/// `&Integer * &Integer`, completed into a new integer: the product.
#[verifier::external_body]
pub(crate) fn product(a: &rug::Integer, b: &rug::Integer) -> (r: rug::Integer)
    ensures
        integer_value(r) == integer_value(*a) * integer_value(*b),
{
    rug::Integer::from(a * b)
}

/// `&Integer / &Integer`, completed into a new integer. `rug` divides with
/// truncation and panics on a zero divisor; for a dividend that is not
/// negative and a positive divisor the truncated quotient is the floor.
#[verifier::external_body]
pub(crate) fn quotient(a: &rug::Integer, b: &rug::Integer) -> (r: rug::Integer)
    requires
        integer_value(*a) >= 0,
        integer_value(*b) > 0,
    ensures
        integer_value(r) == integer_value(*a) / integer_value(*b),
{
    rug::Integer::from(a / b)
}

/// `-Integer`: the negation.
#[verifier::external_body]
pub(crate) fn negate(a: rug::Integer) -> (r: rug::Integer)
    ensures
        integer_value(r) == -integer_value(a),
{
    -a
}

/// `Integer::sqrt`: the square root, truncated. `rug` panics on a negative
/// value.
#[verifier::external_body]
pub(crate) fn sqrt(a: rug::Integer) -> (r: rug::Integer)
    requires
        integer_value(a) >= 0,
    ensures
        integer_value(r) >= 0,
        integer_value(r) * integer_value(r) <= integer_value(a),
        integer_value(a) < (integer_value(r) + 1) * (integer_value(r) + 1),
{
    a.sqrt()
}

/// `Integer::root`: the `k`-th root, truncated. `rug` panics when `k` is
/// zero, and when `k` is even and the value negative.
#[verifier::external_body]
pub(crate) fn root(a: rug::Integer, k: u32) -> (r: rug::Integer)
    requires
        k >= 1,
        integer_value(a) >= 0,
    ensures
        integer_value(r) >= 0,
        pow(integer_value(r), k as nat) <= integer_value(a),
        integer_value(a) < pow(integer_value(r) + 1, k as nat),
{
    a.root(k)
}

} // verus!
