//! Calls into the `num` crates: integer roots and floor division on machine
//! integers, and arithmetic on big unsigned integers held as big-endian bytes.
use vstd::prelude::*;

verus! {

/// `num::integer::sqrt` on a `u64`: its documentation promises the
/// truncated square root, `r*r <= n < (r+1)*(r+1)`.
#[verifier::external_body]
pub(crate) fn integer_sqrt(n: u64) -> (r: u64)
    ensures
        r * r <= n,
        n < (r + 1) * (r + 1),
{
    num::integer::sqrt(n)
}

/// `num::integer::div_floor` on `u128`: for unsigned integers the crate's
/// source computes `x / y`.
#[verifier::external_body]
pub(crate) fn div_floor_u128(x: u128, y: u128) -> (r: u128)
    requires
        y != 0,
    ensures
        r == x / y,
{
    num::integer::div_floor(x, y)
}

} // verus!
