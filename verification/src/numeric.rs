//! Integer helpers that come from the `num-integer` crate.

use vstd::prelude::*;

verus! {

/// Ceiling of `x / y`.
pub open spec fn ceil_div(x: nat, y: nat) -> nat {
    if y == 0 {
        0
    } else if x % y != 0 {
        x / y + 1
    } else {
        x / y
    }
}

/// Calls `num_integer::div_ceil` on machine words. For unsigned integers the
/// crate returns the quotient, plus one where the remainder is not zero; it
/// divides, so a zero divisor is left out. Nothing of this is proved here.
#[verifier::external_body]
pub(crate) fn div_ceil(x: usize, y: usize) -> (r: usize)
    requires
        y != 0,
    ensures
        r == ceil_div(x as nat, y as nat),
{
    num_integer::div_ceil(x, y)
}

/// Calls `num_integer::div_ceil` on 64-bit integers, with the same claim as
/// for machine words.
#[verifier::external_body]
pub(crate) fn div_ceil_u64(x: u64, y: u64) -> (r: u64)
    requires
        y != 0,
    ensures
        r == ceil_div(x as nat, y as nat),
{
    num_integer::div_ceil(x, y)
}

} // verus!
