//! The calls into the `num` and `rand` crates.

use vstd::prelude::*;

verus! {

/// `base` to the power `exp`.
pub open spec fn power(base: int, exp: nat) -> int
    decreases exp,
{
    if exp == 0 {
        1
    } else {
        base * power(base, (exp - 1) as nat)
    }
}

/// Two to the power `exp`, through `num::pow::<u64>`.
/// Claimed: the result is 2^exp. For `exp < 64` the power fits in `u64`, and so does
/// every square that `num::pow` forms on the way (none exceeds the result).
#[verifier::external_body]
pub(crate) fn two_to_the(exp: usize) -> (r: u64)
    requires
        exp < 64,
    ensures
        r == power(2, exp as nat),
{
    num::pow(2u64, exp)
}

/// The thread's random number generator of `rand`, an opaque type here.
#[verifier::external_type_specification]
#[verifier::external_body]
pub struct ExThreadRng(rand::rngs::ThreadRng);

/// The thread's random number generator, through `rand::thread_rng`.
/// Nothing is claimed of it.
#[verifier::external_body]
pub(crate) fn thread_rng() -> rand::rngs::ThreadRng {
    rand::thread_rng()
}

/// A random number between `low` and `high`, both included, through
/// `rand::Rng::gen_range(low..=high)`.
/// Claimed: only that the result lies in that range (which value comes is chance).
/// `gen_range` panics on an empty range, which `requires` leaves out.
#[verifier::external_body]
pub(crate) fn gen_range_inclusive(rng: &mut rand::rngs::ThreadRng, low: usize, high: usize) -> (r: usize)
    requires
        low <= high,
    ensures
        low <= r <= high,
{
    rand::Rng::gen_range(rng, low..=high)
}

} // verus!
