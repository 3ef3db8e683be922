use rand::Rng;
use vstd::prelude::*;

verus! {

/// Draws an `i32` from `low..high` with `Rng::gen_range` of the `rand` crate,
/// on the generator that `rand::thread_rng` hands out.
///
/// Trusted: `gen_range` samples from the half-open range it is given and
/// panics on an empty one, which the precondition rules out.  Nothing is
/// claimed about which value of the range comes back.
#[verifier::external_body]
pub(crate) fn random_i32(low: i32, high: i32) -> (drawn: i32)
    requires
        low < high,
    ensures
        low <= drawn < high,
{
    rand::thread_rng().gen_range(low..high)
}

/// Draws a `usize` from `low..high` with `Rng::gen_range` of the `rand`
/// crate, on the generator that `rand::thread_rng` hands out.
///
/// Trusted: `gen_range` samples from the half-open range it is given and
/// panics on an empty one, which the precondition rules out.  Nothing is
/// claimed about which value of the range comes back.
#[verifier::external_body]
pub(crate) fn random_usize(low: usize, high: usize) -> (drawn: usize)
    requires
        low < high,
    ensures
        low <= drawn < high,
{
    rand::thread_rng().gen_range(low..high)
}

} // verus!
