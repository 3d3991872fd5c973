//! The random-number generator of the `rand` crate, as the data
//! initialisations use it.

use rand::Rng;
use vstd::prelude::*;

verus! {

#[verifier::external_type_specification]
#[verifier::external_body]
pub struct ExThreadRng(rand::rngs::ThreadRng);

/// `rand::thread_rng`: a handle to the lazily seeded generator of the
/// current thread. Nothing is claimed of the handle; `rand` panics here
/// only if the operating system cannot seed the generator.
#[verifier::external_body]
pub(crate) fn thread_rng() -> rand::rngs::ThreadRng {
    rand::thread_rng()
}

/// `rand::Rng::gen_range` on the half-open range `low .. high` of `u64`:
/// claimed to return a value `r` with `low <= r < high`. `rand` panics on
/// an empty range, which the `requires` rules out. Which value comes out
/// rests on chance and is not stated.
#[verifier::external_body]
pub(crate) fn gen_range(rng: &mut rand::rngs::ThreadRng, low: u64, high: u64) -> (r: u64)
    requires
        low < high,
    ensures
        low <= r < high,
{
    rng.gen_range(low..high)
}

} // verus!
