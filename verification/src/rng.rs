//! The random numbers that place the apple, drawn with `rand`.

use rand::Rng;
use vstd::prelude::*;

verus! {

/// The thread-local generator of `rand`.
#[verifier::external_type_specification]
#[verifier::external_body]
pub struct ExThreadRng(rand::rngs::ThreadRng);

/// Calls `rand::thread_rng`, the lazily seeded generator of the current
/// thread. Nothing is claimed of its state.
#[verifier::external_body]
pub(crate) fn thread_rng() -> (rng: rand::rngs::ThreadRng) {
    rand::thread_rng()
}

/// Calls `Rng::gen_range(0..bound)` on `u32`. The claim: the value lies in
/// `0..bound`; which value comes out is chance and is not stated. `rand`
/// panics on an empty range, which `requires` rules out.
#[verifier::external_body]
pub(crate) fn gen_below(rng: &mut rand::rngs::ThreadRng, bound: u32) -> (r: u32)
    requires
        bound > 0,
    ensures
        r < bound,
{
    rng.gen_range(0..bound)
}

} // verus!
