//! The random draws of the sampler, taken from the `rand` crate's generator
//! of the current thread, which the operating system seeds on first use.
//! Nothing here is proved: each contract is what `rand` documents of the
//! call, and no more than holds of every draw.

use rand::distributions::Uniform;
use rand::Rng;
use vstd::prelude::*;

verus! {

/// `Rng::gen::<u32>` on `rand::thread_rng()`: any 32-bit value may come
/// back, so nothing is claimed of it.
#[verifier::external_body]
pub(crate) fn draw() -> u32 {
    rand::thread_rng().gen()
}

/// `Rng::gen::<bool>` on `rand::thread_rng()`: either value may come back,
/// so nothing is claimed of it.
#[verifier::external_body]
pub(crate) fn flip() -> bool {
    rand::thread_rng().gen()
}

/// `Rng::sample` on `rand::thread_rng()` with `Uniform::new_inclusive(low,
/// high)`: the value drawn lies in the closed range. `new_inclusive` panics
/// if `low > high`, which the precondition rules out.
#[verifier::external_body]
pub(crate) fn draw_between(low: u32, high: u32) -> (r: u32)
    requires
        low <= high,
    ensures
        low <= r <= high,
{
    rand::thread_rng().sample(Uniform::new_inclusive(low, high))
}

} // verus!
