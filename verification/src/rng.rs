//! Trusted access to the injected random stream. The builder only needs
//! two capabilities from it: a uniform integer in an inclusive range and
//! a fair coin flip.

use vstd::prelude::*;

use rand::Rng;
use rand::rngs::StdRng;

verus! {

/// rand's standard seedable generator, carried opaquely through the
/// builder. Callers construct it (for example with
/// `SeedableRng::seed_from_u64`) and hand it in.
#[verifier::external_type_specification]
#[verifier::external_body]
pub struct ExStdRng(StdRng);

/// Relies on rand's `Rng::gen_range` over an inclusive integer range:
/// it returns a value within the range, and panics only when the range
/// is empty.
#[verifier::external_body]
pub(crate) fn rng_range(rng: &mut StdRng, lo: usize, hi: usize) -> (r: usize)
    requires
        lo <= hi,
    ensures
        lo <= r && r <= hi,
{
    rng.gen_range(lo..=hi)
}

/// Relies on rand's `Rng::gen::<bool>()`: a fair coin flip. Nothing is
/// promised of the outcome.
#[verifier::external_body]
pub(crate) fn rng_flip(rng: &mut StdRng) -> bool {
    rng.gen()
}

} // verus!
