//! Randomness for the generation strategies. All draws go through rand's
//! `StdRng`, injected by the caller, so that a run can be reproduced from
//! a seed. Nothing is assumed about the values drawn beyond their range:
//! every contract downstream holds for every possible outcome.

use vstd::prelude::*;

use rand::rngs::StdRng;
use rand::Rng;
use rand::SeedableRng;

verus! {

#[verifier::external_type_specification]
#[verifier::external_body]
pub struct ExStdRng(StdRng);

/// Relies on rand's `SeedableRng::seed_from_u64`: builds a generator whose
/// draws are a function of the seed alone.
#[verifier::external_body]
pub fn rng_from_seed(seed: u64) -> (rng: StdRng) {
    StdRng::seed_from_u64(seed)
}

/// Relies on rand's `Rng::gen_range`: a draw from `[0, n)`, which panics on
/// an empty range — hence the precondition.
#[verifier::external_body]
pub fn rand_below(rng: &mut StdRng, n: usize) -> (r: usize)
    requires
        n >= 1,
    ensures
        r < n,
{
    rng.gen_range(0..n)
}

/// Relies on rand's `Rng::gen::<bool>`: a coin flip. Nothing is promised
/// about the value.
#[verifier::external_body]
pub fn rand_coin(rng: &mut StdRng) -> (r: bool) {
    rng.gen()
}

} // verus!
