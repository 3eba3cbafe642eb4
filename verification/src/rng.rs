//! The seeded random source of the library (`rand`'s `StdRng`) and the
//! contracts of the two `rand` calls that the library makes on it.
use rand::rngs::StdRng;
use rand::Rng;
use rand::SeedableRng;
use vstd::prelude::*;

verus! {

#[verifier::external_type_specification]
#[verifier::external_body]
pub struct ExStdRng(StdRng);

/// `StdRng::seed_from_u64`: a generator seeded from `seed`. Nothing is
/// stated of the values it will produce.
#[verifier::external_body]
pub(crate) fn seeded_rng(seed: u64) -> (r: StdRng) {
    StdRng::seed_from_u64(seed)
}

/// `Rng::gen_range(lo..hi)` on a `usize` range: some value in `[lo, hi)`.
/// `gen_range` panics on an empty range, which `requires` rules out; which
/// value comes back depends on the generator's state and is not stated.
#[verifier::external_body]
pub(crate) fn gen_index(rng: &mut StdRng, lo: usize, hi: usize) -> (r: usize)
    requires
        lo < hi,
    ensures
        lo <= r < hi,
{
    rng.gen_range(lo..hi)
}

} // verus!
