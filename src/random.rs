//! The random source that reorders the cut list between attempts.
use rand::seq::SliceRandom;
use rand::SeedableRng;
use vstd::prelude::*;

verus! {

#[verifier::external_type_specification]
#[verifier::external_body]
pub struct ExLcg128Xsl64(rand_pcg::Lcg128Xsl64);

/// Relies on rand_pcg's `Pcg64` and rand_core's `SeedableRng::seed_from_u64`:
/// a generator whose sequence depends on the seed alone.
#[verifier::external_body]
pub(crate) fn seeded_generator(seed: u64) -> rand_pcg::Lcg128Xsl64 {
    rand_pcg::Pcg64::seed_from_u64(seed)
}

/// Relies on rand's `SliceRandom::shuffle` for slices: it only swaps
/// elements, so the items come back in some order, none lost or repeated.
#[verifier::external_body]
pub(crate) fn shuffle<T>(items: &mut Vec<T>, rng: &mut rand_pcg::Lcg128Xsl64)
    ensures
        final(items)@.len() == old(items)@.len(),
        final(items)@.to_multiset() == old(items)@.to_multiset(),
{
    items.as_mut_slice().shuffle(rng)
}

} // verus!
