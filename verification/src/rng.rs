//! Pseudo-random number source for initial positions and colors.
//!
//! The solver takes an explicit seeded generator, so a run is
//! reproducible when a seed is supplied.

use vstd::prelude::*;

verus! {

/// Declares rand's `StdRng` so it can stand in signatures; its values
/// are opaque and only pass through the wrappers below.
#[verifier::external_type_specification]
#[verifier::external_body]
pub struct ExStdRng(rand::rngs::StdRng);

/// Relies on rand's `SeedableRng::seed_from_u64` for `StdRng`: builds a
/// generator whose stream is a function of the seed alone.
#[verifier::external_body]
pub fn rng_from_seed(seed: u64) -> rand::rngs::StdRng {
    <rand::rngs::StdRng as rand::SeedableRng>::seed_from_u64(seed)
}

/// Relies on rand's `Rng::gen_range` on an `i64` half-open range: the
/// sample lies in [lo, hi); the call panics only on an empty range,
/// which the precondition rules out.
#[verifier::external_body]
pub fn rng_range(rng: &mut rand::rngs::StdRng, lo: i64, hi: i64) -> (r: i64)
    requires
        lo < hi,
    ensures
        lo <= r < hi,
{
    rand::Rng::gen_range(rng, lo..hi)
}

} // verus!
