use vstd::prelude::*;

use rand::rngs::{OsRng, StdRng};
use rand::{Rng, SeedableRng};

verus! {

#[verifier::external_type_specification]
#[verifier::external_body]
pub struct ExStdRng(StdRng);

/// Relies on `rand::SeedableRng::seed_from_u64` for `StdRng`: a generator whose
/// stream is fixed by the seed.
#[verifier::external_body]
fn seeded_rng(seed: u64) -> StdRng {
    StdRng::seed_from_u64(seed)
}

/// Relies on `rand::SeedableRng::from_rng` for `StdRng` seeded from `OsRng`: a
/// generator seeded from the operating system, or `None` when the system cannot
/// supply the seed.
#[verifier::external_body]
fn entropy_rng() -> Option<StdRng> {
    StdRng::from_rng(OsRng).ok()
}

/// Relies on `rand::Rng::gen_range` over `0..count` for `usize`: a value below
/// `count` (the range must not be empty).
#[verifier::external_body]
pub(crate) fn random_index(rng: &mut StdRng, count: usize) -> (r: usize)
    requires
        count > 0,
    ensures
        r < count,
{
    rng.gen_range(0..count)
}

/// Relies on `rand::Rng::gen_range` over `low..=high` for `u32`: a value between
/// the bounds, both included (the range must not be empty).
#[verifier::external_body]
pub(crate) fn random_between(rng: &mut StdRng, low: u32, high: u32) -> (r: u32)
    requires
        low <= high,
    ensures
        low <= r <= high,
{
    rng.gen_range(low..=high)
}

/// The random stream of one run: fixed by `random_seed` when one is given, seeded
/// from the operating system otherwise; `None` only when the operating system
/// cannot supply a seed.
pub fn random_provider(random_seed: Option<u64>) -> (r: Option<StdRng>)
    ensures
        random_seed is Some ==> r is Some,
{
    match random_seed {
        Some(seed) => Some(seeded_rng(seed)),
        None => entropy_rng(),
    }
}

} // verus!
