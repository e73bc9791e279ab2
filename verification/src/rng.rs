//! The random source of the planners.

use rand::rngs::{OsRng, StdRng};
use rand::{Rng, SeedableRng};
use vstd::prelude::*;

verus! {

/// The generator `rand::rngs::StdRng`, taken as it is: nothing is known of
/// what it holds.
#[verifier::external_type_specification]
#[verifier::external_body]
pub struct ExStdRng(rand::rngs::StdRng);

/// Calls `rand::SeedableRng::seed_from_u64` for `rand::rngs::StdRng`.
/// Nothing is claimed of the generator that comes back.
#[verifier::external_body]
pub(crate) fn rng_from_seed(seed: u64) -> StdRng {
    StdRng::seed_from_u64(seed)
}

/// Calls `rand::SeedableRng::from_rng` for `rand::rngs::StdRng` with
/// `rand::rngs::OsRng`, which seeds the generator from the operating
/// system. There is no generator where the system gives no entropy, and
/// nothing is claimed of one that comes back.
#[verifier::external_body]
pub(crate) fn rng_from_entropy() -> Option<StdRng> {
    match StdRng::from_rng(OsRng) {
        Ok(rng) => Some(rng),
        Err(_) => None,
    }
}

/// Calls `rand::Rng::gen_range` with the half-open range `low..high`. The
/// call aborts on an empty range, which the precondition rules out; the
/// number drawn lies in the range, and nothing else is claimed of it.
#[verifier::external_body]
pub(crate) fn random_in_range(rng: &mut StdRng, low: i64, high: i64) -> (r: i64)
    requires
        low < high,
    ensures
        low <= r < high,
{
    rng.gen_range(low..high)
}

/// A generator seeded by the operating system, and with zero where the
/// system gives no entropy.
pub(crate) fn fresh_rng() -> StdRng {
    match rng_from_entropy() {
        Some(rng) => rng,
        None => rng_from_seed(0),
    }
}

} // verus!
