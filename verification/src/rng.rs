//! The random source: the operating system's generator seeds an HC-128
//! generator of the `rand` crate.
//!
//! Nothing here is proved. What a draw returns is left open but for its
//! range, which the `rand` documentation gives.

use vstd::prelude::*;
use rand::prng::hc128::Hc128Rng;
use rand::rngs::OsRng;
use rand::{Rng, RngCore, SeedableRng};

verus! {

/// `rand::prng::hc128::Hc128Rng`, the generator that makes the draws.
#[verifier::external_type_specification]
#[verifier::external_body]
pub struct ExHc128Rng(Hc128Rng);

/// `rand::rngs::OsRng`, the generator of the operating system.
#[verifier::external_type_specification]
#[verifier::external_body]
pub struct ExOsRng(OsRng);

/// `rand::Error`, the error of a generator that could not be read.
#[verifier::external_type_specification]
#[verifier::external_body]
pub struct ExRandError(rand::Error);

/// `OsRng::new`: a handle on the operating system's generator, or the error
/// with which it could not be had.
#[verifier::external_body]
pub(crate) fn os_rng() -> Result<OsRng, rand::Error> {
    OsRng::new()
}

/// `RngCore::try_fill_bytes` of `OsRng`: 32 bytes from the operating system,
/// or the error with which they could not be read.
#[verifier::external_body]
pub(crate) fn os_seed(os: &mut OsRng) -> Result<[u8; 32], rand::Error> {
    let mut seed: [u8; 32] = [0; 32];
    os.try_fill_bytes(&mut seed)?;
    Ok(seed)
}

/// `SeedableRng::from_seed` of `Hc128Rng`: the generator with the given seed.
#[verifier::external_body]
pub(crate) fn seeded(seed: [u8; 32]) -> Hc128Rng {
    Hc128Rng::from_seed(seed)
}

/// `Rng::gen_range`: a number that is at least `low` and below `high`. The
/// call panics unless `low < high`.
#[verifier::external_body]
pub(crate) fn draw(rng: &mut Hc128Rng, low: usize, high: usize) -> (r: usize)
    requires
        low < high,
    ensures
        low <= r < high,
{
    rng.gen_range(low, high)
}

} // verus!
