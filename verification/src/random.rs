//! The random source of the generator.

use rand::rngs::StdRng;
use rand::Rng;
use vstd::prelude::*;

verus! {

/// The generator of the `rand` crate that the walks draw from. Nothing is
/// known of its state.
#[verifier::external_type_specification]
#[verifier::external_body]
pub struct ExStdRng(rand::rngs::StdRng);

/// Draws a number from `low..high` with `Rng::gen_range` of the `rand`
/// crate, which panics on an empty range and otherwise answers with `low`
/// plus a number below `high - low`. Trusted: the number lies in the
/// range. Which number it is depends on the state of the generator, of
/// which nothing is claimed.
#[verifier::external_body]
pub(crate) fn draw_in_range(rng: &mut StdRng, low: usize, high: usize) -> (n: usize)
    requires
        low < high,
    ensures
        low <= n < high,
{
    rng.gen_range(low..high)
}

} // verus!
