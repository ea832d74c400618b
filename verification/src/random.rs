use vstd::prelude::*;

use rand::distributions::Uniform;
use rand::rngs::StdRng;
use rand::Rng;

verus! {

/// The random number generator of the world.
#[verifier::external_type_specification]
#[verifier::external_body]
pub struct ExStdRng(StdRng);

/// `Rng::gen_range` on `low..high`: some number in `low..high`; the range must not be empty.
#[verifier::external_body]
pub(crate) fn gen_range_usize(rng: &mut StdRng, low: usize, high: usize) -> (r: usize)
    requires
        low < high,
    ensures
        low <= r < high,
{
    rng.gen_range(low..high)
}

/// `Rng::sample` with `Uniform::from(low..high)` on `u32`: some number in `low..high`;
/// the range must not be empty.
#[verifier::external_body]
pub(crate) fn sample_uniform_u32(rng: &mut StdRng, low: u32, high: u32) -> (r: u32)
    requires
        low < high,
    ensures
        low <= r < high,
{
    rng.sample(Uniform::from(low..high))
}

/// `Rng::sample` with `Uniform::from(low..high)` on `isize`: some number in `low..high`;
/// the range must not be empty.
#[verifier::external_body]
pub(crate) fn sample_uniform_isize(rng: &mut StdRng, low: isize, high: isize) -> (r: isize)
    requires
        low < high,
    ensures
        low <= r < high,
{
    rng.sample(Uniform::from(low..high))
}

/// `Rng::gen_ratio`: true with a chance of `numerator` in `denominator`; always true when they
/// are equal, always false when `numerator` is zero. The ratio must be at most one, with a
/// denominator that is not zero.
#[verifier::external_body]
pub(crate) fn gen_ratio(rng: &mut StdRng, numerator: u32, denominator: u32) -> (r: bool)
    requires
        0 < denominator,
        numerator <= denominator,
    ensures
        numerator == 0 ==> !r,
        numerator == denominator ==> r,
{
    rng.gen_ratio(numerator, denominator)
}

} // verus!
