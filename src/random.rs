use rand::Rng;
use vstd::prelude::*;

verus! {

/// The seedable random source that spawning draws from.
#[verifier::external_type_specification]
#[verifier::external_body]
pub struct ExStdRng(rand::rngs::StdRng);

/// Relies on rand's `Rng::gen_range` on `0..n`: a value below `n`; it panics on an
/// empty range, which `requires` rules out.
#[verifier::external_body]
pub(crate) fn random_below(rng: &mut rand::rngs::StdRng, n: usize) -> (r: usize)
    requires
        n > 0,
    ensures
        r < n,
{
    rng.gen_range(0..n)
}

/// Relies on rand's `Rng::gen` for `bool`: a fair coin, of which nothing is promised.
#[verifier::external_body]
pub(crate) fn random_bool(rng: &mut rand::rngs::StdRng) -> bool {
    rng.gen()
}

} // verus!
