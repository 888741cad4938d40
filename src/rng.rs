use vstd::prelude::*;

use rand::distr::Distribution;

verus! {

/// The simulation's random generator, carried through opaquely.
#[verifier::external_type_specification]
#[verifier::external_body]
pub struct ExChaCha12Rng(rand_chacha::ChaCha12Rng);

/// A reproduction or death trial, built by the caller from its probability.
#[verifier::external_type_specification]
#[verifier::external_body]
pub struct ExBernoulli(rand::distr::Bernoulli);

/// The error of a uniform distribution over an empty range.
#[verifier::external_type_specification]
#[verifier::external_body]
pub struct ExUniformError(rand::distr::uniform::Error);

/// Relies on rand's `Distribution<bool>` for `Bernoulli`: one trial drawn
/// from `rng`. Its outcome depends on the generator's state, so nothing is
/// promised of it.
#[verifier::external_body]
pub(crate) fn trial(dist: &rand::distr::Bernoulli, rng: &mut rand_chacha::ChaCha12Rng) -> (r: bool) {
    dist.sample(rng)
}

/// Relies on rand's `Uniform::new(0, n)` and its `Distribution::sample`:
/// construction fails exactly on an empty range, and a sample of `[0, n)`
/// is below `n`.
#[verifier::external_body]
pub(crate) fn draw_below(n: usize, rng: &mut rand_chacha::ChaCha12Rng) -> (r: Result<
    usize,
    rand::distr::uniform::Error,
>)
    ensures
        r is Ok <==> n > 0,
        r matches Ok(v) ==> v < n,
{
    match rand::distr::Uniform::new(0, n) {
        Ok(dist) => Ok(dist.sample(rng)),
        Err(e) => Err(e),
    }
}

/// Relies on rand's `seq::index::sample`: `amount` distinct indices below
/// `length`, in random order; it panics when `amount > length`.
#[verifier::external_body]
pub(crate) fn sample_indices(
    rng: &mut rand_chacha::ChaCha12Rng,
    length: usize,
    amount: usize,
) -> (r: Vec<usize>)
    requires
        amount <= length,
    ensures
        r@.len() == amount,
        r@.no_duplicates(),
        forall|i: int| 0 <= i < r@.len() ==> #[trigger] r@[i] < length,
{
    rand::seq::index::sample(rng, length, amount).into_vec()
}

} // verus!
