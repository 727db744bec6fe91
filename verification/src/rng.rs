//! Trusted boundary to the `rand` crate: a seedable generator and the few
//! random primitives the simulation draws on. Every contract states only
//! what holds of every outcome; nothing is promised about which value comes.

use vstd::prelude::*;

use rand::Rng;
use rand::SeedableRng;
use rand::distributions::Distribution;
use rand::seq::SliceRandom;

use crate::prob::sum;

verus! {

#[verifier::external_type_specification]
#[verifier::external_body]
pub struct ExStdRng(rand::rngs::StdRng);

/// A weighted categorical sampler over integer weights, held opaquely
/// (Verus cannot declare `rand::distributions::WeightedIndex` itself, its
/// generic parameter being bound by a trait of `rand`).
#[verifier::external_body]
pub struct WeightedPicker {
    inner: rand::distributions::WeightedIndex<u64>,
}

/// The weights a `WeightedPicker` was built from.
pub uninterp spec fn weighted_index_contents(w: WeightedPicker) -> Seq<u64>;

/// Relies on rand's `SeedableRng::seed_from_u64`: builds a deterministic
/// generator from the seed, so runs are reproducible.
#[verifier::external_body]
pub fn rng_from_seed(seed: u64) -> rand::rngs::StdRng {
    rand::rngs::StdRng::seed_from_u64(seed)
}

/// Relies on rand's `Rng::gen_range` over `0..n`: panics only on an empty
/// range and otherwise returns a value of the range.
#[verifier::external_body]
pub fn rand_below(rng: &mut rand::rngs::StdRng, n: u64) -> (r: u64)
    requires
        n >= 1,
    ensures
        r < n,
{
    rng.gen_range(0..n)
}

/// Relies on rand's `WeightedIndex::new`: with a non-empty list of
/// non-negative weights of positive, non-overflowing total it returns `Ok`.
#[verifier::external_body]
pub fn weighted_index_new(weights: &Vec<u64>) -> (r: WeightedPicker)
    requires
        weights@.len() >= 1,
        1 <= sum(weights@) <= u64::MAX,
    ensures
        weighted_index_contents(r) == weights@,
{
    WeightedPicker { inner: rand::distributions::WeightedIndex::new(weights).unwrap() }
}

/// Relies on rand's `Distribution::sample` for `WeightedIndex`: returns the
/// index of one of the weights, and never one whose weight is zero.
#[verifier::external_body]
pub fn weighted_index_sample(rng: &mut rand::rngs::StdRng, wi: &WeightedPicker) -> (r: usize)
    ensures
        r < weighted_index_contents(*wi).len(),
        weighted_index_contents(*wi)[r as int] > 0,
{
    wi.inner.sample(rng)
}

/// Relies on rand's `SliceRandom::shuffle`: permutes the slice in place by
/// swaps, so the multiset of elements is unchanged.
#[verifier::external_body]
pub fn shuffle_indices(rng: &mut rand::rngs::StdRng, v: &mut Vec<usize>)
    ensures
        final(v)@.len() == old(v)@.len(),
        final(v)@.to_multiset() == old(v)@.to_multiset(),
{
    v.shuffle(rng)
}

} // verus!
