//! Random draws.
use vstd::prelude::*;
use rand::Rng;
use rand_distr::Distribution;

verus! {

/// Relies on `rand::Rng::gen_range` over `rand::thread_rng()`: a draw from
/// `0..n`, which must not be empty.
#[verifier::external_body]
pub(crate) fn random_below(n: usize) -> (r: usize)
    requires
        n > 0,
    ensures
        r < n,
{
    rand::thread_rng().gen_range(0..n)
}

/// Relies on `rand::Rng::gen_ratio` over `rand::thread_rng()`: `true` with
/// probability `numerator / denominator`, which must be a ratio in `0..=1`;
/// always `true` for a ratio of one and always `false` for a numerator of 0.
#[verifier::external_body]
pub(crate) fn random_ratio(numerator: u32, denominator: u32) -> (r: bool)
    requires
        0 < denominator,
        numerator <= denominator,
    ensures
        numerator == denominator ==> r,
        numerator == 0 ==> !r,
{
    rand::thread_rng().gen_ratio(numerator, denominator)
}

/// Sum of the weights.
pub open spec fn weight_total(w: Seq<u64>) -> int
    decreases w.len(),
{
    if w.len() == 0 {
        0
    } else {
        weight_total(w.drop_last()) + w.last()
    }
}

/// Relies on `rand_distr::WeightedIndex` (rand's, re-exported) sampled with
/// `rand::thread_rng()`: an index drawn with probability proportional to its
/// weight, so never one of weight 0.  Construction fails on an empty list or a
/// zero total, and the running total must fit in `u64`.
#[verifier::external_body]
pub(crate) fn weighted_pick(weights: &Vec<u64>) -> (r: usize)
    requires
        weights@.len() > 0,
        0 < weight_total(weights@) <= u64::MAX,
    ensures
        r < weights@.len(),
        weights@[r as int] > 0,
{
    rand_distr::WeightedIndex::new(weights).unwrap().sample(&mut rand::thread_rng())
}

} // verus!
