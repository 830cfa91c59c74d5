//! The seeded random source and the draws that the clustering takes from it.
//!
//! Nothing here is proved: each function states what the `rand` crate
//! guarantees of the call it makes, for every value the generator may yield.
use rand::distributions::uniform::{UniformInt, UniformSampler};
use rand::distributions::{Distribution, WeightedIndex};
use rand::rngs::StdRng;
use rand::SeedableRng;
use vstd::prelude::*;

verus! {

/// `rand::rngs::StdRng`, carried through verified code as an opaque value.
#[verifier::external_type_specification]
#[verifier::external_body]
pub struct ExStdRng(StdRng);

/// The sum of the weights in `w`.
pub open spec fn weight_sum(w: Seq<u128>) -> int
    decreases w.len(),
{
    if w.len() == 0 {
        0
    } else {
        weight_sum(w.drop_last()) + w.last()
    }
}

/// Calls `StdRng::seed_from_u64`. Nothing is claimed of the generator that
/// comes back.
#[verifier::external_body]
pub(crate) fn seeded(seed: u64) -> (rng: StdRng) {
    StdRng::seed_from_u64(seed)
}

/// Calls `WeightedIndex::new` on `weights` and, where that succeeds,
/// `Distribution::sample` on the result.
///
/// Claimed of `rand`: construction fails exactly when there is no weight or
/// every weight is zero, given that the weights can be summed without
/// overflow; a sampled index is in range and the weight at that index is not
/// zero.
#[verifier::external_body]
pub(crate) fn sample_weighted(weights: &Vec<u128>, rng: &mut StdRng) -> (res: Option<usize>)
    requires
        weight_sum(weights@) <= u128::MAX,
    ensures
        res is None <==> (forall|i: int| 0 <= i < weights@.len() ==> weights@[i] == 0),
        res matches Some(i) ==> i < weights@.len() && weights@[i as int] > 0,
{
    match WeightedIndex::new(weights) {
        Ok(table) => Some(table.sample(rng)),
        Err(_) => None,
    }
}

/// Calls `UniformInt::<i32>::new` with the two limits and `sample` on the
/// result.
///
/// Claimed of `rand`: the value drawn is at least `low` and below `high`.
/// Construction panics unless `low < high`, hence the precondition.
#[verifier::external_body]
pub(crate) fn sample_between(low: i32, high: i32, rng: &mut StdRng) -> (v: i32)
    requires
        low < high,
    ensures
        low <= v < high,
{
    UniformInt::<i32>::new(low, high).sample(rng)
}

} // verus!
