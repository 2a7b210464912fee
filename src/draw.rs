//! Randomness, drawn through rand's standard generator.
use rand::distributions::{Distribution, WeightedIndex};
use rand::rngs::StdRng;
use rand::{Rng, SeedableRng};
use vstd::prelude::*;

verus! {

#[verifier::external_type_specification]
#[verifier::external_body]
pub struct ExStdRng(StdRng);

/// Sum of a sequence of weights.
pub open spec fn weight_sum(w: Seq<u128>) -> nat
    decreases w.len(),
{
    if w.len() == 0 {
        0
    } else {
        weight_sum(w.drop_last()) + w.last() as nat
    }
}

/// Each weight is at most the sum, and weights that each fit a `u64` sum to
/// at most their count times the largest `u64`.
pub proof fn lemma_weight_sum_bounds(w: Seq<u128>)
    ensures
        forall|i: int| 0 <= i < w.len() ==> w[i] <= weight_sum(w),
        (forall|i: int| 0 <= i < w.len() ==> w[i] <= u64::MAX) ==> weight_sum(w) <= w.len() * (u64::MAX as nat),
    decreases w.len(),
{
    if w.len() > 0 {
        let p = w.drop_last();
        lemma_weight_sum_bounds(p);
        assert forall|i: int| 0 <= i < w.len() implies w[i] <= weight_sum(w) by {
            if i < w.len() - 1 {
                assert(w[i] == p[i]);
            }
        }
        if forall|i: int| 0 <= i < w.len() ==> w[i] <= u64::MAX {
            assert forall|i: int| 0 <= i < p.len() implies p[i] <= u64::MAX by {
                assert(w[i] == p[i]);
            }
            assert(weight_sum(w) <= w.len() * (u64::MAX as nat)) by (nonlinear_arith)
                requires
                    weight_sum(w) == weight_sum(p) + w.last(),
                    weight_sum(p) <= p.len() * (u64::MAX as nat),
                    w.last() <= u64::MAX,
                    p.len() + 1 == w.len(),
            ;
        }
    }
}

/// Weights that sum to zero are all zero.
pub proof fn lemma_zero_weights(w: Seq<u128>)
    requires
        weight_sum(w) == 0,
    ensures
        forall|i: int| 0 <= i < w.len() ==> w[i] == 0,
{
    lemma_weight_sum_bounds(w);
}

/// The sum of a list of weights that each fit a `u64`.
pub fn sum_weights(w: &Vec<u128>) -> (r: u128)
    requires
        forall|i: int| 0 <= i < w.len() ==> w@[i] <= u64::MAX,
    ensures
        r == weight_sum(w@),
{
    let mut sum: u128 = 0;
    let mut k: usize = 0;
    while k < w.len()
        invariant
            k <= w.len(),
            forall|i: int| 0 <= i < w.len() ==> w@[i] <= u64::MAX,
            sum == weight_sum(w@.take(k as int)),
        decreases w.len() - k,
    {
        let ghost t = w@.take(k as int + 1);
        proof {
            assert(t.drop_last() =~= w@.take(k as int));
            lemma_weight_sum_bounds(t);
            assert(forall|i: int| 0 <= i < t.len() ==> t[i] == w@[i]);
            assert((k as int + 1) * (u64::MAX as nat) <= u128::MAX) by (nonlinear_arith)
                requires
                    k < usize::MAX,
            ;
        }
        sum = sum + w[k];
        k = k + 1;
    }
    assert(w@.take(w.len() as int) =~= w@);
    sum
}

/// Relies on rand's `SeedableRng::seed_from_u64` for `StdRng`: a generator
/// whose sequence the seed determines.
#[verifier::external_body]
pub(crate) fn seeded(seed: u64) -> StdRng {
    StdRng::seed_from_u64(seed)
}

/// Relies on rand's `Rng::gen_range` over `0..bound`: a value below `bound`.
/// It panics on an empty range, which `requires` leaves out.
#[verifier::external_body]
pub(crate) fn draw_below(rng: &mut StdRng, bound: u64) -> (r: u64)
    requires
        bound > 0,
    ensures
        r < bound,
{
    rng.gen_range(0..bound)
}

/// Relies on rand's `WeightedIndex::new` and its `Distribution::sample`: an
/// index drawn with probability proportional to its weight, so never one of
/// weight zero. `new` fails only on an empty list, a zero total or (by
/// overflow) a total beyond `u128`, which `requires` leaves out.
#[verifier::external_body]
pub(crate) fn pick_weighted(rng: &mut StdRng, weights: &Vec<u128>) -> (r: usize)
    requires
        weights.len() > 0,
        0 < weight_sum(weights@) <= u128::MAX,
    ensures
        r < weights.len(),
        weights@[r as int] > 0,
{
    WeightedIndex::new(weights).unwrap().sample(rng)
}

} // verus!
