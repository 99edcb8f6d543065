//! Random choices: a uniform pick from a list, and a pick by weight.
//!
//! The random numbers come from a seeded generator of the `rand` crate that
//! the caller hands in. What is done with a number once it is drawn is
//! verified; of the numbers themselves nothing is assumed.

use rand::rngs::StdRng;
use rand::Rng;
use vstd::prelude::*;

verus! {

/// The seedable generator `rand::rngs::StdRng`. Nothing is known of what is
/// inside it; it is only handed through to the two functions that draw from
/// it.
#[verifier::external_type_specification]
#[verifier::external_body]
pub struct ExStdRng(rand::rngs::StdRng);

/// Draws a `u32` with `rand::Rng::gen`. The number depends on the state of
/// the generator, so nothing is claimed of it: whatever uses it is verified
/// for every number.
#[verifier::external_body]
pub(crate) fn draw_u32(rng: &mut StdRng) -> (r: u32) {
    rng.gen::<u32>()
}

/// Draws a `usize` with `rand::Rng::gen`. The number depends on the state
/// of the generator, so nothing is claimed of it: whatever uses it is
/// verified for every number.
#[verifier::external_body]
pub(crate) fn draw_usize(rng: &mut StdRng) -> (r: usize) {
    rng.gen::<usize>()
}

/// The sum of the first `n` weights.
pub open spec fn prefix_sum(weights: Seq<u32>, n: int) -> int
    decreases n,
{
    if n <= 0 {
        0
    } else {
        prefix_sum(weights, n - 1) + weights[n - 1]
    }
}

/// The sum of all weights.
pub open spec fn total_weight(weights: Seq<u32>) -> int {
    prefix_sum(weights, weights.len() as int)
}

/// Index `i` is the choice that the number `r` makes among the weights:
/// `r`, reduced below the total weight, falls into the stretch of `i` when
/// the weights are laid end to end.
pub open spec fn is_weighted_choice(weights: Seq<u32>, r: int, i: int) -> bool {
    &&& 0 <= i < weights.len()
    &&& prefix_sum(weights, i) <= r % total_weight(weights) < prefix_sum(weights, i + 1)
}

/// The index that the number `r` chooses among the weights.
pub open spec fn weighted_choice(weights: Seq<u32>, r: int) -> int {
    choose|i: int| is_weighted_choice(weights, r, i)
}

/// The index that the number `r` chooses among `len` elements of equal
/// chance.
pub open spec fn uniform_choice(r: int, len: int) -> int {
    r % len
}

/// The sums of the weights grow with the number of weights summed.
pub proof fn lemma_prefix_sum_monotone(weights: Seq<u32>, i: int, j: int)
    requires
        0 <= i <= j,
    ensures
        0 <= prefix_sum(weights, i) <= prefix_sum(weights, j),
    decreases j,
{
    if j > 0 {
        if i < j {
            lemma_prefix_sum_monotone(weights, i, j - 1);
        } else {
            lemma_prefix_sum_monotone(weights, i - 1, j - 1);
        }
    }
}

/// A number chooses at most one index, and one of positive weight.
pub proof fn lemma_weighted_choice_unique(weights: Seq<u32>, r: int, i: int, j: int)
    requires
        is_weighted_choice(weights, r, i),
        is_weighted_choice(weights, r, j),
    ensures
        i == j,
        weights[i] > 0,
        weighted_choice(weights, r) == i,
{
    if i < j {
        lemma_prefix_sum_monotone(weights, i + 1, j);
    }
    if j < i {
        lemma_prefix_sum_monotone(weights, j + 1, i);
    }
    let c = weighted_choice(weights, r);
    if c < i {
        lemma_prefix_sum_monotone(weights, c + 1, i);
    }
    if i < c {
        lemma_prefix_sum_monotone(weights, i + 1, c);
    }
}

/// Weights that are all positive sum to at least their number.
pub proof fn lemma_prefix_sum_positive(weights: Seq<u32>, n: int)
    requires
        0 <= n <= weights.len(),
        forall|i: int| 0 <= i < weights.len() ==> weights[i] >= 1,
    ensures
        prefix_sum(weights, n) >= n,
    decreases n,
{
    if n > 0 {
        lemma_prefix_sum_positive(weights, n - 1);
    }
}

/// Among the weights from the `n`-th on there is one into whose stretch the
/// target falls, if the target lies at or beyond the sum of the first `n`
/// weights and below the sum of all.
proof fn lemma_stretch_exists(weights: Seq<u32>, target: int, n: int)
    requires
        0 <= n <= weights.len(),
        prefix_sum(weights, n) <= target < total_weight(weights),
    ensures
        exists|i: int|
            n <= i < weights.len() && prefix_sum(weights, i) <= target < #[trigger] prefix_sum(
                weights,
                i + 1,
            ),
    decreases weights.len() - n,
{
    if target < prefix_sum(weights, n + 1) {
        assert(n < weights.len());
    } else {
        lemma_stretch_exists(weights, target, n + 1);
    }
}

/// Where the total weight is positive, every number chooses an index.
pub proof fn lemma_weighted_choice_exists(weights: Seq<u32>, r: int)
    requires
        0 < total_weight(weights),
        0 <= r,
    ensures
        is_weighted_choice(weights, r, weighted_choice(weights, r)),
{
    let target = r % total_weight(weights);
    lemma_stretch_exists(weights, target, 0);
    let i = choose|i: int|
        0 <= i < weights.len() && prefix_sum(weights, i) <= target < #[trigger] prefix_sum(
            weights,
            i + 1,
        );
    assert(is_weighted_choice(weights, r, i));
}

/// The sum of the first `n` weights is at most `n` times the largest `u32`.
pub proof fn lemma_prefix_sum_bound(weights: Seq<u32>, n: int)
    requires
        0 <= n,
    ensures
        prefix_sum(weights, n) <= n * 0xffff_ffff,
    decreases n,
{
    if n > 0 {
        lemma_prefix_sum_bound(weights, n - 1);
    }
}

/// The sum of the weights.
fn sum_weights(weights: &[u32]) -> (total: u128)
    ensures
        total == total_weight(weights@),
{
    let mut total: u128 = 0;
    let mut i: usize = 0;
    while i < weights.len()
        invariant
            i <= weights@.len(),
            total == prefix_sum(weights@, i as int),
        decreases weights@.len() - i,
    {
        proof {
            lemma_prefix_sum_bound(weights@, i as int);
        }
        total = total + weights[i] as u128;
        i = i + 1;
    }
    total
}

/// The index that the drawn number `r` chooses among the weights: `r` is
/// reduced below the total weight, and the first index whose running total
/// exceeds it is chosen.
pub fn weighted_index(weights: &[u32], r: u32) -> (i: usize)
    requires
        0 < total_weight(weights@),
    ensures
        is_weighted_choice(weights@, r as int, i as int),
        i == weighted_choice(weights@, r as int),
{
    let total = sum_weights(weights);
    let target: u128 = (r as u128) % total;
    let mut current: u128 = 0;
    let mut i: usize = 0;
    loop
        invariant
            i < weights@.len(),
            target == (r as int) % (total as int),
            total == total_weight(weights@),
            0 < total,
            current == prefix_sum(weights@, i as int),
            current <= target,
        decreases weights@.len() - i,
    {
        proof {
            lemma_prefix_sum_monotone(weights@, i + 1, weights@.len() as int);
            lemma_prefix_sum_bound(weights@, i as int);
        }
        current = current + weights[i] as u128;
        if target < current {
            proof {
                lemma_weighted_choice_unique(weights@, r as int, i as int, i as int);
            }
            return i;
        }
        i = i + 1;
    }
}

/// An index chosen at random by weight; 0 for an empty list.
pub fn generate_weighted(rng: &mut StdRng, weights: &[u32]) -> (i: usize)
    requires
        weights@.len() > 0 ==> 0 < total_weight(weights@),
    ensures
        weights@.len() == 0 ==> i == 0,
        weights@.len() > 0 ==> exists|r: u32| is_weighted_choice(weights@, r as int, i as int),
        weights@.len() > 0 ==> i < weights@.len() && weights@[i as int] > 0,
{
    if weights.len() == 0 {
        return 0;
    }
    let r = draw_u32(rng);
    let i = weighted_index(weights, r);
    proof {
        lemma_weighted_choice_unique(weights@, r as int, i as int, i as int);
    }
    i
}

/// An element of `vec` chosen at random: by the given weights, or, without
/// weights, with the same chance for each. `None` if and only if `vec` is
/// empty.
pub fn random_element<T: Copy>(vec: &[T], rng: &mut StdRng, weights: Option<&[u32]>) -> (chosen:
    Option<T>)
    requires
        weights matches Some(list) ==> list@.len() <= vec@.len() && (list@.len() > 0 ==> 0
            < total_weight(list@)),
    ensures
        chosen is None <==> vec@.len() == 0,
        chosen matches Some(value) ==> (match weights {
            Some(list) => if list@.len() == 0 {
                value == vec@[0]
            } else {
                exists|r: u32|
                    is_weighted_choice(list@, r as int, weighted_choice(list@, r as int)) && value
                        == vec@[#[trigger] weighted_choice(list@, r as int)]
            },
            None => exists|r: usize|
                value == vec@[#[trigger] uniform_choice(r as int, vec@.len() as int)],
        }),
{
    if vec.len() == 0 {
        return None;
    }
    match weights {
        Some(list) => {
            if list.len() == 0 {
                return Some(vec[0]);
            }
            let r = draw_u32(rng);
            let i = weighted_index(list, r);
            Some(vec[i])
        },
        None => {
            let r = draw_usize(rng);
            let index = r % vec.len();
            assert(index == uniform_choice(r as int, vec@.len() as int));
            Some(vec[index])
        },
    }
}

} // verus!
