//! Sampling from a discrete distribution.
//!
//! A distribution is a list of items, each with its probability. A draw
//! walks the list and returns the first item at which the probabilities
//! added up so far exceed a random cutoff below 1.0; if none does, because
//! the probabilities weigh less than the cutoff, it returns the last item.
use rand::rngs::StdRng;
use vstd::prelude::*;

use crate::utils::fixed::ONE;
use crate::utils::random::random_below;

verus! {

/// A discrete distribution: each item with its probability.
pub struct HashMapDistribution<I> {
    pub map: Vec<(I, i64)>,
}

/// The probabilities of the first `n` items, added up.
pub open spec fn cumulative<I>(distribution: Seq<(I, i64)>, n: nat) -> int
    decreases n,
{
    if n == 0 {
        0
    } else {
        cumulative(distribution, (n - 1) as nat) + distribution[n - 1].1
    }
}

/// The item at `index` is the one that a draw with this cutoff returns:
/// the first at which the cumulative probability exceeds the cutoff, or the
/// last item if there is none.
pub open spec fn is_picked<I>(distribution: Seq<(I, i64)>, cutoff: int, index: int) -> bool {
    &&& 0 <= index < distribution.len()
    &&& forall|j: int| 0 <= j < index ==> #[trigger] cumulative(distribution, (j + 1) as nat) <= cutoff
    &&& cumulative(distribution, (index + 1) as nat) > cutoff || index == distribution.len() - 1
}

/// The probabilities of the first `n` items add up to the same in two
/// distributions that agree on these items.
pub proof fn lemma_cumulative_prefix<I>(first: Seq<(I, i64)>, second: Seq<(I, i64)>, n: nat)
    requires
        n <= first.len(),
        n <= second.len(),
        forall|j: int| 0 <= j < n ==> first[j] == second[j],
    ensures
        cumulative(first, n) == cumulative(second, n),
    decreases n,
{
    if n > 0 {
        lemma_cumulative_prefix(first, second, (n - 1) as nat);
    }
}

/// A draw with a cutoff below the weight of the whole distribution never
/// returns an item of probability zero.
pub proof fn lemma_picked_has_weight<I>(distribution: Seq<(I, i64)>, cutoff: int, index: int)
    requires
        is_picked(distribution, cutoff, index),
        0 <= cutoff < cumulative(distribution, distribution.len()),
    ensures
        distribution[index].1 > 0,
{
    if index > 0 {
        assert(cumulative(distribution, ((index - 1) + 1) as nat) <= cutoff);
    }
    assert(cumulative(distribution, (index + 1) as nat) == cumulative(distribution, index as nat)
        + distribution[index].1);
}

/// One cutoff picks one item.
pub proof fn lemma_picked_is_unique<I>(
    distribution: Seq<(I, i64)>,
    cutoff: int,
    first: int,
    second: int,
)
    requires
        is_picked(distribution, cutoff, first),
        is_picked(distribution, cutoff, second),
    ensures
        first == second,
{
    if first < second {
        assert(cumulative(distribution, (first + 1) as nat) <= cutoff);
    } else if second < first {
        assert(cumulative(distribution, (second + 1) as nat) <= cutoff);
    }
}

/// A sum of `n` probabilities is at most `n` times the largest magnitude.
proof fn lemma_cumulative_bounded<I>(distribution: Seq<(I, i64)>, n: nat)
    requires
        n <= distribution.len(),
    ensures
        -(n * 0x8000_0000_0000_0000) <= cumulative(distribution, n) <= n * 0x8000_0000_0000_0000,
    decreases n,
{
    if n > 0 {
        lemma_cumulative_bounded(distribution, (n - 1) as nat);
    }
}

/// The position of the item that a draw with the given cutoff returns.
pub fn pick<I>(distribution: &Vec<(I, i64)>, cutoff: i64) -> (index: usize)
    requires
        distribution.len() > 0,
    ensures
        is_picked(distribution@, cutoff as int, index as int),
{
    let mut cdf: i128 = 0;
    let mut i: usize = 0;
    while i < distribution.len()
        invariant
            0 <= i <= distribution.len(),
            distribution.len() > 0,
            cdf == cumulative(distribution@, i as nat),
            forall|j: int|
                0 <= j < i ==> #[trigger] cumulative(distribution@, (j + 1) as nat) <= cutoff,
        decreases distribution.len() - i,
    {
        proof {
            lemma_cumulative_bounded(distribution@, i as nat);
        }
        cdf = cdf + distribution[i].1 as i128;
        if cdf > cutoff as i128 {
            return i;
        }
        i += 1;
    }
    distribution.len() - 1
}

/// Draws one item from the distribution.
///
/// The item is the one that some cutoff below 1.0 picks. Where the
/// probabilities weigh at least 1.0 it is never an item of probability
/// zero.
pub fn sample_from_hashmap_dist<I: Copy>(distribution: &Vec<(I, i64)>, rng: &mut StdRng) -> (item:
    I)
    requires
        distribution.len() > 0,
    ensures
        exists|cutoff: int, index: int|
            {
                &&& 0 <= cutoff < ONE
                &&& #[trigger] is_picked(distribution@, cutoff, index)
                &&& distribution@[index].0 == item
                &&& cumulative(distribution@, distribution@.len()) >= ONE ==> distribution@[index].1
                    > 0
            },
{
    let cutoff: i64 = random_below(rng, ONE);
    let index: usize = pick(distribution, cutoff);
    proof {
        if cumulative(distribution@, distribution@.len()) >= ONE {
            lemma_picked_has_weight(distribution@, cutoff as int, index as int);
        }
        assert(is_picked(distribution@, cutoff as int, index as int));
    }
    distribution[index].0
}

} // verus!
