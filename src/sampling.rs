//! Weighted random choice.
use vstd::prelude::*;
use rand::rngs::StdRng;
use rand::{Rng, SeedableRng};

verus! {

/// rand's `StdRng`, held opaquely: only the two calls below look inside it.
#[verifier::external_type_specification]
#[verifier::external_body]
pub struct ExStdRng(StdRng);

/// Relies on rand's `SeedableRng::seed_from_u64` for `StdRng`: a generator
/// whose stream is fixed by the seed.
#[verifier::external_body]
fn seed_std_rng(seed: u64) -> StdRng {
    StdRng::seed_from_u64(seed)
}

/// Relies on rand's `Rng::gen_range` on `0..bound`: a value drawn uniformly
/// from that range. It panics on an empty range, which `bound > 0` excludes.
#[verifier::external_body]
fn draw_below(rng: &mut StdRng, bound: usize) -> (r: usize)
    requires
        bound > 0,
    ensures
        r < bound,
{
    rng.gen_range(0..bound)
}

/// The source of randomness of the generator.
pub struct TileRng {
    rng: StdRng,
}

impl TileRng {
    /// A generator whose draws are fixed by `seed`.
    pub fn seeded(seed: u64) -> TileRng {
        TileRng { rng: seed_std_rng(seed) }
    }

    /// A value drawn uniformly below `bound`.
    pub fn below(&mut self, bound: usize) -> (r: usize)
        requires
            bound > 0,
        ensures
            r < bound,
    {
        draw_below(&mut self.rng, bound)
    }
}

/// The sum of a sequence of weights.
pub open spec fn spec_sum(w: Seq<usize>) -> int
    decreases w.len(),
{
    if w.len() == 0 {
        0
    } else {
        spec_sum(w.drop_last()) + w.last()
    }
}

/// Summing one more weight of a prefix.
pub proof fn lemma_sum_step(w: Seq<usize>, i: int)
    requires
        0 <= i < w.len(),
    ensures
        spec_sum(w.subrange(0, i + 1)) == spec_sum(w.subrange(0, i)) + w[i],
{
    assert(w.subrange(0, i + 1).drop_last() =~= w.subrange(0, i));
}

/// A prefix weighs no more than the whole sequence.
pub proof fn lemma_sum_prefix_le(w: Seq<usize>, i: int)
    requires
        0 <= i <= w.len(),
    ensures
        0 <= spec_sum(w.subrange(0, i)) <= spec_sum(w),
    decreases w.len() - i,
{
    if i == w.len() {
        assert(w.subrange(0, i) =~= w);
        lemma_sum_nonneg(w);
    } else {
        lemma_sum_step(w, i);
        lemma_sum_prefix_le(w, i + 1);
        lemma_sum_nonneg(w.subrange(0, i));
    }
}

pub proof fn lemma_sum_nonneg(w: Seq<usize>)
    ensures
        spec_sum(w) >= 0,
    decreases w.len(),
{
    if w.len() > 0 {
        lemma_sum_nonneg(w.drop_last());
    }
}

/// The sum of the weights; `None` when it does not fit in a `usize`.
pub fn sum_weights(weights: &Vec<usize>) -> (r: Option<usize>)
    ensures
        r matches Some(s) ==> s == spec_sum(weights@),
        r is None <==> spec_sum(weights@) > usize::MAX,
{
    let mut sum: usize = 0;
    let mut i: usize = 0;
    while i < weights.len()
        invariant
            0 <= i <= weights@.len(),
            sum == spec_sum(weights@.subrange(0, i as int)),
        decreases weights@.len() - i,
    {
        proof {
            lemma_sum_step(weights@, i as int);
            lemma_sum_prefix_le(weights@, i + 1);
        }
        match sum.checked_add(weights[i]) {
            Some(next) => {
                sum = next;
            },
            None => {
                return None;
            },
        }
        i += 1;
    }
    proof {
        assert(weights@.subrange(0, i as int) =~= weights@);
    }
    Some(sum)
}

/// The index whose slot holds `r` when the weights are laid end to end from
/// zero: the first `i` with `r < w[0] + .. + w[i]`. `None` when `r` lies
/// beyond the total.
pub fn pick_by_weight(weights: &Vec<usize>, r: usize) -> (res: Option<usize>)
    requires
        spec_sum(weights@) <= usize::MAX,
    ensures
        res.is_some() <==> r < spec_sum(weights@),
        res matches Some(i) ==> {
            &&& i < weights@.len()
            &&& spec_sum(weights@.subrange(0, i as int)) <= r
            &&& r < spec_sum(weights@.subrange(0, i + 1))
        },
{
    let mut cursor: usize = 0;
    let mut i: usize = 0;
    while i < weights.len()
        invariant
            0 <= i <= weights@.len(),
            spec_sum(weights@) <= usize::MAX,
            cursor == spec_sum(weights@.subrange(0, i as int)),
            cursor <= r,
        decreases weights@.len() - i,
    {
        proof {
            lemma_sum_step(weights@, i as int);
            lemma_sum_prefix_le(weights@, i + 1);
        }
        cursor = cursor + weights[i];
        if cursor > r {
            proof {
                lemma_sum_prefix_le(weights@, i + 1);
            }
            return Some(i);
        }
        i += 1;
    }
    proof {
        assert(weights@.subrange(0, i as int) =~= weights@);
    }
    None
}

/// Draws an index with probability proportional to its weight. `None` when
/// all weights are zero.
pub fn random_by_weight(weights: &Vec<usize>, rng: &mut TileRng) -> (res: Option<usize>)
    requires
        spec_sum(weights@) <= usize::MAX,
    ensures
        res.is_some() <==> spec_sum(weights@) > 0,
        res matches Some(i) ==> i < weights@.len() && weights@[i as int] > 0,
{
    let sum = match sum_weights(weights) {
        Some(sum) => sum,
        None => {
            return None;
        },
    };
    if sum == 0 {
        return None;
    }
    let random = rng.below(sum);
    let res = pick_by_weight(weights, random);
    proof {
        if let Some(i) = res {
            lemma_sum_step(weights@, i as int);
        }
    }
    res
}

} // verus!
