use vstd::prelude::*;
use rand::rngs::StdRng;
use crate::deltas::{lemma_mod_id, lemma_swap_seq_multiset, swap_seq};
use crate::solution::Solution;
use crate::MAX_NODES;

verus! {

/// Declares rand's standard generator so that it can live in fields and
/// signatures; its state stays opaque to the verifier.
#[verifier::external_type_specification]
#[verifier::external_body]
pub struct ExStdRng(StdRng);

/// Relies on rand::SeedableRng::seed_from_u64: builds a deterministic
/// pseudo-random generator from a 64-bit seed.  The generator state is opaque
/// here, so nothing further is stated of it.
#[verifier::external_body]
pub(crate) fn seed_rng(seed: u64) -> (rng: StdRng) {
    rand::SeedableRng::seed_from_u64(seed)
}

/// Relies on rand::Rng::gen_range: returns a sampled value inside the given
/// range.  The call panics only on an empty range, which the precondition
/// rules out; which value comes back depends on the generator state, so only
/// the range of the result is stated.
#[verifier::external_body]
pub(crate) fn gen_index(rng: &mut StdRng, low: usize, high: usize) -> (r: usize)
    requires
        low < high,
    ensures
        low <= r < high,
{
    rand::Rng::gen_range(rng, low..high)
}

/// Draws an ordered pair of two distinct indices below `max`.
pub fn generate_unique_duplet(max: usize, rng: &mut StdRng) -> (r: (usize, usize))
    requires
        2 <= max <= MAX_NODES as usize,
    ensures
        r.0 < max,
        r.1 < max,
        r.0 != r.1,
{
    let i = gen_index(rng, 0, max);
    let offset = gen_index(rng, 0, max - 1);
    let j = (offset + i + 1) % max;
    proof {
        let m = max as int;
        let t = offset as int + i as int + 1;
        if t < m {
            lemma_mod_id(t, m);
        } else {
            vstd::arithmetic::div_mod::lemma_mod_add_multiples_vanish(t - m, m);
            lemma_mod_id(t - m, m);
        }
    }
    (i, j)
}

/// Fisher-Yates shuffle driven by the seeded generator: the elements are
/// rearranged in place, so the multiset of elements is preserved.
#[verifier::loop_isolation(false)]
pub fn shuffle(vector: &mut Vec<u32>, rng: &mut StdRng)
    ensures
        final(vector)@.len() == old(vector)@.len(),
        final(vector)@.to_multiset() == old(vector)@.to_multiset(),
{
    let size = vector.len();
    for i in 0..size
        invariant
            vector@.len() == size,
            vector@.to_multiset() == old(vector)@.to_multiset(),
    {
        let j = gen_index(rng, i, size);
        let ghost before = vector@;
        let a = vector[i];
        let b = vector[j];
        vector[i] = b;
        vector[j] = a;
        proof {
            assert(vector@ =~= swap_seq(before, i as int, j as int));
            lemma_swap_seq_multiset(before, i as int, j as int);
        }
    }
}

/// Reshuffles a tour in place; the visited set of nodes is untouched.
pub fn randomize_by_swaps(solution: &mut Solution, rng: &mut StdRng)
    requires
        old(solution).wf(),
    ensures
        final(solution).wf(),
        final(solution).dimension == old(solution).dimension,
        final(solution).order@.len() == old(solution).order@.len(),
        final(solution).order@.to_multiset() == old(solution).order@.to_multiset(),
{
    shuffle(&mut solution.order, rng)
}

} // verus!
