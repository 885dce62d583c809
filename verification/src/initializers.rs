use vstd::prelude::*;
use rand::rngs::StdRng;
use crate::atsp::{is_greedy_tour, nearest_neighbor_order, ATSP};
use crate::search::Initializer;
use crate::solution::{is_permutation, lemma_permutation_from_multiset, Solution};
use crate::utils::{gen_index, randomize_by_swaps, seed_rng};

verus! {

/// Starts a run from a uniformly random permutation, drawn by a Fisher-Yates
/// shuffle of the identity permutation.
pub struct RandomInitializer {
    pub rng: StdRng,
}

impl RandomInitializer {
    pub fn new(seed: u64) -> RandomInitializer {
        RandomInitializer { rng: seed_rng(seed) }
    }
}

impl Initializer for RandomInitializer {
    open spec fn init_post(pre: Self, post: Self, instance: ATSP, s: Solution) -> bool {
        true
    }

    #[verifier::loop_isolation(false)]
    fn initialize(&mut self, instance: &ATSP) -> (s: Solution) {
        let n = instance.dimension;
        let mut cities: Vec<u32> = Vec::new();
        for i in 0..n
            invariant
                cities@.len() == i,
                forall|k: int| 0 <= k < i ==> (#[trigger] cities@[k]) == k as u32,
        {
            cities.push(i as u32);
        }
        assert(is_permutation(cities@, n as int));
        let mut initial = match Solution::new(&cities) {
            Ok(s) => s,
            Err(_) => {
                proof {
                    assert(false);
                }
                vstd::pervasive::unreached()
            },
        };
        let ghost before = initial.order@;
        randomize_by_swaps(&mut initial, &mut self.rng);
        proof {
            lemma_permutation_from_multiset(before, initial.order@, n as int);
        }
        initial
    }
}

/// Starts a run from a greedy nearest-neighbor tour grown from a random
/// start node.
pub struct NearestNeighborInitializer {
    pub rng: StdRng,
}

impl NearestNeighborInitializer {
    pub fn new(seed: u64) -> NearestNeighborInitializer {
        NearestNeighborInitializer { rng: seed_rng(seed) }
    }
}

impl Initializer for NearestNeighborInitializer {
    /// The produced tour is a greedy nearest-neighbor tour from some start
    /// node: each later node is the cheapest still-unvisited one, ties going
    /// to the lowest node index.
    open spec fn init_post(pre: Self, post: Self, instance: ATSP, s: Solution) -> bool {
        is_greedy_tour(instance.mat(), s.order@, instance.dimension as int)
    }

    fn initialize(&mut self, instance: &ATSP) -> (s: Solution) {
        let start = gen_index(&mut self.rng, 0, instance.dimension);
        let order = nearest_neighbor_order(instance, start);
        match Solution::new(&order) {
            Ok(s) => s,
            Err(_) => {
                proof {
                    assert(false);
                }
                vstd::pervasive::unreached()
            },
        }
    }
}

} // verus!
