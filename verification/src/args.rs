use vstd::prelude::*;

verus! {

/// The selectable strategies: each iterative strategy exists plainly (random
/// initial tour) and in a variant seeded by the nearest-neighbor heuristic.
#[derive(Debug, Clone, Copy, PartialEq, Eq, Structural)]
pub enum Algorithm {
    Random,
    RandomWalk,
    NNHeuristic,
    GreedySearch,
    GreedySearchNN,
    SteepestSearch,
    SteepestSearchNN,
    SimulatedAnnealing,
    SimulatedAnnealingNN,
    TabuSearch,
    TabuSearchNN,
}

pub open spec fn alg_name(alg: Algorithm) -> Seq<char> {
    match alg {
        Algorithm::Random => "random"@,
        Algorithm::RandomWalk => "random-walk"@,
        Algorithm::NNHeuristic => "nn-heuristic"@,
        Algorithm::GreedySearch => "greedy-search"@,
        Algorithm::GreedySearchNN => "greedy-search-nn"@,
        Algorithm::SteepestSearch => "steepest-search"@,
        Algorithm::SteepestSearchNN => "steepest-search-nn"@,
        Algorithm::SimulatedAnnealing => "simulated-annealing"@,
        Algorithm::SimulatedAnnealingNN => "simulated-annealing-nn"@,
        Algorithm::TabuSearch => "tabu-search"@,
        Algorithm::TabuSearchNN => "tabu-search-nn"@,
    }
}

/// The lower-case dashed name of a strategy, as written in reports.
pub fn alg_as_str(alg: &Algorithm) -> (r: &str)
    ensures
        r@ == alg_name(*alg),
{
    match alg {
        Algorithm::Random => "random",
        Algorithm::RandomWalk => "random-walk",
        Algorithm::NNHeuristic => "nn-heuristic",
        Algorithm::GreedySearch => "greedy-search",
        Algorithm::GreedySearchNN => "greedy-search-nn",
        Algorithm::SteepestSearch => "steepest-search",
        Algorithm::SteepestSearchNN => "steepest-search-nn",
        Algorithm::SimulatedAnnealing => "simulated-annealing",
        Algorithm::SimulatedAnnealingNN => "simulated-annealing-nn",
        Algorithm::TabuSearch => "tabu-search",
        Algorithm::TabuSearchNN => "tabu-search-nn",
    }
}

} // verus!
