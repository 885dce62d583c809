use atsp_solver::atsp::ATSP;
use atsp_solver::explorers::{
    GreedySearchExplorer, PassThroughExplorer, RandomExplorer, RandomWalkExplorer,
    SteepestSearchExplorer, TabuSearchExplorer,
};
use atsp_solver::initializers::{NearestNeighborInitializer, RandomInitializer};
use atsp_solver::operation::{Operation, OperationType};
use atsp_solver::search::{Context, Explorer, Initializer, SearchAlgorithm};
use atsp_solver::solution::Solution;

fn four_node_instance() -> ATSP {
    ATSP {
        name: String::new(),
        comment: String::new(),
        dimension: 4,
        edge_weight_type: String::new(),
        edge_weight_format: String::new(),
        matrix: vec![
            vec![0, 1, 2, 3],
            vec![4, 0, 5, 6],
            vec![7, 8, 0, 9],
            vec![10, 11, 12, 0],
        ],
    }
}

fn asymmetric_six_node_instance() -> ATSP {
    ATSP {
        name: String::new(),
        comment: String::new(),
        dimension: 6,
        edge_weight_type: String::new(),
        edge_weight_format: String::new(),
        matrix: vec![
            vec![0, 12, 31, 5, 24, 8],
            vec![7, 0, 16, 29, 3, 20],
            vec![22, 9, 0, 14, 27, 2],
            vec![18, 25, 6, 0, 11, 30],
            vec![4, 21, 13, 28, 0, 17],
            vec![26, 1, 19, 10, 23, 0],
        ],
    }
}

fn zero_cost_instance(n: usize) -> ATSP {
    ATSP {
        name: String::new(),
        comment: String::new(),
        dimension: n,
        edge_weight_type: String::new(),
        edge_weight_format: String::new(),
        matrix: vec![vec![0; n]; n],
    }
}

#[test]
fn steepest_on_local_optimum_is_terminal_without_mutation() {
    let atsp = zero_cost_instance(5);
    let mut explorer = SteepestSearchExplorer::new(42, 0b11);
    let mut sol = Solution::new(&vec![0, 1, 2, 3, 4]).unwrap();
    let mut ctx = Context::new(0);
    explorer.explore(&atsp, &mut sol, &mut ctx);
    assert_eq!(sol.order, vec![0, 1, 2, 3, 4]);
    assert!(explorer.stop_condition(&ctx));
    assert_eq!(ctx.current_cost, 0);
    assert_eq!(ctx.steps, 0);
    // every move of the 5-node neighborhood was evaluated exactly once
    assert_eq!(ctx.evaluations, 15);
}

#[test]
fn steepest_engine_reaches_local_optimum_deterministically() {
    let atsp = asymmetric_six_node_instance();
    let run = |seed: u64| {
        let initializer = RandomInitializer::new(seed);
        let explorer = SteepestSearchExplorer::new(seed, 0b11);
        let mut alg = SearchAlgorithm::new(&atsp, initializer, explorer, 0);
        alg.run()
    };
    let (sol1, ctx1) = run(7);
    let (sol2, ctx2) = run(7);
    assert_eq!(sol1.order, sol2.order);
    assert_eq!(ctx1.best_cost, ctx2.best_cost);
    assert_eq!(ctx1.evaluations, ctx2.evaluations);
    assert_eq!(ctx1.iterations, ctx2.iterations);
    assert_eq!(ctx1.cost_history, ctx2.cost_history);
    assert_eq!(ctx1.evaluations_history, ctx2.evaluations_history);
    assert_eq!(ctx1.best_cost, atsp.cost_of_solution(&sol1));
    assert!(atsp.is_solution_valid(&sol1).is_ok());
}

#[test]
fn greedy_engine_is_deterministic_and_consistent() {
    let atsp = asymmetric_six_node_instance();
    let run = |seed: u64| {
        let initializer = RandomInitializer::new(seed);
        let explorer = GreedySearchExplorer::new(seed, 6, 0b11);
        let mut alg = SearchAlgorithm::new(&atsp, initializer, explorer, 0);
        alg.run()
    };
    let (sol1, ctx1) = run(11);
    let (sol2, ctx2) = run(11);
    assert_eq!(sol1.order, sol2.order);
    assert_eq!(ctx1.best_cost, ctx2.best_cost);
    assert_eq!(ctx1.evaluations, ctx2.evaluations);
    assert_eq!(ctx1.iterations, ctx2.iterations);
    assert_eq!(ctx1.best_cost, atsp.cost_of_solution(&sol1));
    assert!(atsp.is_solution_valid(&sol1).is_ok());
    // a greedy run from a different seed still ends in a valid tour
    let (sol3, ctx3) = run(12);
    assert_eq!(ctx3.best_cost, atsp.cost_of_solution(&sol3));
}

#[test]
fn tabu_engine_terminates_by_patience_and_tracks_best() {
    let atsp = asymmetric_six_node_instance();
    let run = |seed: u64| {
        let initializer = RandomInitializer::new(seed);
        let explorer = TabuSearchExplorer::new(seed, 0b11, 8, 10, 4);
        let mut alg = SearchAlgorithm::new(&atsp, initializer, explorer, 0);
        alg.run()
    };
    let (sol1, ctx1) = run(3);
    let (sol2, ctx2) = run(3);
    assert_eq!(sol1.order, sol2.order);
    assert_eq!(ctx1.best_cost, ctx2.best_cost);
    assert_eq!(ctx1.evaluations, ctx2.evaluations);
    assert_eq!(ctx1.best_cost, atsp.cost_of_solution(&sol1));
    assert!(atsp.is_solution_valid(&sol1).is_ok());
}

#[test]
fn random_walk_counts_one_evaluation_per_step() {
    let atsp = asymmetric_six_node_instance();
    let mut explorer = RandomWalkExplorer::new(5, 0b11);
    let mut sol = Solution::new(&vec![0, 1, 2, 3, 4, 5]).unwrap();
    let mut ctx = Context::new(atsp.cost_of_solution(&sol));
    let steps: u32 = 40;
    for _ in 0..steps {
        explorer.explore(&atsp, &mut sol, &mut ctx);
    }
    assert_eq!(ctx.evaluations, steps);
    // the incrementally tracked cost never drifted from the true cost
    assert_eq!(ctx.current_cost, atsp.cost_of_solution(&sol));
    assert!(atsp.is_solution_valid(&sol).is_ok());
}

#[test]
fn random_explorer_resamples_whole_tour() {
    let atsp = asymmetric_six_node_instance();
    let mut explorer = RandomExplorer::new(9);
    let mut sol = Solution::new(&vec![0, 1, 2, 3, 4, 5]).unwrap();
    let mut ctx = Context::new(atsp.cost_of_solution(&sol));
    explorer.explore(&atsp, &mut sol, &mut ctx);
    assert_eq!(ctx.evaluations, 1);
    assert_eq!(ctx.current_cost, atsp.cost_of_solution(&sol));
    assert!(atsp.is_solution_valid(&sol).is_ok());
}

#[test]
fn pass_through_engine_returns_initializer_tour() {
    let atsp = four_node_instance();
    let initializer = NearestNeighborInitializer::new(0);
    let explorer = PassThroughExplorer {};
    let mut alg = SearchAlgorithm::new(&atsp, initializer, explorer, 0);
    let (sol, ctx) = alg.run();
    assert_eq!(ctx.best_cost, atsp.cost_of_solution(&sol));
    assert_eq!(ctx.iterations, 1);
    assert!(atsp.is_solution_valid(&sol).is_ok());
}

#[test]
fn nearest_neighbor_from_node_zero_is_greedy() {
    let atsp = four_node_instance();
    let sol = atsp.nearest_neigbor();
    assert_eq!(sol.order, vec![0, 1, 2, 3]);
    assert_eq!(atsp.cost_of_solution(&sol), 25);
}

#[test]
fn initializers_produce_valid_tours() {
    let atsp = asymmetric_six_node_instance();
    let mut random_init = RandomInitializer::new(17);
    let sol = random_init.initialize(&atsp);
    assert!(atsp.is_solution_valid(&sol).is_ok());
    let mut nn_init = NearestNeighborInitializer::new(17);
    let sol = nn_init.initialize(&atsp);
    assert!(atsp.is_solution_valid(&sol).is_ok());
}

// The best improving move is tabu: it must not enter the candidate cache
// unless applying it would beat the best-known cost (aspiration criterion).
#[test]
fn tabu_skips_tabu_move_unless_aspiration_applies() {
    let atsp = four_node_instance();
    // from the tour [0,2,1,3] (cost 26) the only improving node swap is
    // swapping positions 1 and 2, which restores cost 25
    let sol = Solution::new(&vec![0, 2, 1, 3]).unwrap();
    assert_eq!(atsp.cost_of_solution(&sol), 26);
    let best_move = Operation::new(OperationType::NodeSwap, 1, 2, 0);
    let enc = best_move.to_int();

    // best-known cost 25 already: no aspiration, the tabu move is skipped
    let mut explorer = TabuSearchExplorer::new(1, 0b01, 100, 10, 4);
    explorer.tabu_list.push_front(enc);
    let mut ctx = Context::new(26);
    ctx.best_cost = 25;
    let mut work = Solution::new(&vec![0, 2, 1, 3]).unwrap();
    explorer.explore(&atsp, &mut work, &mut ctx);
    assert_eq!(work.order, vec![0, 2, 1, 3]);
    assert!(explorer.candidates.iter().all(|c| c.1 != enc));
    assert!(!explorer.candidates.is_empty());

    // best-known cost still 26: the tabu move would improve on it, so the
    // aspiration criterion lets it through, ahead of every other candidate
    let mut explorer = TabuSearchExplorer::new(1, 0b01, 100, 10, 4);
    explorer.tabu_list.push_front(enc);
    let mut ctx = Context::new(26);
    let mut work = Solution::new(&vec![0, 2, 1, 3]).unwrap();
    explorer.explore(&atsp, &mut work, &mut ctx);
    assert_eq!(explorer.candidates[0].1, enc);
    assert_eq!(explorer.candidates[0].0, -1);

    // the next step pops the aspirating move, applies it, and remembers it
    // at the front of the tabu list
    explorer.explore(&atsp, &mut work, &mut ctx);
    assert_eq!(work.order, vec![0, 1, 2, 3]);
    assert_eq!(ctx.current_cost, 25);
    assert_eq!(explorer.tabu_list.front(), Some(&enc));
}
