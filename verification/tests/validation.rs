use atsp_solver::args::{alg_as_str, Algorithm};
use atsp_solver::atsp::ATSP;
use atsp_solver::errors::MyError;
use atsp_solver::search::Context;
use atsp_solver::solution::Solution;
use atsp_solver::utils::generate_unique_duplet;

fn four_node_instance() -> ATSP {
    ATSP {
        name: String::new(),
        comment: String::new(),
        dimension: 4,
        edge_weight_type: String::new(),
        edge_weight_format: String::new(),
        matrix: vec![
            vec![0, 1, 2, 3],
            vec![4, 0, 5, 6],
            vec![7, 8, 0, 9],
            vec![10, 11, 12, 0],
        ],
    }
}

#[test]
fn valid_tour_passes_validation() {
    let atsp = four_node_instance();
    let sol = Solution::new(&vec![3, 1, 0, 2]).unwrap();
    assert!(atsp.is_solution_valid(&sol).is_ok());
}

#[test]
fn dimension_mismatch_is_reported_first() {
    let atsp = four_node_instance();
    let sol = Solution::new(&vec![0, 1, 2]).unwrap();
    assert_eq!(atsp.is_solution_valid(&sol), Err(MyError::DimensionMismatch));
}

#[test]
fn duplicate_node_is_a_length_mismatch() {
    let atsp = four_node_instance();
    let sol = Solution::new(&vec![0, 1, 1, 3]).unwrap();
    assert_eq!(atsp.is_solution_valid(&sol), Err(MyError::LengthMismatch));
}

#[test]
fn node_outside_range_is_out_of_range() {
    let atsp = four_node_instance();
    let sol = Solution::new(&vec![0, 1, 2, 9]).unwrap();
    assert_eq!(atsp.is_solution_valid(&sol), Err(MyError::OutOfRange));
}

#[test]
fn cost_of_identity_and_reversed_orders() {
    let atsp = four_node_instance();
    let sol = Solution::new(&vec![0, 1, 2, 3]).unwrap();
    assert_eq!(atsp.cost_of_solution(&sol), 25);
    let sol = Solution::new(&vec![3, 2, 1, 0]).unwrap();
    // 12 + 8 + 4 + 3
    assert_eq!(atsp.cost_of_solution(&sol), 27);
}

#[test]
fn instance_invariant_check_accepts_and_rejects() {
    let atsp = four_node_instance();
    assert!(atsp.check_wf());
    let ragged = ATSP {
        name: String::new(),
        comment: String::new(),
        dimension: 2,
        edge_weight_type: String::new(),
        edge_weight_format: String::new(),
        matrix: vec![vec![0, 1], vec![2]],
    };
    assert!(!ragged.check_wf());
    let oversized_entry = ATSP {
        name: String::new(),
        comment: String::new(),
        dimension: 2,
        edge_weight_type: String::new(),
        edge_weight_format: String::new(),
        matrix: vec![vec![0, 2_000_000], vec![1, 0]],
    };
    assert!(!oversized_entry.check_wf());
    let empty = ATSP {
        name: String::new(),
        comment: String::new(),
        dimension: 0,
        edge_weight_type: String::new(),
        edge_weight_format: String::new(),
        matrix: vec![],
    };
    assert!(!empty.check_wf());
}

#[test]
fn algorithm_names_render_as_documented() {
    assert_eq!(alg_as_str(&Algorithm::Random), "random");
    assert_eq!(alg_as_str(&Algorithm::RandomWalk), "random-walk");
    assert_eq!(alg_as_str(&Algorithm::NNHeuristic), "nn-heuristic");
    assert_eq!(alg_as_str(&Algorithm::GreedySearch), "greedy-search");
    assert_eq!(alg_as_str(&Algorithm::GreedySearchNN), "greedy-search-nn");
    assert_eq!(alg_as_str(&Algorithm::SteepestSearch), "steepest-search");
    assert_eq!(alg_as_str(&Algorithm::SteepestSearchNN), "steepest-search-nn");
    assert_eq!(alg_as_str(&Algorithm::SimulatedAnnealing), "simulated-annealing");
    assert_eq!(alg_as_str(&Algorithm::SimulatedAnnealingNN), "simulated-annealing-nn");
    assert_eq!(alg_as_str(&Algorithm::TabuSearch), "tabu-search");
    assert_eq!(alg_as_str(&Algorithm::TabuSearchNN), "tabu-search-nn");
}

#[test]
fn context_records_improvements_and_iterations() {
    let mut ctx = Context::new(100);
    assert_eq!(ctx.initial_cost, 100);
    assert_eq!(ctx.current_cost, 100);
    assert_eq!(ctx.best_cost, 100);
    assert_eq!(ctx.cost_history, vec![100]);
    assert_eq!(ctx.evaluations_history, vec![0]);

    ctx.on_iteration_end();
    assert_eq!(ctx.iterations, 1);
    assert_eq!(ctx.iterations_without_improvement, 1);

    ctx.evaluations = 7;
    ctx.current_cost = 90;
    ctx.on_change_best();
    assert_eq!(ctx.best_cost, 90);
    assert_eq!(ctx.steps, 1);
    assert_eq!(ctx.iterations_without_improvement, 0);
    assert_eq!(ctx.cost_history, vec![100, 90]);
    assert_eq!(ctx.evaluations_history, vec![0, 7]);
}

#[test]
fn unique_duplets_are_distinct_and_in_range() {
    let mut rng: rand::rngs::StdRng = rand::SeedableRng::seed_from_u64(123);
    for max in [2usize, 3, 5, 17] {
        for _ in 0..50 {
            let (i, j) = generate_unique_duplet(max, &mut rng);
            assert!(i < max);
            assert!(j < max);
            assert_ne!(i, j);
        }
    }
}

#[test]
fn shuffle_keeps_the_elements() {
    let mut rng: rand::rngs::StdRng = rand::SeedableRng::seed_from_u64(5);
    let mut v: Vec<u32> = (0..40).collect();
    atsp_solver::utils::shuffle(&mut v, &mut rng);
    assert_eq!(v.len(), 40);
    let mut sorted = v.clone();
    sorted.sort();
    let expected: Vec<u32> = (0..40).collect();
    assert_eq!(sorted, expected);
    // a seeded shuffle of 40 elements leaving the order untouched would be
    // astronomically unlikely; with this seed it does move elements
    assert_ne!(v, expected);
}

#[test]
fn solution_new_copies_the_order() {
    let order = vec![2u32, 0, 1];
    let sol = Solution::new(&order).unwrap();
    assert_eq!(sol.dimension, 3);
    assert_eq!(sol.order, order);
    let cloned = sol.clone();
    assert_eq!(cloned.order, sol.order);
    assert_eq!(cloned.dimension, sol.dimension);
}
