use atsp_solver::atsp::ATSP;
use atsp_solver::operation::{NeighborhoodIterator, Operation, OperationType};
use atsp_solver::solution::Solution;

fn four_node_instance() -> ATSP {
    ATSP {
        name: String::new(),
        comment: String::new(),
        dimension: 4,
        edge_weight_type: String::new(),
        edge_weight_format: String::new(),
        matrix: vec![
            vec![0, 1, 2, 3],
            vec![4, 0, 5, 6],
            vec![7, 8, 0, 9],
            vec![10, 11, 12, 0],
        ],
    }
}

fn asymmetric_six_node_instance() -> ATSP {
    ATSP {
        name: String::new(),
        comment: String::new(),
        dimension: 6,
        edge_weight_type: String::new(),
        edge_weight_format: String::new(),
        matrix: vec![
            vec![0, 12, 31, 5, 24, 8],
            vec![7, 0, 16, 29, 3, 20],
            vec![22, 9, 0, 14, 27, 2],
            vec![18, 25, 6, 0, 11, 30],
            vec![4, 21, 13, 28, 0, 17],
            vec![26, 1, 19, 10, 23, 0],
        ],
    }
}

fn symmetric_five_node_instance() -> ATSP {
    ATSP {
        name: String::new(),
        comment: String::new(),
        dimension: 5,
        edge_weight_type: String::new(),
        edge_weight_format: String::new(),
        matrix: vec![
            vec![0, 3, 8, 5, 9],
            vec![3, 0, 6, 7, 2],
            vec![8, 6, 0, 4, 1],
            vec![5, 7, 4, 0, 10],
            vec![9, 2, 1, 10, 0],
        ],
    }
}

#[test]
fn node_swap_delta_small_scenario() {
    let atsp = four_node_instance();
    let sol = Solution::new(&vec![0, 1, 2, 3]).unwrap();
    assert_eq!(atsp.cost_of_solution(&sol), 25);
    let op = Operation::new(OperationType::NodeSwap, 1, 2, 0);
    let delta = op.evaluate(&sol, &atsp);
    assert_eq!(delta, 1);
    let mut swapped = Solution::new(&vec![0, 1, 2, 3]).unwrap();
    op.apply(&mut swapped);
    assert_eq!(swapped.order, vec![0, 2, 1, 3]);
    assert_eq!(atsp.cost_of_solution(&swapped), 26);
}

// Sweeps every enabled move and checks the incremental delta against a full
// recomputation, on an asymmetric matrix: this is exactly the case where a
// boundary-only reversal formula would give wrong answers.
fn check_all_deltas(atsp: &ATSP, order: Vec<u32>) {
    let sol = Solution::new(&order).unwrap();
    let base_cost = atsp.cost_of_solution(&sol);
    let mut it = NeighborhoodIterator::new(atsp.dimension as u16, 0b11);
    while let Some(encoded) = it.next() {
        let op = Operation::from_int(encoded);
        let delta = op.evaluate(&sol, atsp);
        let mut applied = Solution::new(&order).unwrap();
        op.apply(&mut applied);
        let true_delta = atsp.cost_of_solution(&applied) - base_cost;
        assert_eq!(delta, true_delta);
    }
}

#[test]
fn deltas_match_full_recomputation_asymmetric() {
    let atsp = asymmetric_six_node_instance();
    check_all_deltas(&atsp, vec![0, 1, 2, 3, 4, 5]);
    check_all_deltas(&atsp, vec![3, 0, 5, 2, 4, 1]);
}

#[test]
fn deltas_match_full_recomputation_symmetric() {
    let atsp = symmetric_five_node_instance();
    check_all_deltas(&atsp, vec![0, 1, 2, 3, 4]);
    check_all_deltas(&atsp, vec![4, 2, 0, 1, 3]);
}

#[test]
fn deltas_match_full_recomputation_small() {
    let atsp = four_node_instance();
    check_all_deltas(&atsp, vec![0, 1, 2, 3]);
    check_all_deltas(&atsp, vec![0, 2, 1, 3]);
    check_all_deltas(&atsp, vec![2, 0, 3, 1]);
}

#[test]
fn node_swap_applied_twice_restores_tour() {
    let original = vec![5u32, 2, 0, 4, 1, 3];
    for i in 0..6u16 {
        for j in 0..6u16 {
            let mut sol = Solution::new(&original).unwrap();
            let op = Operation::new(OperationType::NodeSwap, i, j, 0);
            op.apply(&mut sol);
            op.apply(&mut sol);
            assert_eq!(sol.order, original);
        }
    }
}

#[test]
fn edge_reversal_applied_twice_restores_tour() {
    let original = vec![5u32, 2, 0, 4, 1, 3];
    for i in 0..6u16 {
        for j in 0..6u16 {
            let mut sol = Solution::new(&original).unwrap();
            let op = Operation::new(OperationType::EdgeSwap, i, j, 0);
            op.apply(&mut sol);
            op.apply(&mut sol);
            assert_eq!(sol.order, original);
        }
    }
}

#[test]
fn neighborhood_size_matches_yield_count_swept() {
    for n in 3..=50u16 {
        for flags in [0b01u32, 0b10, 0b11] {
            let it = NeighborhoodIterator::new(n, flags);
            let expected = it.size();
            let mut it = NeighborhoodIterator::new(n, flags);
            let mut count: u32 = 0;
            while let Some(_) = it.next() {
                count += 1;
            }
            assert_eq!(count, expected);
        }
    }
}

#[test]
fn packed_encoding_round_trips() {
    let samples = [
        (OperationType::NodeSwap, 0u16, 1u16, 0u16),
        (OperationType::NodeSwap, 1022, 1023, 0),
        (OperationType::EdgeSwap, 0, 2, 0),
        (OperationType::EdgeSwap, 511, 513, 0),
        (OperationType::NodeSwap, 7, 3, 0),
    ];
    for (kind, i, j, k) in samples {
        let op = Operation::new(kind, i, j, k);
        let decoded = Operation::from_int(op.to_int());
        assert_eq!(decoded.op_type, op.op_type);
        assert_eq!(decoded.first_idx, op.first_idx);
        assert_eq!(decoded.second_idx, op.second_idx);
        assert_eq!(decoded.third_idx, op.third_idx);
    }
}

#[test]
fn packed_encoding_layout_is_fixed() {
    let op = Operation::new(OperationType::EdgeSwap, 3, 7, 0);
    assert_eq!(op.to_int(), (1 << 30) | (3 << 20) | (7 << 10));
    let op = Operation::new(OperationType::NodeSwap, 1, 2, 0);
    assert_eq!(op.to_int(), (1 << 20) | (2 << 10));
}

#[test]
fn degenerate_edge_spans_cost_nothing() {
    let atsp = asymmetric_six_node_instance();
    let sol = Solution::new(&vec![0, 1, 2, 3, 4, 5]).unwrap();
    // zero-length span, boundary distance one, and the wraparound pair
    for (i, j) in [(2u16, 2u16), (2, 3), (3, 2), (0, 5), (5, 0)] {
        let op = Operation::new(OperationType::EdgeSwap, i, j, 0);
        assert_eq!(op.evaluate(&sol, &atsp), 0);
        let mut applied = Solution::new(&vec![0, 1, 2, 3, 4, 5]).unwrap();
        op.apply(&mut applied);
        assert_eq!(applied.order, vec![0, 1, 2, 3, 4, 5]);
    }
}

#[test]
fn neighborhood_size_at_the_dimension_cap() {
    let it = NeighborhoodIterator::new(1023, 0b11);
    // 1023*1022/2 node swaps plus 1023*1022/2 - 1023 reversals
    assert_eq!(it.size(), 522753 + 521730);
}
