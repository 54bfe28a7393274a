use std::sync::atomic::AtomicBool;
use wasm_solver::batch::BatchSearchState;
use wasm_solver::entry::NumberEntry;
use wasm_solver::solver::{solve_subset_sum, SolverConfig, SolverResult};

fn indexed(nums: &[u64]) -> Vec<NumberEntry> {
    nums.iter()
        .enumerate()
        .map(|(i, &v)| NumberEntry { value: v, original_index: i })
        .collect()
}

fn values_of_all(state: &BatchSearchState) -> Vec<Vec<u64>> {
    let mut out: Vec<Vec<u64>> = state
        .all_results()
        .iter()
        .map(|c| c.iter().map(|e| e.value).collect())
        .collect();
    out.sort();
    out
}

#[test]
fn one_to_five_reaching_five() {
    let entries = indexed(&[1, 2, 3, 4, 5]);
    let mut state = BatchSearchState::new(&entries, 5, 1, 5, 100);
    let mut steps = 0;
    loop {
        let result = state.search_batch(2);
        steps += 1;
        assert!(steps < 1000);
        if result.finished {
            assert_eq!(result.total_found, 3);
            break;
        }
    }
    assert_eq!(values_of_all(&state), vec![vec![1, 4], vec![2, 3], vec![5]]);
}

#[test]
fn one_to_five_in_walk_order() {
    let entries = indexed(&[1, 2, 3, 4, 5]);
    let mut state = BatchSearchState::new(&entries, 5, 1, 5, 100);
    let result = state.search_batch(1_000);
    assert!(result.finished);
    let found: Vec<Vec<u64>> = result
        .new_results
        .iter()
        .map(|c| c.iter().map(|e| e.value).collect())
        .collect();
    assert_eq!(found, vec![vec![1, 4], vec![2, 3], vec![5]]);
}

#[test]
fn values_above_the_target() {
    let flag = AtomicBool::new(false);
    let entries = indexed(&[10, 20, 30]);
    let config = SolverConfig { target: 5, min_count: 1, max_count: 3, cancelled: &flag };
    assert!(matches!(solve_subset_sum(&entries, &config), SolverResult::NotFound));

    let mut state = BatchSearchState::new(&entries, 5, 1, 3, 100);
    let result = state.search_batch(1);
    assert!(result.finished);
    assert_eq!(result.total_found, 0);
}

#[test]
fn no_values_at_all() {
    let flag = AtomicBool::new(false);
    let entries: Vec<NumberEntry> = Vec::new();
    let config = SolverConfig { target: 10, min_count: 1, max_count: 5, cancelled: &flag };
    assert!(matches!(solve_subset_sum(&entries, &config), SolverResult::NotFound));

    let mut state = BatchSearchState::new(&entries, 10, 1, 5, 100);
    let result = state.search_batch(1);
    assert!(result.finished);
    assert_eq!(result.total_found, 0);
    assert!(state.all_results().is_empty());
}

#[test]
fn large_magnitudes() {
    let flag = AtomicBool::new(false);
    let nums = [500_000_000_000u64, 250_000_000_000, 125_000_000_000, 375_000_000_000];
    let entries = indexed(&nums);
    let config =
        SolverConfig { target: 875_000_000_000, min_count: 2, max_count: 4, cancelled: &flag };
    match solve_subset_sum(&entries, &config) {
        SolverResult::Found(c) => {
            let sum: u64 = c.iter().map(|e| e.value).sum();
            assert_eq!(sum, 875_000_000_000);
            assert!(c.len() >= 2 && c.len() <= 4);
        }
        _ => panic!("a selection exists"),
    }

    let mut state = BatchSearchState::new(&entries, 875_000_000_000, 2, 4, 100);
    let result = state.search_batch(1_000_000);
    assert!(result.finished);
    assert_eq!(
        values_of_all(&state),
        vec![
            vec![500_000_000_000u64, 250_000_000_000, 125_000_000_000],
            vec![500_000_000_000u64, 375_000_000_000],
        ]
    );
    for combo in state.all_results() {
        let sum: u64 = combo.iter().map(|e| e.value).sum();
        assert_eq!(sum, 875_000_000_000);
    }
}

#[test]
fn cap_of_two() {
    let entries = indexed(&[1, 2, 3, 4, 5]);
    let mut state = BatchSearchState::new(&entries, 5, 1, 5, 2);
    let mut collected = 0usize;
    loop {
        let result = state.search_batch(1);
        collected += result.new_results.len();
        if result.finished {
            assert_eq!(result.total_found, 2);
            break;
        }
    }
    assert_eq!(collected, 2);
    assert_eq!(state.all_results().len(), 2);
    let again = state.search_batch(1_000);
    assert!(again.finished);
    assert!(again.new_results.is_empty());
    assert_eq!(again.total_found, 2);
    assert_eq!(values_of_all(&state), vec![vec![1, 4], vec![2, 3]]);
}
