use std::sync::atomic::AtomicBool;
use wasm_solver::entry::NumberEntry;
use wasm_solver::solver::{solve_all_combinations, solve_subset_sum, SolverConfig, SolverResult};

fn make_entries(nums: &[u64]) -> Vec<NumberEntry> {
    nums.iter()
        .enumerate()
        .map(|(i, &v)| NumberEntry { value: v, original_index: i })
        .collect()
}

fn make_config(flag: &AtomicBool, target: u64, min: usize, max: usize) -> SolverConfig<'_> {
    SolverConfig { target, min_count: min, max_count: max, cancelled: flag }
}

#[test]
fn test_simple_case() {
    let flag = AtomicBool::new(false);
    let nums = vec![1, 2, 3, 4, 5];
    let entries = make_entries(&nums);
    let config = make_config(&flag, 9, 2, 3);
    match solve_subset_sum(&entries, &config) {
        SolverResult::Found(result) => {
            let sum: u64 = result.iter().map(|e| e.value).sum();
            assert_eq!(sum, 9);
            assert!(result.len() >= 2 && result.len() <= 3);
            for e in &result {
                assert_eq!(e.value, nums[e.original_index]);
            }
        }
        _ => panic!("Should have found a solution"),
    }
}

#[test]
fn test_no_solution() {
    let flag = AtomicBool::new(false);
    let nums = vec![10, 20, 30];
    let entries = make_entries(&nums);
    let config = make_config(&flag, 5, 1, 3);
    match solve_subset_sum(&entries, &config) {
        SolverResult::NotFound => {}
        _ => panic!("Should not have found a solution"),
    }
}

#[test]
fn test_exact_single() {
    let flag = AtomicBool::new(false);
    let nums = vec![100, 200, 300];
    let entries = make_entries(&nums);
    let config = make_config(&flag, 200, 1, 1);
    match solve_subset_sum(&entries, &config) {
        SolverResult::Found(result) => {
            assert_eq!(result.len(), 1);
            assert_eq!(result[0].value, 200);
            assert_eq!(result[0].original_index, 1);
        }
        _ => panic!("Should have found 200"),
    }
}

#[test]
fn test_all_combinations() {
    let flag = AtomicBool::new(false);
    let nums = vec![1, 2, 3, 4, 5];
    let entries = make_entries(&nums);
    let config = make_config(&flag, 5, 1, 5);
    let results = solve_all_combinations(&entries, &config, 100);
    assert!(results.len() >= 3);
    for combo in &results {
        let sum: u64 = combo.iter().map(|e| e.value).sum();
        assert_eq!(sum, 5);
    }
}

#[test]
fn test_large_numbers() {
    let flag = AtomicBool::new(false);
    let nums = vec![
        1_000_000_000_000u64,
        500_000_000_000,
        250_000_000_000,
        125_000_000_000,
        375_000_000_000,
    ];
    let entries = make_entries(&nums);
    let config = make_config(&flag, 875_000_000_000, 2, 4);
    match solve_subset_sum(&entries, &config) {
        SolverResult::Found(result) => {
            let sum: u64 = result.iter().map(|e| e.value).sum();
            assert_eq!(sum, 875_000_000_000);
            for e in &result {
                assert_eq!(e.value, nums[e.original_index]);
            }
        }
        _ => panic!("Should have found a solution"),
    }
}

#[test]
fn test_meet_in_the_middle_threshold() {
    let flag = AtomicBool::new(false);
    let nums: Vec<u64> = (1..=30).collect();
    let entries = make_entries(&nums);
    let config = make_config(&flag, 100, 3, 10);
    match solve_subset_sum(&entries, &config) {
        SolverResult::Found(result) => {
            let sum: u64 = result.iter().map(|e| e.value).sum();
            assert_eq!(sum, 100);
            for e in &result {
                assert_eq!(e.value, nums[e.original_index]);
            }
        }
        _ => panic!("Should have found a solution"),
    }
}

#[test]
fn test_original_indices_preserved_with_gaps() {
    let flag = AtomicBool::new(false);
    let entries = vec![
        NumberEntry { value: 5, original_index: 1 },
        NumberEntry { value: 3, original_index: 3 },
        NumberEntry { value: 7, original_index: 4 },
        NumberEntry { value: 2, original_index: 6 },
    ];
    let config = make_config(&flag, 10, 2, 4);
    match solve_subset_sum(&entries, &config) {
        SolverResult::Found(result) => {
            let sum: u64 = result.iter().map(|e| e.value).sum();
            assert_eq!(sum, 10);
            for e in &result {
                assert!(
                    [1, 3, 4, 6].contains(&e.original_index),
                    "Unexpected original_index: {}",
                    e.original_index
                );
            }
        }
        _ => panic!("Should have found a solution"),
    }
}

#[test]
fn test_branch_and_bound_large_n() {
    let flag = AtomicBool::new(false);
    let nums: Vec<u64> = (1..=50).collect();
    let entries = make_entries(&nums);
    let config = make_config(&flag, 50, 1, 5);
    match solve_subset_sum(&entries, &config) {
        SolverResult::Found(result) => {
            let sum: u64 = result.iter().map(|e| e.value).sum();
            assert_eq!(sum, 50);
        }
        _ => panic!("Should have found a solution"),
    }
}
