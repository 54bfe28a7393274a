use std::sync::atomic::AtomicBool;
use wasm_solver::batch::{BatchSearchState, Progress};
use wasm_solver::entry::NumberEntry;
use wasm_solver::mitm::meet_in_the_middle;
use wasm_solver::prepared::PreparedData;
use wasm_solver::solver::{
    branch_and_bound_first, solve_all_combinations, solve_subset_sum, SolverConfig, SolverResult,
};

fn numbered(nums: &[u64]) -> Vec<NumberEntry> {
    nums.iter()
        .enumerate()
        .map(|(i, &v)| NumberEntry { value: v, original_index: i })
        .collect()
}

fn as_ratio(p: &Progress) -> f64 {
    (p.numerator as f64) / (p.denominator as f64)
}

fn check_combination(combo: &[NumberEntry], nums: &[u64], target: u64, min: usize, max: usize) {
    let sum: u64 = combo.iter().map(|e| e.value).sum();
    assert_eq!(sum, target);
    assert!(combo.len() >= min && combo.len() <= max);
    for e in combo {
        assert_eq!(e.value, nums[e.original_index]);
    }
    for w in combo.windows(2) {
        assert!(w[0].original_index < w[1].original_index);
    }
}

fn run_to_end(
    nums: &[u64],
    target: u64,
    min: usize,
    max: usize,
    cap: usize,
    budget: u64,
) -> Vec<Vec<(u64, usize)>> {
    let entries = numbered(nums);
    let mut state = BatchSearchState::new(&entries, target, min, max, cap);
    let mut seen: Vec<Vec<(u64, usize)>> = Vec::new();
    loop {
        let result = state.search_batch(budget);
        for combo in &result.new_results {
            seen.push(combo.iter().map(|e| (e.value, e.original_index)).collect());
        }
        assert_eq!(result.total_found, seen.len());
        if result.finished {
            break;
        }
    }
    let all: Vec<Vec<(u64, usize)>> = state
        .all_results()
        .iter()
        .map(|c| c.iter().map(|e| (e.value, e.original_index)).collect())
        .collect();
    assert_eq!(all, seen);
    seen
}

#[test]
fn every_batch_combination_meets_the_goal() {
    let nums: Vec<u64> = vec![7, 3, 9, 1, 4, 12, 6, 2, 8, 5, 11, 10];
    let entries = numbered(&nums);
    let mut state = BatchSearchState::new(&entries, 15, 2, 4, 1000);
    let mut total = 0usize;
    loop {
        let result = state.search_batch(7);
        for combo in &result.new_results {
            check_combination(combo, &nums, 15, 2, 4);
        }
        total += result.new_results.len();
        if result.finished {
            assert_eq!(result.total_found, total);
            break;
        }
    }
    assert!(total > 0);
}

#[test]
fn every_one_shot_combination_meets_the_goal() {
    let flag = AtomicBool::new(false);
    let nums: Vec<u64> = vec![7, 3, 9, 1, 4, 12, 6, 2, 8, 5, 11, 10];
    let entries = numbered(&nums);
    for target in 1..=40u64 {
        let config = SolverConfig { target, min_count: 2, max_count: 3, cancelled: &flag };
        match solve_subset_sum(&entries, &config) {
            SolverResult::Found(c) => check_combination(&c, &nums, target, 2, 3),
            SolverResult::NotFound => {
                let all = solve_all_combinations(&entries, &config, 1);
                assert!(all.is_empty());
            }
            SolverResult::Cancelled => panic!("nobody called the search off"),
        }
    }
}

#[test]
fn exhaustive_combinations_meet_the_goal_and_differ() {
    let flag = AtomicBool::new(false);
    let nums: Vec<u64> = vec![2, 2, 3, 5, 7, 8];
    let entries = numbered(&nums);
    let config = SolverConfig { target: 10, min_count: 1, max_count: 6, cancelled: &flag };
    let results = solve_all_combinations(&entries, &config, 100);
    let mut keys: Vec<Vec<usize>> = Vec::new();
    for combo in &results {
        check_combination(combo, &nums, 10, 1, 6);
        keys.push(combo.iter().map(|e| e.original_index).collect());
    }
    keys.sort();
    let expected: Vec<Vec<usize>> = vec![
        vec![0, 2, 3],
        vec![0, 5],
        vec![1, 2, 3],
        vec![1, 5],
        vec![2, 4],
    ];
    assert_eq!(keys, expected);
}

#[test]
fn both_search_paths_agree_on_feasibility() {
    let flag = AtomicBool::new(false);
    let nums: Vec<u64> = vec![13, 4, 9, 21, 6, 17, 2, 30, 11, 8];
    let entries = numbered(&nums);
    let data = PreparedData::new(&entries);
    for target in 0..=125u64 {
        for (min, max) in [(0usize, 10usize), (1, 1), (2, 3), (4, 10), (3, 2)] {
            let config = SolverConfig { target, min_count: min, max_count: max, cancelled: &flag };
            let by_halves = meet_in_the_middle(&data, &config);
            let by_depth = branch_and_bound_first(&data, &config);
            let found_by_halves = match &by_halves {
                SolverResult::Found(c) => {
                    check_combination(c, &nums, target, min, max);
                    true
                }
                SolverResult::NotFound => false,
                SolverResult::Cancelled => panic!("nobody called the search off"),
            };
            let found_by_depth = match &by_depth {
                SolverResult::Found(c) => {
                    check_combination(c, &nums, target, min, max);
                    true
                }
                SolverResult::NotFound => false,
                SolverResult::Cancelled => panic!("nobody called the search off"),
            };
            assert_eq!(found_by_halves, found_by_depth);
        }
    }
}

#[test]
fn progress_never_falls_and_is_one_only_at_the_end() {
    let nums: Vec<u64> = (1..=18).collect();
    let entries = numbered(&nums);
    let mut state = BatchSearchState::new(&entries, 40, 2, 6, 100_000);
    let mut last = 0.0f64;
    let mut steps = 0u64;
    loop {
        let result = state.search_batch(1);
        steps += 1;
        let now = as_ratio(&result.progress);
        assert!(now >= last);
        assert_eq!(now == 1.0, result.finished);
        if !result.finished {
            assert!(now <= 0.999);
            assert_eq!(result.nodes_explored, steps);
        }
        last = now;
        if result.finished {
            break;
        }
    }
    assert_eq!(last, 1.0);
    let again = state.search_batch(5);
    assert!(again.finished);
    assert_eq!(as_ratio(&again.progress), 1.0);
}

#[test]
fn total_found_never_falls_and_respects_the_cap() {
    let nums: Vec<u64> = (1..=16).collect();
    let entries = numbered(&nums);
    let cap = 25usize;
    let mut state = BatchSearchState::new(&entries, 30, 1, 8, cap);
    let mut last = 0usize;
    loop {
        let result = state.search_batch(3);
        assert!(result.total_found >= last);
        assert!(result.total_found <= cap);
        assert_eq!(result.total_found, last + result.new_results.len());
        last = result.total_found;
        if result.finished {
            break;
        }
    }
    assert_eq!(last, cap);
}

#[test]
fn empty_input_or_too_large_minimum_finish_at_once() {
    let none: Vec<NumberEntry> = Vec::new();
    let mut state = BatchSearchState::new(&none, 10, 0, 5, 100);
    let result = state.search_batch(1);
    assert!(result.finished);
    assert_eq!(result.total_found, 0);
    assert!(result.new_results.is_empty());
    assert_eq!(result.nodes_explored, 0);

    let entries = numbered(&[1, 2, 3]);
    let mut state = BatchSearchState::new(&entries, 6, 4, 5, 100);
    let result = state.search_batch(1);
    assert!(result.finished);
    assert_eq!(result.total_found, 0);
    assert!(result.new_results.is_empty());
    assert_eq!(result.nodes_explored, 0);
}

#[test]
fn chunking_does_not_change_what_is_found() {
    let nums: Vec<u64> = vec![5, 1, 8, 3, 9, 2, 7, 4, 6, 10, 12, 11, 3, 5];
    for cap in [4usize, 1000] {
        let one = run_to_end(&nums, 20, 2, 5, cap, 1);
        let three = run_to_end(&nums, 20, 2, 5, cap, 3);
        let large = run_to_end(&nums, 20, 2, 5, cap, 1_000_000_000);
        assert_eq!(one.len(), large.len());
        assert_eq!(three.len(), large.len());
        assert_eq!(one, large);
        assert_eq!(three, large);
        assert!(large.len() <= cap);
        assert!(!large.is_empty());
    }
}

#[test]
fn batch_and_exhaustive_search_find_the_same() {
    let flag = AtomicBool::new(false);
    let nums: Vec<u64> = vec![5, 1, 8, 3, 9, 2, 7, 4, 6, 10];
    let entries = numbered(&nums);
    let config = SolverConfig { target: 17, min_count: 2, max_count: 4, cancelled: &flag };
    let all = solve_all_combinations(&entries, &config, 10_000);
    let listed: Vec<Vec<(u64, usize)>> = all
        .iter()
        .map(|c| c.iter().map(|e| (e.value, e.original_index)).collect())
        .collect();
    let stepped = run_to_end(&nums, 17, 2, 4, 10_000, 5);
    assert_eq!(listed, stepped);
}
