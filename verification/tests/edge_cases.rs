use std::sync::atomic::AtomicBool;
use wasm_solver::batch::BatchSearchState;
use wasm_solver::cancel::{cancel_requested, mask_poll_due, node_poll_due};
use wasm_solver::entry::{build_entries, copy_combination, copy_entry, NumberEntry};
use wasm_solver::mitm::meet_in_the_middle;
use wasm_solver::prepared::PreparedData;
use wasm_solver::solver::{
    branch_and_bound_first, solve_all_combinations, solve_subset_sum, SolverConfig, SolverResult,
};

fn listed(nums: &[u64]) -> Vec<NumberEntry> {
    nums.iter()
        .enumerate()
        .map(|(i, &v)| NumberEntry { value: v, original_index: i })
        .collect()
}

fn pairs(c: &[NumberEntry]) -> Vec<(u64, usize)> {
    c.iter().map(|e| (e.value, e.original_index)).collect()
}

#[test]
fn raw_numbers_become_entries() {
    let entries = build_entries(&[0, 5, 0, 3, 7, 0, 2, 6], 6);
    assert_eq!(pairs(&entries), vec![(5, 1), (3, 3), (2, 6), (6, 7)]);
    assert!(build_entries(&[], 6).is_empty());
    assert!(build_entries(&[1, 2, 3], 0).is_empty());
    assert_eq!(pairs(&build_entries(&[u64::MAX, 1], u64::MAX)), vec![(u64::MAX, 0), (1, 1)]);
}

#[test]
fn copies_keep_every_field() {
    let e = NumberEntry { value: 17, original_index: 4 };
    let c = copy_entry(&e);
    assert_eq!((c.value, c.original_index), (17, 4));
    let v = listed(&[3, 1, 2]);
    assert_eq!(pairs(&copy_combination(&v)), vec![(3, 0), (1, 1), (2, 2)]);
    assert!(copy_combination(&Vec::new()).is_empty());
}

#[test]
fn no_entry_allowed_means_not_found() {
    let flag = AtomicBool::new(false);
    let entries = listed(&[1, 2, 3]);
    let config = SolverConfig { target: 3, min_count: 0, max_count: 0, cancelled: &flag };
    assert!(matches!(solve_subset_sum(&entries, &config), SolverResult::NotFound));
    let mut state = BatchSearchState::new(&entries, 3, 0, 0, 10);
    let result = state.search_batch(100);
    assert!(result.finished);
    assert_eq!(result.total_found, 0);
    assert_eq!(result.nodes_explored, 0);
}

#[test]
fn bounds_that_exclude_each_other() {
    let flag = AtomicBool::new(false);
    let entries = listed(&[1, 2, 3, 4]);
    let config = SolverConfig { target: 3, min_count: 3, max_count: 2, cancelled: &flag };
    assert!(matches!(solve_subset_sum(&entries, &config), SolverResult::NotFound));
    assert!(solve_all_combinations(&entries, &config, 10).is_empty());
    let mut state = BatchSearchState::new(&entries, 3, 3, 2, 10);
    let result = state.search_batch(1_000);
    assert!(result.finished);
    assert_eq!(result.total_found, 0);
}

#[test]
fn cap_of_zero_collects_nothing() {
    let flag = AtomicBool::new(false);
    let entries = listed(&[1, 2, 3]);
    let config = SolverConfig { target: 3, min_count: 1, max_count: 3, cancelled: &flag };
    assert!(solve_all_combinations(&entries, &config, 0).is_empty());
    let mut state = BatchSearchState::new(&entries, 3, 1, 3, 0);
    let result = state.search_batch(10);
    assert!(result.finished);
    assert_eq!(result.total_found, 0);
    assert_eq!(result.nodes_explored, 0);
    assert_eq!((result.progress.numerator, result.progress.denominator), (1, 1));
}

#[test]
fn budget_of_zero_does_nothing() {
    let entries = listed(&[1, 2, 3]);
    let mut state = BatchSearchState::new(&entries, 3, 1, 3, 10);
    let result = state.search_batch(0);
    assert!(!result.finished);
    assert_eq!(result.total_found, 0);
    assert_eq!(result.nodes_explored, 0);
    assert_eq!((result.progress.numerator, result.progress.denominator), (0, 3));
}

#[test]
fn progress_counts_top_level_branches() {
    let entries = listed(&[1, 2, 3, 4]);
    let mut state = BatchSearchState::new(&entries, 7, 2, 3, 10);
    let first = state.search_batch(1);
    assert!(!first.finished);
    assert_eq!(first.nodes_explored, 1);
    assert_eq!((first.progress.numerator, first.progress.denominator), (1, 4));
    let mut last = first;
    while !last.finished {
        let next = state.search_batch(1);
        assert_eq!(next.nodes_explored, last.nodes_explored + 1);
        assert!(next.progress.numerator * last.progress.denominator
            >= last.progress.numerator * next.progress.denominator);
        last = next;
    }
    assert_eq!((last.progress.numerator, last.progress.denominator), (1, 1));
    let found: Vec<Vec<u64>> =
        state.all_results().iter().map(|c| c.iter().map(|e| e.value).collect()).collect();
    assert_eq!(found, vec![vec![1, 2, 4], vec![3, 4]]);
}

#[test]
fn progress_is_held_below_one_while_unfinished() {
    let nums: Vec<u64> = (1..=2000).collect();
    let entries = listed(&nums);
    let mut state = BatchSearchState::new(&entries, 3999, 2, 2, 10);
    let mut held = false;
    let mut budget = 5_000u64;
    loop {
        let result = state.search_batch(budget);
        if result.progress.numerator >= 1800 {
            budget = 1;
        }
        if result.finished {
            assert_eq!((result.progress.numerator, result.progress.denominator), (1, 1));
            assert_eq!(result.total_found, 1);
            break;
        }
        let p = &result.progress;
        assert!(p.numerator * 1000 <= p.denominator * 999);
        if (p.numerator, p.denominator) == (999, 1000) {
            held = true;
        } else {
            assert_eq!(p.denominator, 2000);
        }
    }
    assert!(held);
    assert_eq!(pairs(&state.all_results()[0]), vec![(1999, 1998), (2000, 1999)]);
}

#[test]
fn sums_beyond_sixty_four_bits_do_no_harm() {
    let flag = AtomicBool::new(false);
    let big = u64::MAX;
    let entries = listed(&[big, 5, big - 5, 7, big]);
    let config = SolverConfig { target: 12, min_count: 2, max_count: 2, cancelled: &flag };
    match solve_subset_sum(&entries, &config) {
        SolverResult::Found(c) => assert_eq!(pairs(&c), vec![(5, 1), (7, 3)]),
        _ => panic!("a selection exists"),
    }
    let config = SolverConfig { target: big, min_count: 1, max_count: 5, cancelled: &flag };
    match solve_subset_sum(&entries, &config) {
        SolverResult::Found(c) => {
            let sum: u128 = c.iter().map(|e| e.value as u128).sum();
            assert_eq!(sum, big as u128);
            assert!(c.len() == 1 || c.len() == 2);
        }
        _ => panic!("a selection exists"),
    }
    let config = SolverConfig { target: big, min_count: 1, max_count: 1, cancelled: &flag };
    match solve_subset_sum(&entries, &config) {
        SolverResult::Found(c) => {
            assert_eq!(c.len(), 1);
            assert_eq!(c[0].value, big);
        }
        _ => panic!("a selection exists"),
    }
    let config = SolverConfig { target: big, min_count: 4, max_count: 5, cancelled: &flag };
    assert!(matches!(solve_subset_sum(&entries, &config), SolverResult::NotFound));

    let data = PreparedData::new(&entries);
    assert_eq!(data.suffix_at(5), 0);
    assert_eq!(data.suffix_at(4), big);
    assert_eq!(data.suffix_at(3), big);
    assert_eq!(data.suffix_at(0), big);
    assert!(data.floor_exceeds(3, big));
    assert!(!data.floor_exceeds(2, big));

    let mut state = BatchSearchState::new(&entries, big, 1, 5, 100);
    let result = state.search_batch(1_000_000);
    assert!(result.finished);
    assert_eq!(result.total_found, 3);
    let all = solve_all_combinations(
        &entries,
        &SolverConfig { target: big, min_count: 1, max_count: 5, cancelled: &flag },
        100,
    );
    assert_eq!(all.len(), 3);
}

#[test]
fn equal_values_are_told_apart_by_position() {
    let flag = AtomicBool::new(false);
    let entries = listed(&[4, 4, 4]);
    let config = SolverConfig { target: 8, min_count: 2, max_count: 2, cancelled: &flag };
    let all = solve_all_combinations(&entries, &config, 100);
    let mut keys: Vec<Vec<usize>> =
        all.iter().map(|c| c.iter().map(|e| e.original_index).collect()).collect();
    keys.sort();
    assert_eq!(keys, vec![vec![0, 1], vec![0, 2], vec![1, 2]]);
}

#[test]
fn a_set_flag_calls_the_search_by_halves_off() {
    let flag = AtomicBool::new(true);
    let entries = listed(&[1, 2, 3, 4, 5]);
    let config = SolverConfig { target: 9, min_count: 2, max_count: 3, cancelled: &flag };
    assert!(matches!(solve_subset_sum(&entries, &config), SolverResult::Cancelled));
    let data = PreparedData::new(&entries);
    assert!(matches!(meet_in_the_middle(&data, &config), SolverResult::Cancelled));
}

#[test]
fn a_set_flag_does_not_undo_what_the_quick_test_shows() {
    let flag = AtomicBool::new(true);
    let entries = listed(&[10, 20, 30]);
    let config = SolverConfig { target: 5, min_count: 1, max_count: 3, cancelled: &flag };
    assert!(matches!(solve_subset_sum(&entries, &config), SolverResult::NotFound));
    let config = SolverConfig { target: 60, min_count: 4, max_count: 5, cancelled: &flag };
    assert!(matches!(solve_subset_sum(&entries, &config), SolverResult::NotFound));
    let config = SolverConfig { target: 61, min_count: 1, max_count: 3, cancelled: &flag };
    assert!(matches!(solve_subset_sum(&entries, &config), SolverResult::NotFound));
    let config = SolverConfig { target: 25, min_count: 2, max_count: 3, cancelled: &flag };
    assert!(matches!(solve_subset_sum(&entries, &config), SolverResult::NotFound));
}

#[test]
fn a_set_flag_calls_the_depth_first_search_off() {
    let flag = AtomicBool::new(true);
    let nums: Vec<u64> = vec![2; 45];
    let entries = listed(&nums);
    let config = SolverConfig { target: 41, min_count: 1, max_count: 30, cancelled: &flag };
    assert!(matches!(solve_subset_sum(&entries, &config), SolverResult::Cancelled));
    let data = PreparedData::new(&entries);
    assert!(matches!(branch_and_bound_first(&data, &config), SolverResult::Cancelled));
}

#[test]
fn a_short_depth_first_search_never_looks_at_the_flag() {
    let flag = AtomicBool::new(true);
    let nums: Vec<u64> = (1..=50).collect();
    let entries = listed(&nums);
    let config = SolverConfig { target: 50, min_count: 1, max_count: 5, cancelled: &flag };
    match solve_subset_sum(&entries, &config) {
        SolverResult::Found(c) => {
            let sum: u64 = c.iter().map(|e| e.value).sum();
            assert_eq!(sum, 50);
        }
        _ => panic!("a selection exists and is found within a few nodes"),
    }
}

#[test]
fn a_set_flag_ends_the_exhaustive_search_early() {
    let flag = AtomicBool::new(true);
    let nums: Vec<u64> = vec![2; 45];
    let entries = listed(&nums);
    let config = SolverConfig { target: 41, min_count: 1, max_count: 30, cancelled: &flag };
    assert!(solve_all_combinations(&entries, &config, 10).is_empty());
}

#[test]
fn the_flag_is_read_as_it_stands() {
    let flag = AtomicBool::new(false);
    assert!(!cancel_requested(&flag));
    flag.store(true, std::sync::atomic::Ordering::Relaxed);
    assert!(cancel_requested(&flag));
}

#[test]
fn polls_fall_due_at_fixed_intervals() {
    assert!(node_poll_due(0));
    assert!(!node_poll_due(1));
    assert!(!node_poll_due(4095));
    assert!(node_poll_due(4096));
    assert!(node_poll_due(8192));
    assert!(mask_poll_due(0));
    assert!(!mask_poll_due(4096));
    assert!(!mask_poll_due(65535));
    assert!(mask_poll_due(65536));
}

#[test]
fn forty_entries_are_still_searched_by_halves() {
    let flag = AtomicBool::new(false);
    let nums: Vec<u64> = (1..=40).map(|k| k * 1_000).collect();
    let entries = listed(&nums);
    let config = SolverConfig { target: 820_000, min_count: 40, max_count: 40, cancelled: &flag };
    match solve_subset_sum(&entries, &config) {
        SolverResult::Found(c) => assert_eq!(c.len(), 40),
        _ => panic!("all entries together reach the target"),
    }
}

#[test]
fn the_depth_first_search_returns_the_first_path_of_the_walk() {
    let flag = AtomicBool::new(false);
    let entries = listed(&[5, 4, 3, 2, 1]);
    let data = PreparedData::new(&entries);
    let config = SolverConfig { target: 5, min_count: 1, max_count: 5, cancelled: &flag };
    match branch_and_bound_first(&data, &config) {
        SolverResult::Found(c) => assert_eq!(pairs(&c), vec![(4, 1), (1, 4)]),
        _ => panic!("a selection exists"),
    }
    let config = SolverConfig { target: 5, min_count: 1, max_count: 1, cancelled: &flag };
    match branch_and_bound_first(&data, &config) {
        SolverResult::Found(c) => assert_eq!(pairs(&c), vec![(5, 0)]),
        _ => panic!("a selection exists"),
    }
    let config = SolverConfig { target: 0, min_count: 0, max_count: 3, cancelled: &flag };
    match branch_and_bound_first(&data, &config) {
        SolverResult::Found(c) => assert!(c.is_empty()),
        _ => panic!("the empty selection meets this goal"),
    }
}

#[test]
fn the_search_by_halves_returns_the_first_pair() {
    let flag = AtomicBool::new(false);
    let entries = listed(&[5, 4, 3, 2, 1]);
    let data = PreparedData::new(&entries);
    let config = SolverConfig { target: 5, min_count: 1, max_count: 5, cancelled: &flag };
    match meet_in_the_middle(&data, &config) {
        SolverResult::Found(c) => assert_eq!(pairs(&c), vec![(3, 2), (2, 3)]),
        _ => panic!("a selection exists"),
    }
    let config = SolverConfig { target: 5, min_count: 1, max_count: 1, cancelled: &flag };
    match meet_in_the_middle(&data, &config) {
        SolverResult::Found(c) => assert_eq!(pairs(&c), vec![(5, 0)]),
        _ => panic!("a selection exists"),
    }
    match solve_subset_sum(&entries, &config) {
        SolverResult::Found(c) => assert_eq!(pairs(&c), vec![(5, 0)]),
        _ => panic!("a selection exists"),
    }
    let config = SolverConfig { target: 0, min_count: 0, max_count: 3, cancelled: &flag };
    match meet_in_the_middle(&data, &config) {
        SolverResult::Found(c) => assert!(c.is_empty()),
        _ => panic!("the empty selection meets this goal"),
    }
}

#[test]
fn a_short_exhaustive_search_never_looks_at_the_flag() {
    let flag = AtomicBool::new(true);
    let entries = listed(&[1, 2, 3, 4, 5]);
    let config = SolverConfig { target: 5, min_count: 1, max_count: 5, cancelled: &flag };
    let all = solve_all_combinations(&entries, &config, 100);
    let values: Vec<Vec<u64>> = all.iter().map(|c| c.iter().map(|e| e.value).collect()).collect();
    assert_eq!(values, vec![vec![1, 4], vec![2, 3], vec![5]]);
    let capped = solve_all_combinations(&entries, &config, 2);
    assert_eq!(capped.len(), 2);
}
