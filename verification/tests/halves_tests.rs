use std::sync::atomic::AtomicBool;
use wasm_solver::entry::NumberEntry;
use wasm_solver::mitm::{meet_in_the_middle, HalvesSearch};
use wasm_solver::prepared::PreparedData;
use wasm_solver::solver::{SolverConfig, SolverResult};

fn placed(nums: &[u64]) -> Vec<NumberEntry> {
    nums.iter()
        .enumerate()
        .map(|(i, &v)| NumberEntry { value: v, original_index: i })
        .collect()
}

fn shown(c: &[NumberEntry]) -> Vec<(u64, usize)> {
    c.iter().map(|e| (e.value, e.original_index)).collect()
}

#[test]
fn a_round_after_a_set_flag_is_called_off() {
    let flag = AtomicBool::new(false);
    let data = PreparedData::new(&placed(&[5, 4, 3, 2, 1]));
    let config = SolverConfig { target: 5, min_count: 1, max_count: 5, cancelled: &flag };
    let mut search = HalvesSearch::new(&data);
    assert!(matches!(search.resume(&data, &config, true), Some(SolverResult::Cancelled)));
    assert!(search.resume(&data, &config, false).is_none());
    assert!(matches!(search.resume(&data, &config, true), Some(SolverResult::Cancelled)));
}

#[test]
fn rounds_after_a_clear_flag_file_then_match() {
    let flag = AtomicBool::new(false);
    let data = PreparedData::new(&placed(&[5, 4, 3, 2, 1]));
    let config = SolverConfig { target: 5, min_count: 1, max_count: 5, cancelled: &flag };
    let mut search = HalvesSearch::new(&data);
    assert!(search.resume(&data, &config, false).is_none());
    match search.resume(&data, &config, false) {
        Some(SolverResult::Found(c)) => assert_eq!(shown(&c), vec![(3, 2), (2, 3)]),
        _ => panic!("the second round matches the second half"),
    }
    match meet_in_the_middle(&data, &config) {
        SolverResult::Found(c) => assert_eq!(shown(&c), vec![(3, 2), (2, 3)]),
        _ => panic!("a selection exists"),
    }

    let config = SolverConfig { target: 16, min_count: 1, max_count: 5, cancelled: &flag };
    let mut search = HalvesSearch::new(&data);
    assert!(search.resume(&data, &config, false).is_none());
    assert!(matches!(search.resume(&data, &config, false), Some(SolverResult::NotFound)));
    assert!(matches!(search.resume(&data, &config, false), Some(SolverResult::NotFound)));
    assert!(matches!(meet_in_the_middle(&data, &config), SolverResult::NotFound));
}

#[test]
fn a_round_ends_where_the_flag_is_looked_at_next() {
    let flag = AtomicBool::new(false);
    let nums: Vec<u64> = (1..=36).collect();
    let data = PreparedData::new(&placed(&nums));
    let config = SolverConfig { target: 667, min_count: 1, max_count: 36, cancelled: &flag };
    let mut search = HalvesSearch::new(&data);
    let mut silent = 0;
    let last = loop {
        match search.resume(&data, &config, false) {
            None => silent += 1,
            Some(r) => break r,
        }
        assert!(silent < 100);
    };
    assert_eq!(silent, 7);
    assert!(matches!(last, SolverResult::NotFound));
}

#[test]
fn a_flag_set_between_rounds_ends_the_search() {
    let flag = AtomicBool::new(false);
    let nums: Vec<u64> = (1..=36).collect();
    let data = PreparedData::new(&placed(&nums));
    let config = SolverConfig { target: 667, min_count: 1, max_count: 36, cancelled: &flag };
    let mut search = HalvesSearch::new(&data);
    for _ in 0..5 {
        assert!(search.resume(&data, &config, false).is_none());
    }
    assert!(matches!(search.resume(&data, &config, true), Some(SolverResult::Cancelled)));
}

#[test]
fn a_match_late_in_the_second_half_is_found_in_its_round() {
    let flag = AtomicBool::new(false);
    let nums: Vec<u64> = (1..=36).collect();
    let data = PreparedData::new(&placed(&nums));
    let config = SolverConfig { target: 666, min_count: 36, max_count: 36, cancelled: &flag };
    let mut search = HalvesSearch::new(&data);
    let mut silent = 0;
    let last = loop {
        match search.resume(&data, &config, false) {
            None => silent += 1,
            Some(r) => break r,
        }
        assert!(silent < 100);
    };
    assert_eq!(silent, 7);
    match last {
        SolverResult::Found(c) => assert_eq!(c.len(), 36),
        _ => panic!("all entries together reach the target"),
    }
}
