use wasm_solver::batch::{BatchSearchState, Progress};
use wasm_solver::entry::NumberEntry;

fn entries_from(nums: &[u64]) -> Vec<NumberEntry> {
    nums.iter()
        .enumerate()
        .map(|(i, &v)| NumberEntry { value: v, original_index: i })
        .collect()
}

fn ratio(p: &Progress) -> f64 {
    (p.numerator as f64) / (p.denominator as f64)
}

#[test]
fn test_batch_finds_all() {
    let entries = entries_from(&[1, 2, 3, 4, 5]);
    let mut state = BatchSearchState::new(&entries, 5, 1, 5, 100);

    loop {
        let result = state.search_batch(10);
        if result.finished {
            assert_eq!(result.total_found, 3);
            break;
        }
    }
}

#[test]
fn test_batch_respects_max_results() {
    let entries = entries_from(&[1, 2, 3, 4, 5]);
    let mut state = BatchSearchState::new(&entries, 5, 1, 5, 2);

    loop {
        let result = state.search_batch(100);
        if result.finished {
            assert!(result.total_found <= 2);
            break;
        }
    }
}

#[test]
fn test_batch_progress_increases() {
    let entries = entries_from(&(1..=20).collect::<Vec<u64>>());
    let mut state = BatchSearchState::new(&entries, 30, 2, 5, 1000);

    let mut last_progress = -1.0f64;
    loop {
        let result = state.search_batch(50);
        let progress = ratio(&result.progress);
        assert!(progress >= last_progress || result.finished);
        last_progress = progress;
        if result.finished {
            break;
        }
    }
    assert_eq!(last_progress, 1.0);
}

#[test]
fn test_batch_empty_input() {
    let entries: Vec<NumberEntry> = vec![];
    let mut state = BatchSearchState::new(&entries, 10, 1, 5, 100);
    let result = state.search_batch(100);
    assert!(result.finished);
    assert_eq!(result.total_found, 0);
}

#[test]
fn test_batch_no_solution() {
    let entries = entries_from(&[10, 20, 30]);
    let mut state = BatchSearchState::new(&entries, 5, 1, 3, 100);
    let result = state.search_batch(10000);
    assert!(result.finished);
    assert_eq!(result.total_found, 0);
}

#[test]
fn test_batch_large_numbers() {
    let entries = entries_from(&[
        500_000_000_000u64,
        250_000_000_000,
        125_000_000_000,
        375_000_000_000,
    ]);
    let mut state = BatchSearchState::new(&entries, 875_000_000_000, 2, 4, 100);
    loop {
        let result = state.search_batch(1000);
        if result.finished {
            assert!(result.total_found >= 1);
            break;
        }
    }
}
