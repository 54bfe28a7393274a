use wasm_solver::entry::NumberEntry;
use wasm_solver::masks::{has_bit, subset_count};
use wasm_solver::prepared::PreparedData;

fn entry(value: u64, original_index: usize) -> NumberEntry {
    NumberEntry { value, original_index }
}

fn as_pairs(c: &[NumberEntry]) -> Vec<(u64, usize)> {
    c.iter().map(|e| (e.value, e.original_index)).collect()
}

#[test]
fn entries_are_put_in_rising_order_of_value() {
    let data = PreparedData::new(&[entry(30, 0), entry(10, 1), entry(20, 2)]);
    assert_eq!(data.len(), 3);
    assert_eq!(as_pairs(data.sorted()), vec![(10, 1), (20, 2), (30, 0)]);
    assert_eq!(data.value_at(0), 10);
    assert_eq!(data.value_at(2), 30);
    let e = data.entry_at(1);
    assert_eq!((e.value, e.original_index), (20, 2));
}

#[test]
fn tail_sums_are_tabulated() {
    let data = PreparedData::new(&[entry(30, 0), entry(10, 1), entry(20, 2)]);
    assert_eq!(data.suffix_at(0), 60);
    assert_eq!(data.suffix_at(1), 50);
    assert_eq!(data.suffix_at(2), 30);
    assert_eq!(data.suffix_at(3), 0);
    let none = PreparedData::new(&[]);
    assert_eq!(none.len(), 0);
    assert_eq!(none.suffix_at(0), 0);
}

#[test]
fn the_quick_test_rules_out_what_it_should() {
    let data = PreparedData::new(&[entry(30, 0), entry(10, 1), entry(20, 2)]);
    assert!(!data.trivially_infeasible(60, 3));
    assert!(data.trivially_infeasible(61, 1));
    assert!(data.trivially_infeasible(30, 4));
    assert!(data.trivially_infeasible(29, 2));
    assert!(!data.trivially_infeasible(30, 2));
    assert!(!data.trivially_infeasible(0, 0));
    assert!(PreparedData::new(&[]).trivially_infeasible(0, 0));
    assert!(!data.floor_exceeds(0, 0));
    assert!(data.floor_exceeds(1, 9));
    assert!(!data.floor_exceeds(1, 10));
    assert!(data.floor_exceeds(3, 59));
    assert!(!data.floor_exceeds(3, 60));
}

#[test]
fn unsorted_input_is_searched_in_sorted_order() {
    let entries = vec![entry(50, 0), entry(10, 1), entry(20, 2)];
    let mut state = wasm_solver::batch::BatchSearchState::new(&entries, 30, 1, 3, 10);
    let result = state.search_batch(1_000);
    assert!(result.finished);
    assert_eq!(result.total_found, 1);
    assert_eq!(as_pairs(&result.new_results[0]), vec![(10, 1), (20, 2)]);
}

#[test]
fn reports_stand_in_the_order_of_the_original_positions() {
    let data = PreparedData::new(&[entry(5, 3), entry(1, 7), entry(3, 0)]);
    assert_eq!(as_pairs(data.sorted()), vec![(1, 7), (3, 0), (5, 3)]);
    assert_eq!(as_pairs(&data.report(&vec![0, 1, 2])), vec![(3, 0), (5, 3), (1, 7)]);
    assert_eq!(as_pairs(&data.report(&vec![0, 2])), vec![(5, 3), (1, 7)]);
    assert!(data.report(&Vec::new()).is_empty());
}

#[test]
fn sorting_keeps_the_entries_and_orders_them() {
    let given = vec![entry(9, 2), entry(4, 5), entry(7, 1), entry(4, 0)];
    let data = PreparedData::new(&given);
    let values: Vec<u64> = data.sorted().iter().map(|e| e.value).collect();
    assert_eq!(values, vec![4, 4, 7, 9]);
    let mut seen = as_pairs(data.sorted());
    seen.sort();
    assert_eq!(seen, vec![(4, 0), (4, 5), (7, 1), (9, 2)]);
    assert_eq!(as_pairs(&given), vec![(9, 2), (4, 5), (7, 1), (4, 0)]);
    assert_eq!(
        as_pairs(&data.report(&vec![0, 1, 2, 3])),
        vec![(4, 0), (7, 1), (9, 2), (4, 5)]
    );
}

#[test]
fn masks_select_by_bit() {
    assert!(has_bit(0b1010, 1));
    assert!(!has_bit(0b1010, 0));
    assert!(has_bit(0b1010, 3));
    assert!(!has_bit(0b1010, 63));
    assert!(has_bit(1u64 << 63, 63));
    assert_eq!(subset_count(0), 1);
    assert_eq!(subset_count(5), 32);
    assert_eq!(subset_count(20), 1 << 20);
}
