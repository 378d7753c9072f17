use sokm::csr::build_csr;
use sokm::csr::grow_rows;
use sokm::csr::column_index;

#[test]
fn build_csr_sorted_keys_land_in_order() {
    let keys = [(0, 1), (0, 2), (1, 2), (3, 3)];
    let l = build_csr(4, &keys);
    assert_eq!(l.rows, vec![0, 2, 3, 3, 4]);
    assert_eq!(l.cols, vec![1, 2, 2, 3]);
    assert_eq!(l.slots, vec![0, 1, 2, 3]);
}

#[test]
fn build_csr_unsorted_keys_grouped_by_row() {
    let keys = [(2, 5), (0, 4), (2, 3), (0, 1)];
    let l = build_csr(6, &keys);
    assert_eq!(l.rows, vec![0, 2, 2, 4, 4, 4, 4]);
    // within a row the input order is kept
    assert_eq!(l.slots, vec![2, 0, 3, 1]);
    assert_eq!(l.cols, vec![4, 1, 5, 3]);
}

#[test]
fn build_csr_empty() {
    let l = build_csr(3, &[]);
    assert_eq!(l.rows, vec![0, 0, 0, 0]);
    assert!(l.cols.is_empty());
    assert!(l.slots.is_empty());
}

#[test]
fn grow_rows_extends_with_last_pointer() {
    let mut rows = vec![0, 2, 3];
    assert!(grow_rows(&mut rows, 4));
    assert_eq!(rows, vec![0, 2, 3, 3, 3]);
    assert!(!grow_rows(&mut rows, 4));
    assert!(!grow_rows(&mut rows, 1));
    assert_eq!(rows, vec![0, 2, 3, 3, 3]);
}

#[test]
fn grow_rows_from_empty_pointer_list() {
    let mut rows: Vec<usize> = Vec::new();
    assert!(grow_rows(&mut rows, 2));
    assert_eq!(rows, vec![0, 0, 0]);
}

#[test]
fn column_index_lists_slots_by_column() {
    let keys = [(0, 1), (0, 2), (1, 2), (2, 2)];
    let l = build_csr(3, &keys);
    let ci = column_index(&l.rows, &l.cols);
    assert_eq!(ci.get(&1), Some(&vec![(0, 0)]));
    assert_eq!(ci.get(&2), Some(&vec![(0, 1), (1, 2), (2, 3)]));
    assert_eq!(ci.get(&0), None);
    assert_eq!(ci.len(), 2);
}

#[test]
fn build_csr_row_ordered_keys_keep_their_positions() {
    let l = build_csr(3, &[(0, 5), (0, 2), (1, 0), (2, 2)]);
    assert_eq!(l.slots, vec![0, 1, 2, 3]);
    assert_eq!(l.cols, vec![5, 2, 0, 2]);
    assert_eq!(l.rows, vec![0, 2, 3, 4]);
}
