use sokm::kernels::KernelTable;
use sokm::stm::Stm;

type Shape = (Vec<f64>, f64);

fn make_store(n: usize) -> KernelTable<Shape> {
    let mut store: KernelTable<Shape> = KernelTable::new();
    for i in 0..n {
        store.push((vec![i as f64], 1.0), Some(0));
        // set excitation to i by incrementing i times
        for _ in 0..i {
            store.incr_excitation(i);
        }
    }
    store
}

#[test]
fn stm_starts_empty() {
    let s = Stm::new(4);
    assert_eq!(s.len(), 0);
    assert!(!s.is_full());
}

#[test]
fn stm_update_adds_kernel_index() {
    let mut s = Stm::new(4);
    let store = make_store(5);
    s.update(2, &store);
    assert_eq!(s.len(), 1);
}

#[test]
fn stm_evicts_lowest_excitation_when_full() {
    let mut s = Stm::new(3);
    let store = make_store(10);
    s.update(5, &store);
    s.update(6, &store);
    s.update(7, &store);
    assert!(s.is_full());
    s.update(9, &store);
    assert_eq!(s.len(), 3);
    let indices = s.indices();
    assert!(!indices.contains(&5));
    assert!(indices.contains(&9));
}

#[test]
fn stm_reindex_drops_extinct_slots() {
    let mut s = Stm::new(4);
    let store = make_store(5);
    s.update(0, &store);
    s.update(1, &store);
    s.update(2, &store);
    let map = vec![Some(0), None, Some(1), Some(2), Some(3)];
    s.reindex(&map);
    assert_eq!(s.len(), 2);
    let indices = s.indices();
    assert!(indices.contains(&0));
    assert!(indices.contains(&1));
}

#[test]
fn stm_reindex_remaps_survivors() {
    let mut s = Stm::new(4);
    let store = make_store(5);
    s.update(0, &store);
    s.update(2, &store);
    let map = vec![Some(0), None, Some(1), Some(2), Some(3)];
    s.reindex(&map);
    let indices = s.indices();
    assert!(indices.contains(&0));
    assert!(indices.contains(&1));
}

#[test]
fn stm_capacity_unchanged_after_reindex() {
    let mut s = Stm::new(4);
    let store = make_store(5);
    s.update(0, &store);
    s.update(1, &store);
    s.update(2, &store);
    let map = vec![Some(0), None, Some(1), Some(2)];
    s.reindex(&map);
    assert!(!s.is_full());
    let store2 = make_store(5);
    s.update(0, &store2);
    s.update(1, &store2);
    assert_eq!(s.len(), 4);
}

#[test]
fn capacity_one_second_insert_evicts_first() {
    let mut s = Stm::new(1);
    let store = make_store(5);
    s.update(3, &store);
    s.update(4, &store);
    assert_eq!(s.len(), 1);
    assert_eq!(s.indices(), &[4]);
}

#[test]
fn tie_break_evicts_fifo() {
    let mut s = Stm::new(2);
    let mut store: KernelTable<Shape> = KernelTable::new();
    store.push((vec![0.0], 1.0), Some(0));
    store.push((vec![1.0], 1.0), Some(0));
    store.push((vec![2.0], 1.0), Some(0));
    s.update(0, &store);
    s.update(1, &store);
    s.update(2, &store);
    assert!(
        !s.indices().contains(&0),
        "FIFO tie-break: first inserted evicted"
    );
    assert!(s.indices().contains(&1));
    assert!(s.indices().contains(&2));
}

#[test]
fn reindex_empty_no_panic() {
    let mut s = Stm::new(4);
    let map = vec![Some(0), None, Some(1)];
    s.reindex(&map);
    assert_eq!(s.len(), 0);
}

#[test]
fn reindex_with_index_beyond_map_length() {
    let mut s = Stm::new(4);
    let store = make_store(10);
    s.update(5, &store);
    s.update(8, &store);
    let map = vec![Some(0), Some(1), Some(2)];
    s.reindex(&map);
    assert_eq!(s.len(), 0);
}

#[test]
fn stm_update_keeps_arrival_order_below_capacity() {
    let mut s = Stm::new(3);
    let store = make_store(4);
    s.update(3, &store);
    s.update(1, &store);
    assert_eq!(s.indices(), &[3, 1]);
    assert!(!s.is_empty());
}

#[test]
fn stm_eviction_keeps_order_of_remaining() {
    let mut s = Stm::new(3);
    let store = make_store(10);
    s.update(7, &store);
    s.update(2, &store);
    s.update(9, &store);
    // kernel 2 has the lowest excitation; the others keep their order
    s.update(4, &store);
    assert_eq!(s.indices(), &[7, 9, 4]);
}

#[test]
fn stm_clone_is_independent_copy() {
    let mut s = Stm::new(2);
    let store = make_store(3);
    s.update(1, &store);
    let c = s.clone();
    s.update(2, &store);
    assert_eq!(c.indices(), &[1]);
    assert_eq!(s.indices(), &[1, 2]);
}

#[test]
fn stm_first_full_after_capacity_updates() {
    let store = make_store(6);
    let mut s = Stm::new(3);
    for (n, k) in [0usize, 1, 2, 3, 4, 5].iter().enumerate() {
        assert_eq!(s.is_full(), n >= 3);
        s.update(*k, &store);
        assert_eq!(s.len(), (n + 1).min(3));
    }
    assert!(s.is_full());
}
