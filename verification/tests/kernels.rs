use sokm::kernels::KernelMeta;
use sokm::kernels::KernelTable;

type Shape = (Vec<f64>, f64);

fn centroid(store: &KernelTable<Shape>, i: usize) -> &[f64] {
    &store.shape(i).0
}

fn sigma(store: &KernelTable<Shape>, i: usize) -> f64 {
    store.shape(i).1
}

#[test]
fn aos_store_push_and_len() {
    let mut store: KernelTable<Shape> = KernelTable::new();
    assert_eq!(store.len(), 0);
    assert!(store.is_empty());
    store.push((vec![1.0, 2.0], 0.5), Some(1));
    assert_eq!(store.len(), 1);
    assert!(!store.is_empty());
    store.push((vec![3.0, 4.0], 1.0), Some(0));
    assert_eq!(store.len(), 2);
}

#[test]
fn aos_store_centroid_roundtrip() {
    let mut store: KernelTable<Shape> = KernelTable::new();
    store.push((vec![1.0, 2.0, 3.0], 0.5), Some(7));
    assert_eq!(centroid(&store, 0), &[1.0, 2.0, 3.0]);
    assert_eq!(sigma(&store, 0), 0.5);
    assert_eq!(store.class_or_zero(0), 7);
    assert_eq!(store.excitation(0), 0);
    store.incr_excitation(0);
    assert_eq!(store.excitation(0), 1);
}

#[test]
fn aos_push_none_class_creates_unlabelled() {
    let mut store: KernelTable<Shape> = KernelTable::new();
    store.push((vec![1.0], 1.0), None);
    assert!(store.class_opt(0).is_none());
}

#[test]
fn aos_class_opt_returns_none_for_unlabelled() {
    let mut store: KernelTable<Shape> = KernelTable::new();
    store.push((vec![1.0], 1.0), None);
    assert_eq!(store.class_opt(0), None);
}

#[test]
fn aos_set_class_assigns_label() {
    let mut store: KernelTable<Shape> = KernelTable::new();
    store.push((vec![1.0], 1.0), None);
    store.set_class(0, 5);
    assert_eq!(store.class_opt(0), Some(5));
}

#[test]
fn aos_set_class_noop_if_already_labelled() {
    let mut store: KernelTable<Shape> = KernelTable::new();
    store.push((vec![1.0], 1.0), Some(3));
    store.set_class(0, 7);
    assert_eq!(store.class_opt(0), Some(3));
}

#[test]
fn aos_store_min_excitation_idx() {
    let mut store: KernelTable<Shape> = KernelTable::new();
    assert_eq!(store.min_excitation_idx(), None);
    store.push((vec![1.0], 1.0), Some(0));
    store.push((vec![2.0], 1.0), Some(0));
    store.push((vec![3.0], 1.0), Some(0));
    store.incr_excitation(0);
    store.incr_excitation(0);
    store.incr_excitation(1);
    // excitations: [2, 1, 0] — min at index 2
    assert_eq!(store.min_excitation_idx(), Some(2));
}

#[test]
fn touch_records_tick() {
    let mut store: KernelTable<Shape> = KernelTable::new();
    store.push((vec![0.0], 1.0), Some(0));
    store.touch(0, 42);
    assert_eq!(store.last_activated(0), 42);
}

#[test]
fn last_activated_zero_on_new_kernel() {
    let mut store: KernelTable<Shape> = KernelTable::new();
    store.push((vec![0.0], 1.0), Some(0));
    assert_eq!(store.last_activated(0), 0);
}

#[test]
fn touch_updates_on_repeated_activation() {
    let mut store: KernelTable<Shape> = KernelTable::new();
    store.push((vec![0.0], 1.0), Some(0));
    store.touch(0, 10);
    store.touch(0, 20);
    assert_eq!(store.last_activated(0), 20);
}

#[test]
fn aos_is_extinct_false_on_new_kernel() {
    let mut store: KernelTable<Shape> = KernelTable::new();
    store.push((vec![1.0], 1.0), Some(0));
    assert!(!store.is_extinct(0));
}

#[test]
fn aos_kernel_marked_extinct_after_mark_extinct() {
    let mut store: KernelTable<Shape> = KernelTable::new();
    store.push((vec![1.0], 1.0), Some(0));
    store.mark_extinct(0);
    assert!(store.is_extinct(0));
}

#[test]
fn aos_compact_extinct_reduces_len() {
    let mut store: KernelTable<Shape> = KernelTable::new();
    store.push((vec![1.0], 1.0), Some(0));
    store.push((vec![2.0], 1.0), Some(0));
    store.push((vec![3.0], 1.0), Some(0));
    store.mark_extinct(1);
    store.compact_extinct();
    assert_eq!(store.len(), 2);
}

#[test]
fn aos_compact_extinct_returns_correct_mapping() {
    let mut store: KernelTable<Shape> = KernelTable::new();
    store.push((vec![1.0], 1.0), Some(0));
    store.push((vec![2.0], 1.0), Some(0));
    store.push((vec![3.0], 1.0), Some(0));
    store.mark_extinct(1);
    let map = store.compact_extinct();
    assert_eq!(map[0], Some(0));
    assert_eq!(map[1], None);
    assert_eq!(map[2], Some(1));
}

#[test]
fn compact_extinct_on_empty_no_panic() {
    let mut store: KernelTable<Shape> = KernelTable::new();
    let map = store.compact_extinct();
    assert!(map.is_empty());
}

#[test]
fn compact_extinct_no_extinct_is_identity() {
    let mut store: KernelTable<Shape> = KernelTable::new();
    store.push((vec![1.0], 0.5), Some(1));
    store.push((vec![2.0], 1.0), Some(2));
    store.incr_excitation(0);
    store.touch(0, 42);
    let map = store.compact_extinct();
    assert_eq!(store.len(), 2);
    assert_eq!(map, vec![Some(0), Some(1)]);
    assert_eq!(centroid(&store, 0), &[1.0]);
    assert_eq!(sigma(&store, 0), 0.5);
    assert_eq!(store.excitation(0), 1);
    assert_eq!(store.last_activated(0), 42);
}

#[test]
fn compact_extinct_preserves_fields_for_survivors() {
    let mut store: KernelTable<Shape> = KernelTable::new();
    store.push((vec![1.0], 0.5), Some(1));
    store.push((vec![2.0], 1.0), Some(2));
    store.push((vec![3.0], 2.0), Some(3));
    store.incr_excitation(2);
    store.incr_excitation(2);
    store.touch(2, 99);
    store.mark_extinct(1);
    store.compact_extinct();
    // Old index 2 → new index 1
    assert_eq!(centroid(&store, 1), &[3.0]);
    assert_eq!(sigma(&store, 1), 2.0);
    assert_eq!(store.class_opt(1), Some(3));
    assert_eq!(store.excitation(1), 2);
    assert_eq!(store.last_activated(1), 99);
}

#[test]
fn is_extinct_oob_returns_false() {
    let store: KernelTable<Shape> = KernelTable::new();
    assert!(!store.is_extinct(0));
    assert!(!store.is_extinct(999));
}

#[test]
fn min_excitation_idx_skips_extinct_kernel() {
    let mut store: KernelTable<Shape> = KernelTable::new();
    store.push((vec![1.0], 1.0), Some(0));
    store.push((vec![2.0], 1.0), Some(0));
    store.incr_excitation(1);
    store.mark_extinct(0);
    assert_eq!(store.min_excitation_idx(), Some(1));
}

#[test]
fn min_excitation_idx_all_extinct_returns_none() {
    let mut store: KernelTable<Shape> = KernelTable::new();
    store.push((vec![1.0], 1.0), Some(0));
    store.push((vec![2.0], 1.0), Some(0));
    store.mark_extinct(0);
    store.mark_extinct(1);
    assert_eq!(store.min_excitation_idx(), None);
}

#[test]
fn min_excitation_idx_live_kernel_with_higher_excitation_returned() {
    let mut store: KernelTable<Shape> = KernelTable::new();
    store.push((vec![1.0], 1.0), Some(0));
    store.push((vec![2.0], 1.0), Some(0));
    store.push((vec![3.0], 1.0), Some(0));
    store.incr_excitation(1);
    store.incr_excitation(2);
    store.incr_excitation(2);
    store.mark_extinct(0);
    assert_eq!(store.min_excitation_idx(), Some(1));
}

#[test]
#[should_panic]
fn set_class_oob_panics() {
    let mut store: KernelTable<Shape> = KernelTable::new();
    store.set_class(0, 1);
}

#[test]
fn kernel_meta_new_sets_initial_values() {
    let m = KernelMeta::new(None);
    assert_eq!(m.class, None);
    assert_eq!(m.excitation, 0);
    assert_eq!(m.last_activated, 0);
    assert!(!m.extinct);
}

#[test]
fn kernel_meta_increment_excitation_saturates() {
    let mut m = KernelMeta::new(Some(0));
    m.increment_excitation();
    assert_eq!(m.excitation, 1);
    m.excitation = u64::MAX;
    m.increment_excitation();
    assert_eq!(m.excitation, u64::MAX);
}

#[test]
fn min_excitation_tie_returns_first() {
    let mut store: KernelTable<Shape> = KernelTable::new();
    store.push((vec![1.0], 1.0), Some(0));
    store.push((vec![2.0], 1.0), Some(0));
    store.push((vec![3.0], 1.0), Some(0));
    store.incr_excitation(0);
    // excitations [1, 0, 0] — first minimum is index 1
    assert_eq!(store.min_excitation_idx(), Some(1));
}

#[test]
fn expire_inactive_marks_only_stale_live_kernels() {
    let mut store: KernelTable<Shape> = KernelTable::new();
    for _ in 0..4 {
        store.push((vec![0.0], 1.0), Some(0));
    }
    store.touch(0, 10); // 20 - 10 = 10 > 5 -> dies
    store.touch(1, 15); // 20 - 15 = 5, not > 5 -> survives
    store.touch(2, 18); // survives
    store.touch(3, 1);
    store.mark_extinct(3); // already extinct: not counted again
    let n = store.expire_inactive(20, 5);
    assert_eq!(n, 1);
    assert!(store.is_extinct(0));
    assert!(!store.is_extinct(1));
    assert!(!store.is_extinct(2));
    assert!(store.is_extinct(3));
}

#[test]
fn expire_inactive_disabled_at_max_period() {
    let mut store: KernelTable<Shape> = KernelTable::new();
    store.push((vec![0.0], 1.0), Some(0));
    let n = store.expire_inactive(u64::MAX, u64::MAX);
    assert_eq!(n, 0);
    assert!(!store.is_extinct(0));
}

#[test]
fn expire_inactive_future_tick_counts_as_no_time() {
    let mut store: KernelTable<Shape> = KernelTable::new();
    store.push((vec![0.0], 1.0), Some(0));
    store.touch(0, 100);
    // current tick before the last activation: saturates to zero elapsed
    assert_eq!(store.expire_inactive(3, 0), 0);
    assert!(!store.is_extinct(0));
}

#[test]
fn same_class_mask_requires_matching_labels() {
    let mut store: KernelTable<Shape> = KernelTable::new();
    store.push((vec![0.0], 1.0), Some(1));
    store.push((vec![0.0], 1.0), None);
    store.push((vec![0.0], 1.0), Some(2));
    store.push((vec![0.0], 1.0), Some(1));
    assert_eq!(
        store.same_class_mask(&[0, 1, 2, 3], Some(1)),
        vec![true, false, false, true]
    );
    assert_eq!(store.same_class_mask(&[3, 0], Some(1)), vec![true, true]);
    // an unlabelled input never strengthens, not even with unlabelled kernels
    assert_eq!(
        store.same_class_mask(&[0, 1, 2, 3], None),
        vec![false, false, false, false]
    );
}

#[test]
fn meta_reads_whole_state() {
    let mut store: KernelTable<Shape> = KernelTable::new();
    store.push((vec![0.0], 1.0), Some(1));
    store.push((vec![0.0], 1.0), Some(1));
    store.incr_excitation(1);
    store.incr_excitation(1);
    store.touch(1, 7);
    let m = store.meta(1);
    assert_eq!(m.excitation, 2);
    assert_eq!(m.last_activated, 7);
    assert_eq!(m.class, Some(1));
    assert!(!m.extinct);
}
