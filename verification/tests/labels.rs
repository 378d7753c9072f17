use sokm::coactivation::CoactivationCounts;
use sokm::config::default_label_inherit_threshold;
use sokm::kernels::KernelTable;
use sokm::labels::excited_kernels;
use sokm::labels::inherit_labels;

type Shape = (Vec<f64>, f64);

fn store(classes: &[Option<u32>]) -> KernelTable<Shape> {
    let mut t: KernelTable<Shape> = KernelTable::new();
    for &c in classes {
        t.push((vec![0.0], 1.0), c);
    }
    t
}

#[test]
fn inheritance_disabled_at_default_threshold() {
    let mut t = store(&[None, Some(1)]);
    let mut counts = CoactivationCounts::new();
    let n = inherit_labels(&mut t, &[true, true], &mut counts, default_label_inherit_threshold());
    assert_eq!(n, 0);
    assert_eq!(t.class_opt(0), None);
    assert_eq!(counts.len(), 0);
}

#[test]
fn inherits_after_threshold_coactivations() {
    let mut t = store(&[None, Some(7)]);
    let mut counts = CoactivationCounts::new();
    assert_eq!(inherit_labels(&mut t, &[true, true], &mut counts, 3), 0);
    assert_eq!(counts.get(0, 1), Some(1));
    assert_eq!(inherit_labels(&mut t, &[true, true], &mut counts, 3), 0);
    assert_eq!(counts.get(0, 1), Some(2));
    assert_eq!(inherit_labels(&mut t, &[true, true], &mut counts, 3), 1);
    assert_eq!(t.class_opt(0), Some(7));
    // the counter is cleared once used
    assert_eq!(counts.get(0, 1), None);
    // a labelled kernel never changes label again
    assert_eq!(inherit_labels(&mut t, &[true, true], &mut counts, 1), 0);
}

#[test]
fn inactive_or_extinct_kernels_do_not_count() {
    let mut t = store(&[None, Some(7), Some(8)]);
    t.mark_extinct(1);
    let mut counts = CoactivationCounts::new();
    assert_eq!(excited_kernels(&t, &[true, true, false]), vec![0]);
    assert_eq!(inherit_labels(&mut t, &[true, true, false], &mut counts, 1), 0);
    assert_eq!(t.class_opt(0), None);
    // kernel 2 is active now, and beyond the activity list means inactive
    assert_eq!(excited_kernels(&t, &[true, false, true, true]), vec![0, 2]);
    assert_eq!(inherit_labels(&mut t, &[true, false, true], &mut counts, 1), 1);
    assert_eq!(t.class_opt(0), Some(8));
}

#[test]
fn first_labelled_partner_wins_and_labels_propagate_in_pass() {
    // kernel 0 unlabelled, 1 unlabelled, 2 labelled 5, 3 labelled 6
    let mut t = store(&[None, None, Some(5), Some(6)]);
    let mut counts = CoactivationCounts::new();
    let n = inherit_labels(&mut t, &[true, true, true, true], &mut counts, 1);
    assert_eq!(n, 2);
    // kernel 0 takes the label of the first labelled partner, kernel 2
    assert_eq!(t.class_opt(0), Some(5));
    // kernel 1 sees kernel 0 labelled earlier in the same pass
    assert_eq!(t.class_opt(1), Some(5));
}

#[test]
fn coactivation_counts_reindex_follows_compaction() {
    let mut t = store(&[None, Some(1), None, Some(2)]);
    let mut counts = CoactivationCounts::new();
    inherit_labels(&mut t, &[true, true, true, true], &mut counts, 10);
    assert_eq!(counts.len(), 4);
    t.mark_extinct(1);
    let map = t.compact_extinct();
    counts.reindex(&map);
    // pairs with old kernel 1 are gone; old 2 -> new 1, old 3 -> new 2
    assert_eq!(counts.len(), 2);
    assert_eq!(counts.get(0, 2), Some(1));
    assert_eq!(counts.get(1, 2), Some(1));
    assert_eq!(counts.get(0, 1), None);
}

#[test]
fn record_reports_threshold_reached() {
    let mut counts = CoactivationCounts::new();
    assert!(!counts.record(3, 4, 2));
    assert_eq!(counts.get(3, 4), Some(1));
    assert!(counts.record(3, 4, 2));
    assert_eq!(counts.get(3, 4), None);
    // a threshold of zero or one is reached on the first co-activation
    assert!(counts.record(1, 2, 0));
    assert!(counts.record(1, 2, 1));
    assert_eq!(counts.len(), 0);
}
