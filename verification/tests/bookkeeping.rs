use sokm::bookkeeping::activate;
use sokm::bookkeeping::compact_kernels;
use sokm::bookkeeping::tick_kernels;
use sokm::coactivation::CoactivationCounts;
use sokm::kernels::KernelTable;
use sokm::labels::inherit_labels;
use sokm::stm::Stm;

type Shape = (Vec<f64>, f64);

#[test]
fn activate_counts_touches_and_remembers() {
    let mut t: KernelTable<Shape> = KernelTable::new();
    t.push((vec![0.0], 1.0), Some(1));
    t.push((vec![1.0], 1.0), Some(1));
    let mut stm = Stm::new(1);
    activate(&mut t, &mut stm, 1, 9);
    assert_eq!(t.excitation(1), 1);
    assert_eq!(t.last_activated(1), 9);
    assert_eq!(stm.indices(), &[1]);
    // full: kernel 1 (excitation 1) is evicted in favour of kernel 0
    activate(&mut t, &mut stm, 0, 10);
    assert_eq!(stm.indices(), &[0]);
}

#[test]
fn compact_kernels_moves_everything_in_lockstep() {
    let mut t: KernelTable<Shape> = KernelTable::new();
    t.push((vec![0.0], 1.0), None);
    t.push((vec![1.0], 1.0), Some(4));
    t.push((vec![2.0], 1.0), Some(5));
    let mut stm = Stm::new(4);
    let mut counts = CoactivationCounts::new();
    activate(&mut t, &mut stm, 0, 1);
    activate(&mut t, &mut stm, 2, 1);
    activate(&mut t, &mut stm, 1, 1);
    inherit_labels(&mut t, &[true, true, true], &mut counts, 10);
    assert_eq!(counts.len(), 2);
    t.mark_extinct(1);
    let map = compact_kernels(&mut t, &mut stm, &mut counts);
    assert_eq!(map, vec![Some(0), None, Some(1)]);
    assert_eq!(t.len(), 2);
    assert_eq!(t.class_opt(1), Some(5));
    assert_eq!(stm.indices(), &[0, 1]);
    assert_eq!(counts.len(), 1);
    assert_eq!(counts.get(0, 1), Some(1));
}

#[test]
fn compact_kernels_without_extinct_changes_nothing() {
    let mut t: KernelTable<Shape> = KernelTable::new();
    t.push((vec![0.0], 1.0), Some(1));
    let mut stm = Stm::new(2);
    let mut counts = CoactivationCounts::new();
    activate(&mut t, &mut stm, 0, 3);
    let map = compact_kernels(&mut t, &mut stm, &mut counts);
    assert_eq!(map, vec![Some(0)]);
    assert_eq!(stm.indices(), &[0]);
}

#[test]
fn tick_kernels_runs_the_integer_steps_in_order() {
    let mut t: KernelTable<Shape> = KernelTable::new();
    t.push((vec![0.0], 1.0), Some(3)); // 0: labelled, input class
    t.push((vec![1.0], 1.0), None); // 1: unlabelled, co-active
    t.push((vec![2.0], 1.0), Some(4)); // 2: stale, never activated
    let mut stm = Stm::new(2);
    let mut counts = CoactivationCounts::new();
    let r = tick_kernels(
        &mut t,
        &mut stm,
        &mut counts,
        0,
        10,
        &[0, 1, 2],
        Some(3),
        &[true, true, false],
        1,
        5,
    );
    assert_eq!(r.same_class, vec![true, false, false]);
    assert_eq!(r.newly_labelled, 1);
    assert_eq!(t.class_opt(1), Some(3));
    // kernels 1 and 2 were last activated at tick 0: more than 5 ticks ago
    assert_eq!(r.newly_extinct, 2);
    assert!(!t.is_extinct(0));
    assert!(t.is_extinct(1) && t.is_extinct(2));
    assert_eq!(t.excitation(0), 1);
    assert_eq!(t.last_activated(0), 10);
    assert_eq!(stm.indices(), &[0]);
    assert_eq!(counts.len(), 0);
}

#[test]
fn tick_kernels_with_inheritance_and_extinction_disabled() {
    let mut t: KernelTable<Shape> = KernelTable::new();
    t.push((vec![0.0], 1.0), Some(3));
    t.push((vec![1.0], 1.0), None);
    let mut stm = Stm::new(1);
    let mut counts = CoactivationCounts::new();
    let r = tick_kernels(
        &mut t,
        &mut stm,
        &mut counts,
        1,
        100,
        &[1],
        None,
        &[true, true],
        u32::MAX,
        u64::MAX,
    );
    assert_eq!(r.same_class, vec![false]);
    assert_eq!(r.newly_labelled, 0);
    assert_eq!(r.newly_extinct, 0);
    assert_eq!(t.class_opt(1), None);
    assert!(!t.is_extinct(0));
    assert_eq!(stm.indices(), &[1]);
}

#[test]
fn kernel_table_and_counts_clone_keep_contents() {
    let mut t: KernelTable<Shape> = KernelTable::new();
    t.push((vec![0.5], 2.0), Some(7));
    t.touch(0, 4);
    let c = t.clone();
    assert_eq!(c.len(), 1);
    assert_eq!(c.class_opt(0), Some(7));
    assert_eq!(c.last_activated(0), 4);
    assert_eq!(c.excitation(0), t.excitation(0));
    assert_eq!(c.shape(0), &(vec![0.5], 2.0));
    let mut counts = CoactivationCounts::new();
    counts.record(0, 1, 5);
    let cc = counts.clone();
    assert_eq!(cc.get(0, 1), Some(1));
    assert_eq!(cc.len(), 1);
}
