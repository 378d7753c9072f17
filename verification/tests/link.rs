use sokm::link::canonical;
use sokm::link::coactivation_pairs;
use sokm::link::inactive_positions;
use sokm::link::is_inactive;
use sokm::link::needs_compaction;
use sokm::link::reindexed_node_count;
use sokm::link::remap_edge;
use sokm::link::DecayMode;
use sokm::link::SokmReport;

#[test]
fn canonical_orders_pair() {
    assert_eq!(canonical(3, 1), (1, 3));
    assert_eq!(canonical(1, 3), (1, 3));
    assert_eq!(canonical(5, 5), (5, 5));
}

#[test]
fn inactivity_is_strictly_greater_than_p1() {
    // edge (0,2) last_active = 0, p1 = 10, current = 20 -> extinct
    assert!(is_inactive(20, 0, 10));
    // touched at 50, current 20: no time has elapsed
    assert!(!is_inactive(20, 50, 10));
    // survives its p1-th inactive tick, dies on the next
    assert!(!is_inactive(15, 5, 10));
    assert!(is_inactive(16, 5, 10));
    // p1 = u64::MAX never prunes
    assert!(!is_inactive(u64::MAX, 0, u64::MAX));
}

#[test]
fn inactive_positions_selects_stale_edges() {
    let ticks = [50, 0, 9, 10];
    assert_eq!(inactive_positions(&ticks, 20, 10), vec![1, 2]);
    assert!(inactive_positions(&[], 20, 10).is_empty());
}

#[test]
fn remap_edge_drops_extinct_and_recanonicalizes() {
    let map = vec![Some(0), None, Some(1)];
    assert_eq!(remap_edge(&map, 0, 1), None);
    assert_eq!(remap_edge(&map, 1, 2), None);
    assert_eq!(remap_edge(&map, 2, 0), Some((0, 1)));
    let map2 = vec![Some(0), Some(1), None, Some(2), Some(3), Some(4)];
    // old 3 -> new 2, old 5 -> new 4 -> canonical (2, 4)
    assert_eq!(remap_edge(&map2, 5, 3), Some((2, 4)));
    // an endpoint beyond the map counts as removed
    assert_eq!(remap_edge(&map2, 0, 9), None);
}

#[test]
fn reindexed_node_count_is_max_survivor_plus_one() {
    assert_eq!(reindexed_node_count(&[Some(0), None, Some(1)]), 2);
    assert_eq!(reindexed_node_count(&[None, None]), 0);
    assert_eq!(reindexed_node_count(&[]), 0);
    assert_eq!(reindexed_node_count(&[Some(4), Some(2)]), 5);
}

#[test]
fn needs_compaction_above_quarter_dead() {
    assert!(!needs_compaction(0, 0));
    assert!(!needs_compaction(1, 4));
    assert!(needs_compaction(2, 4));
    assert!(!needs_compaction(1, 7));
    assert!(needs_compaction(2, 7));
}

#[test]
fn coactivation_pairs_visits_each_pair_once() {
    assert!(coactivation_pairs(0).is_empty());
    assert!(coactivation_pairs(1).is_empty());
    assert_eq!(coactivation_pairs(2), vec![(0, 1)]);
    assert_eq!(
        coactivation_pairs(4),
        vec![(0, 1), (0, 2), (0, 3), (1, 2), (1, 3), (2, 3)]
    );
    assert_eq!(coactivation_pairs(10).len(), 45);
}

#[test]
fn report_and_decay_mode() {
    let r = SokmReport::new(3, 1, 2);
    assert_eq!(r.edges_alive, 3);
    assert_eq!(r.strengthened, 1);
    assert_eq!(r.pruned, 2);
    assert_eq!(DecayMode::default(), DecayMode::Apply);
    assert_ne!(DecayMode::Skip, DecayMode::Apply);
}
