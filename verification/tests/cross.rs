use sokm::cross::class_pair_fires;
use sokm::cross::cross_strengthen_pairs;
use sokm::cross::remap_cross_edge;
use sokm::cross::SourceIndex;

#[test]
fn cross_pairs_empty_sides() {
    assert!(cross_strengthen_pairs(&[], &[(0, Some(1))], true).is_empty());
    assert!(cross_strengthen_pairs(&[(0, Some(1))], &[], true).is_empty());
}

#[test]
fn cross_pairs_fire_on_class_match() {
    assert_eq!(cross_strengthen_pairs(&[(0, Some(1))], &[(0, Some(1))], true), vec![(0, 0)]);
    assert!(cross_strengthen_pairs(&[(0, Some(1))], &[(0, Some(2))], true).is_empty());
    assert!(cross_strengthen_pairs(&[(0, None)], &[(0, Some(1))], true).is_empty());
}

#[test]
fn cross_pairs_without_class_match_need_labels_only() {
    assert_eq!(cross_strengthen_pairs(&[(0, Some(1))], &[(0, Some(99))], false), vec![(0, 0)]);
    assert!(cross_strengthen_pairs(&[(0, None)], &[(0, Some(2))], false).is_empty());
}

#[test]
fn cross_pairs_row_major_order() {
    let m1 = [(3, Some(1)), (5, Some(2)), (7, Some(1))];
    let m2 = [(0, Some(1)), (4, None), (6, Some(1))];
    assert_eq!(cross_strengthen_pairs(&m1, &m2, true), vec![(3, 0), (3, 6), (7, 0), (7, 6)]);
    assert_eq!(cross_strengthen_pairs(&m1, &m2, false).len(), 6);
}

#[test]
fn class_pair_fires_rules() {
    assert!(class_pair_fires(Some(1), Some(1), true));
    assert!(!class_pair_fires(Some(1), Some(2), true));
    assert!(class_pair_fires(Some(1), Some(2), false));
    assert!(!class_pair_fires(None, None, false));
}

#[test]
fn cross_store_reindex_drops_extinct_edges() {
    let map1 = vec![Some(0), None];
    let map2 = vec![Some(0), Some(1)];
    assert_eq!(remap_cross_edge(&map1, &map2, 1, 0), None);
    assert_eq!(remap_cross_edge(&map1, &map2, 0, 1), Some((0, 1)));
    // directed: no re-canonicalization
    assert_eq!(remap_cross_edge(&[None, Some(0)], &[Some(0), Some(1)], 1, 0), Some((0, 0)));
}

#[test]
fn source_index_add_remove() {
    let mut ix = SourceIndex::new();
    assert!(ix.sources(4).is_empty());
    ix.add(1, 4);
    ix.add(2, 4);
    ix.add(3, 5);
    assert_eq!(ix.sources(4), vec![1, 2]);
    ix.remove(1, 4);
    assert_eq!(ix.sources(4), vec![2]);
    ix.remove(2, 4);
    assert!(ix.sources(4).is_empty());
    // removing an absent edge changes nothing
    ix.remove(9, 5);
    assert_eq!(ix.sources(5), vec![3]);
    ix.clear();
    assert!(ix.sources(5).is_empty());
}

#[test]
fn source_index_clone_keeps_lists() {
    let mut s = SourceIndex::new();
    s.add(3, 1);
    s.add(4, 1);
    let c = s.clone();
    s.remove(3, 1);
    assert_eq!(c.sources(1), vec![3, 4]);
    assert_eq!(s.sources(1), vec![4]);
}
