use sokm::compaction::compaction_map;
use sokm::compaction::keep_survivors;
use sokm::compaction::remap_index;
use sokm::compaction::removed_count;

#[test]
fn compaction_map_numbers_survivors_in_order() {
    let map = compaction_map(&[false, true, false, true, false]);
    assert_eq!(map, vec![Some(0), None, Some(1), None, Some(2)]);
    assert_eq!(removed_count(&map), 2);
}

#[test]
fn compaction_map_empty_and_all_extinct() {
    assert!(compaction_map(&[]).is_empty());
    let map = compaction_map(&[true, true]);
    assert_eq!(map, vec![None, None]);
    assert_eq!(removed_count(&map), 2);
}

#[test]
fn remap_index_beyond_map_is_removed() {
    let map = vec![Some(0), None, Some(1)];
    assert_eq!(remap_index(&map, 0), Some(0));
    assert_eq!(remap_index(&map, 1), None);
    assert_eq!(remap_index(&map, 2), Some(1));
    assert_eq!(remap_index(&map, 3), None);
}

#[test]
fn emotion_store_compact_drops_extinct() {
    let vars = vec![[0.1, 0.2], [0.3, 0.4], [0.5, 0.6]];
    let map = vec![Some(0), None, Some(1)];
    let kept = keep_survivors(vars, &map);
    assert_eq!(kept, vec![[0.1, 0.2], [0.5, 0.6]]);
}

#[test]
fn compact_with_map_all_surviving_identity() {
    let vars = vec![[1.0, 2.0], [3.0, 4.0]];
    let map = vec![Some(0), Some(1)];
    assert_eq!(keep_survivors(vars.clone(), &map), vars);
}

#[test]
fn compact_with_map_empty_no_panic() {
    let vars: Vec<[f64; 2]> = Vec::new();
    assert!(keep_survivors(vars, &[]).is_empty());
}

#[test]
fn compact_with_map_boundary_last_index() {
    let vars = vec![[1.0, 1.0], [2.0, 2.0], [3.0, 3.0]];
    let map = vec![Some(0), Some(1), None];
    assert_eq!(keep_survivors(vars, &map), vec![[1.0, 1.0], [2.0, 2.0]]);
}

#[test]
fn keep_survivors_moves_non_copy_items() {
    let items = vec![String::from("a"), String::from("b"), String::from("c")];
    let map = compaction_map(&[true, false, false]);
    assert_eq!(keep_survivors(items, &map), vec![String::from("b"), String::from("c")]);
}
