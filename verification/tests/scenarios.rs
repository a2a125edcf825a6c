use rollbackmap::RollbackMap;
use rollbackmap::VersionState;

#[test]
fn rollback_restores_updated_and_removed_keys() {
    let mut map: RollbackMap<u32, &str> = RollbackMap::new();
    map.insert(1, "a");
    map.insert(2, "b");
    let checkpoint = map.checkpoint();
    assert_eq!(checkpoint, Some(0));
    assert_eq!(map.insert(1, "xa"), Some("a"));
    assert_eq!(map.remove(&2), Some("b"));
    assert_eq!(map.len(), 1);
    assert!(map.rollback(0));
    assert_eq!(map.get(&1), Some(&"a"));
    assert_eq!(map.get(&2), Some(&"b"));
    assert_eq!(map.len(), 2);
}

#[test]
fn hundred_checkpoints_each_followed_by_a_remove() {
    let mut map: RollbackMap<u32, u32> = RollbackMap::new();
    for n in 0..100u32 {
        map.insert(n, n + 1000);
    }
    assert_eq!(map.len(), 100);
    for n in 0..100u32 {
        assert_eq!(map.checkpoint(), Some(n));
        assert_eq!(map.remove(&n), Some(n + 1000));
    }
    assert_eq!(map.len(), 0);
    assert_eq!(map.get_checkpoints_count(), 100);
    for n in (0..100u32).rev() {
        assert!(!map.contains_key(&n));
        assert!(map.rollback(n));
        assert_eq!(map.get(&n), Some(&(n + 1000)));
        assert_eq!(map.len(), (100 - n) as usize);
        for earlier in 0..n {
            assert!(!map.contains_key(&earlier));
        }
        for later in n..100u32 {
            assert!(map.contains_key(&later));
        }
    }
}

#[test]
fn round_trip_over_inserts_removes_and_a_clear() {
    let mut map: RollbackMap<u32, String> = RollbackMap::new();
    for n in 0..10u32 {
        map.insert(n, n.to_string());
    }
    map.remove(&3);
    let checkpoint = map.checkpoint().unwrap();
    map.insert(3, "three".to_owned());
    map.insert(20, "twenty".to_owned());
    map.remove(&0);
    map.remove(&20);
    map.clear();
    map.insert(5, "five".to_owned());
    assert_eq!(map.len(), 1);
    assert!(map.rollback(checkpoint));
    assert_eq!(map.len(), 9);
    for n in 0..10u32 {
        if n == 3 {
            assert_eq!(map.get(&n), None);
        } else {
            assert_eq!(map.get(&n), Some(&n.to_string()));
        }
    }
    assert_eq!(map.get(&20), None);
}

#[test]
fn len_is_the_number_of_present_keys() {
    let mut map: RollbackMap<u32, u32> = RollbackMap::new();
    let keys: Vec<u32> = (0..30).collect();
    let present = |map: &RollbackMap<u32, u32>| keys.iter().filter(|k| map.contains_key(k)).count();
    for n in 0..20u32 {
        map.insert(n, n);
        assert_eq!(map.len(), present(&map));
    }
    map.checkpoint();
    for n in 10..30u32 {
        map.insert(n, n + 1);
        assert_eq!(map.len(), present(&map));
    }
    assert_eq!(map.len(), 30);
    for n in 0..5u32 {
        map.remove(&n);
        assert_eq!(map.len(), present(&map));
    }
    assert_eq!(map.len(), 25);
    map.checkpoint();
    map.remove(&25);
    map.remove(&25);
    assert_eq!(map.len(), 24);
    assert_eq!(map.len(), present(&map));
    map.clear();
    assert_eq!(map.len(), 0);
    assert_eq!(present(&map), 0);
    map.insert(7, 70);
    assert_eq!(map.len(), 1);
    assert!(map.rollback(1));
    assert_eq!(map.len(), 25);
    assert_eq!(map.len(), present(&map));
    assert!(map.rollback(0));
    assert_eq!(map.len(), 20);
    assert_eq!(map.len(), present(&map));
}

#[test]
fn reinsert_after_remove_in_one_layer_counts_once() {
    let mut map: RollbackMap<u32, &str> = RollbackMap::new();
    map.insert(1, "a");
    map.checkpoint();
    assert_eq!(map.remove(&1), Some("a"));
    assert_eq!(map.len(), 0);
    assert_eq!(map.insert(1, "b"), None);
    assert_eq!(map.len(), 1);
    assert_eq!(map.get(&1), Some(&"b"));
    assert_eq!(map.insert(1, "c"), Some("b"));
    assert_eq!(map.len(), 1);
}

#[test]
fn removing_a_key_written_over_an_older_value_shows_the_older_value() {
    let mut map: RollbackMap<u32, &str> = RollbackMap::new();
    map.insert(1, "a");
    map.checkpoint();
    assert_eq!(map.insert(1, "b"), Some("a"));
    assert_eq!(map.len(), 1);
    assert_eq!(map.remove(&1), Some("b"));
    assert_eq!(map.len(), 0);
    assert_eq!(map.get(&1), Some(&"a"));
}

#[test]
fn rollback_to_a_discarded_checkpoint_fails_and_changes_nothing() {
    let mut map: RollbackMap<u32, &str> = RollbackMap::new();
    map.insert(1, "a");
    let first = map.checkpoint().unwrap();
    map.insert(2, "b");
    let second = map.checkpoint().unwrap();
    map.insert(3, "c");
    assert!(map.rollback(first));
    map.insert(4, "d");
    assert!(!map.rollback(second));
    assert_eq!(map.len(), 2);
    assert_eq!(map.get(&1), Some(&"a"));
    assert_eq!(map.get(&2), None);
    assert_eq!(map.get(&4), Some(&"d"));
    assert_eq!(map.get_last_checkpoint(), Some(first));
    assert_eq!(map.get_checkpoints_count(), 1);
    assert!(map.rollback(first));
    assert_eq!(map.get(&4), None);
    assert_eq!(map.len(), 1);
}

#[test]
fn rollback_to_a_pruned_checkpoint_fails_and_changes_nothing() {
    let mut map: RollbackMap<u32, &str> = RollbackMap::new();
    let first = map.checkpoint().unwrap();
    map.insert(1, "a");
    let second = map.checkpoint().unwrap();
    map.insert(2, "b");
    assert_eq!(map.prune(), Some(second));
    assert!(!map.rollback(first));
    assert_eq!(map.get(&1), Some(&"a"));
    assert_eq!(map.get(&2), Some(&"b"));
    assert_eq!(map.len(), 2);
    assert_eq!(map.get_checkpoints_count(), 1);
    assert_eq!(map.get_prev_checkpoint(), None);
    assert!(map.rollback(second));
    assert_eq!(map.get(&1), Some(&"a"));
    assert_eq!(map.get(&2), None);
    assert_eq!(map.len(), 1);
}

#[test]
fn rollback_to_an_identifier_that_is_no_checkpoint_changes_nothing() {
    let mut map: RollbackMap<u32, &str> = RollbackMap::new();
    assert!(!map.rollback(0));
    map.insert(1, "a");
    map.checkpoint();
    map.insert(2, "b");
    map.checkpoint();
    map.insert(3, "c");
    assert!(!map.rollback(2));
    assert!(!map.rollback(3));
    assert!(!map.rollback(u32::MAX));
    assert_eq!(map.get_checkpoints_count(), 2);
    assert_eq!(map.get_last_checkpoint(), Some(1));
    assert_eq!(map.get_prev_checkpoint(), Some(0));
    assert_eq!(map.len(), 3);
    assert_eq!(map.get(&3), Some(&"c"));
}

#[test]
fn prune_keeps_what_the_newest_two_layers_show() {
    let mut map: RollbackMap<u32, &str> = RollbackMap::new();
    map.insert(1, "a");
    map.checkpoint();
    map.clear();
    map.insert(2, "b");
    map.checkpoint();
    map.insert(3, "c");
    map.checkpoint();
    map.insert(2, "bb");
    assert_eq!(map.prune(), Some(2));
    assert_eq!(map.len(), 2);
    assert_eq!(map.get(&1), None);
    assert_eq!(map.get(&2), Some(&"bb"));
    assert_eq!(map.get(&3), Some(&"c"));
    assert_eq!(map.get_checkpoints_count(), 1);
}

#[test]
fn prune_drops_keys_seen_only_through_older_layers() {
    let mut map: RollbackMap<u32, &str> = RollbackMap::new();
    map.insert(1, "a");
    map.checkpoint();
    map.checkpoint();
    assert_eq!(map.get(&1), Some(&"a"));
    assert_eq!(map.prune(), Some(1));
    assert_eq!(map.get(&1), None);
    assert_eq!(map.len(), 1);
}

#[test]
fn prune_with_at_most_one_checkpoint_changes_nothing() {
    let mut map: RollbackMap<u32, &str> = RollbackMap::new();
    map.insert(1, "a");
    assert_eq!(map.prune(), None);
    assert_eq!(map.get(&1), Some(&"a"));
    map.checkpoint();
    map.insert(2, "b");
    assert_eq!(map.prune(), Some(0));
    assert_eq!(map.get(&1), Some(&"a"));
    assert_eq!(map.get(&2), Some(&"b"));
    assert_eq!(map.len(), 2);
    assert!(map.rollback(0));
    assert_eq!(map.len(), 1);
}

#[test]
fn clear_then_checkpoint_then_rollback_gives_an_empty_map() {
    let mut map: RollbackMap<u32, &str> = RollbackMap::new();
    map.insert(1, "a");
    map.insert(2, "b");
    map.clear();
    let checkpoint = map.checkpoint().unwrap();
    assert_eq!(map.len(), 0);
    assert_eq!(map.get(&1), None);
    map.insert(3, "c");
    assert_eq!(map.insert(1, "again"), None);
    assert_eq!(map.len(), 2);
    assert!(map.rollback(checkpoint));
    assert!(map.is_empty());
    assert_eq!(map.len(), 0);
    assert_eq!(map.get(&1), None);
    assert_eq!(map.get(&2), None);
    assert_eq!(map.get(&3), None);
}

#[test]
fn rollback_past_a_clear_brings_the_cleared_data_back() {
    let mut map: RollbackMap<u32, &str> = RollbackMap::new();
    map.insert(1, "a");
    let checkpoint = map.checkpoint().unwrap();
    map.clear();
    assert!(map.is_empty());
    assert!(!map.contains_key(&1));
    assert!(map.rollback(checkpoint));
    assert_eq!(map.get(&1), Some(&"a"));
    assert_eq!(map.len(), 1);
}

#[test]
fn checkpoint_identifiers_count_up_and_are_given_again_after_rollback() {
    let mut map: RollbackMap<u32, &str> = RollbackMap::new();
    assert_eq!(map.get_checkpoints_count(), 0);
    assert_eq!(map.checkpoint(), Some(0));
    assert_eq!(map.checkpoint(), Some(1));
    assert_eq!(map.checkpoint(), Some(2));
    assert_eq!(map.get_checkpoints_count(), 3);
    assert_eq!(map.get_last_checkpoint(), Some(2));
    assert_eq!(map.get_prev_checkpoint(), Some(1));
    assert!(map.rollback(0));
    assert_eq!(map.get_checkpoints_count(), 1);
    assert_eq!(map.get_last_checkpoint(), Some(0));
    assert_eq!(map.get_prev_checkpoint(), None);
    assert_eq!(map.checkpoint(), Some(1));
    assert_eq!(map.get_checkpoints_count(), 2);
}

#[test]
fn remove_of_an_absent_key_changes_nothing() {
    let mut map: RollbackMap<u32, &str> = RollbackMap::new();
    map.insert(1, "a");
    map.checkpoint();
    assert_eq!(map.remove(&2), None);
    assert_eq!(map.len(), 1);
    assert_eq!(map.remove(&1), Some("a"));
    assert_eq!(map.remove(&1), None);
    assert_eq!(map.len(), 0);
    assert!(map.is_empty());
}

#[test]
fn new_layer_is_empty_with_the_given_identifier_and_count() {
    let state: VersionState<u32, &str> = VersionState::new(7, 3);
    assert!(state.data.is_empty());
    assert!(state.removed_keys.is_empty());
    assert!(!state.detached);
    assert_eq!(state.checkpoint, 7);
    assert_eq!(state.values_count, 3);
}

#[test]
fn reset_empties_a_layer_and_keeps_its_identifier() {
    let mut state: VersionState<u32, &str> = VersionState::new(4, 2);
    state.data.insert(1, "a");
    state.removed_keys.insert(2);
    state.detached = true;
    state.reset(9);
    assert!(state.data.is_empty());
    assert!(state.removed_keys.is_empty());
    assert!(!state.detached);
    assert_eq!(state.checkpoint, 4);
    assert_eq!(state.values_count, 9);
}
