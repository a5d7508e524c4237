use hnsw_index::storage::skip_list::{Entry, SkipList};

/// The threshold below which a random 32-bit number lets an element rise,
/// for the probability `p` of rising.
fn threshold(p: f64) -> u32 {
    (p * 4294967296.0) as u32
}

#[test]
fn test_insert_and_get_single_element() {
    let mut list = SkipList::new(16, threshold(0.5));
    let key = 10;
    let value = vec![1, 2, 3];
    list.update_or_insert(&key, value.clone());

    assert_eq!(list.len(), 1);
    assert_eq!(list.get(&key).map(|e| e.value().clone()), Some(value));
}

#[test]
fn test_get_non_existent_key() {
    let mut list = SkipList::new(16, threshold(0.5));
    list.update_or_insert(&10, vec![1]);
    list.update_or_insert(&30, vec![3]);

    assert_eq!(
        list.get(&20),
        None,
        "Should return None for a key that doesn't exist"
    );
}

#[test]
fn test_get_from_empty_list() {
    let list = SkipList::new(16, threshold(0.5));
    assert_eq!(
        list.get(&100),
        None,
        "Should not panic and should return None from an empty list"
    );
}

#[test]
fn test_insert_multiple_out_of_order() {
    let mut list = SkipList::new(16, threshold(0.5));
    list.update_or_insert(&30, vec![3]);
    list.update_or_insert(&10, vec![1]);
    list.update_or_insert(&20, vec![2]);

    assert_eq!(list.len(), 3);
    assert_eq!(list.get(&10).map(|e| e.value().clone()), Some(vec![1]));
    assert_eq!(list.get(&20).map(|e| e.value().clone()), Some(vec![2]));
    assert_eq!(list.get(&30).map(|e| e.value().clone()), Some(vec![3]));
}

#[test]
fn test_update_existing_key() {
    let mut list = SkipList::new(16, threshold(0.5));
    list.update_or_insert(&25, vec![1, 1]);

    // Now update it
    let new_value = vec![2, 2];
    list.update_or_insert(&25, new_value.clone());

    assert_eq!(list.len(), 1, "Size should not increase on update");
    assert_eq!(list.get(&25).map(|e| e.value().clone()), Some(new_value));
}

#[test]
fn test_search_finds_correct_predecessor() {
    let mut list = SkipList::new(16, threshold(0.5));
    list.update_or_insert(&10, vec![]);
    list.update_or_insert(&30, vec![]);

    // Search for a key that falls between two existing keys
    let (predecessor, _) = list.search(&20);
    assert_eq!(
        list.key_of(predecessor),
        Some(10),
        "Predecessor for key 20 should be 10"
    );

    // Search for a key that is larger than any in the list
    let (predecessor_large, _) = list.search(&100);
    assert_eq!(
        list.key_of(predecessor_large),
        Some(30),
        "Predecessor for key 100 should be 30"
    );
}

#[test]
fn test_delete_existing_key() {
    let mut list = SkipList::new(16, threshold(0.5));
    list.update_or_insert(&40, vec![4]);
    assert_eq!(list.len(), 1);

    assert!(
        list.delete(&40),
        "Delete should return true for an existing key"
    );
    assert_eq!(list.len(), 0, "Size should decrease after deletion");
    assert_eq!(
        list.get(&40),
        None,
        "Getting a deleted key should return None"
    );
}

#[test]
fn test_delete_non_existent_key() {
    let mut list = SkipList::new(16, threshold(0.5));
    list.update_or_insert(&40, vec![4]);

    assert!(
        !list.delete(&50),
        "Delete should return false for a non-existent key"
    );
    assert_eq!(
        list.len(),
        1,
        "Size should not change when deleting a non-existent key"
    );
}

#[test]
fn test_reinserting_deleted_key() {
    let mut list = SkipList::new(16, threshold(0.5));
    list.update_or_insert(&50, vec![5]);
    list.delete(&50);
    assert_eq!(list.get(&50), None);
    assert_eq!(list.len(), 0);

    // Re-insert with a new value
    list.update_or_insert(&50, vec![5, 5]);
    assert_eq!(list.len(), 1);
    let entry = list.get(&50).unwrap();
    assert_eq!(entry.value(), &vec![5, 5]);
    assert!(
        !entry.tombstone(),
        "Re-inserted entry should not be a tombstone"
    );
}

#[test]
fn new_list_is_empty() {
    let list = SkipList::new(4, threshold(0.25));
    assert_eq!(list.len(), 0);
    assert_eq!(list.level(), 0);
    assert_eq!(list.max_level(), 4);
    assert_eq!(list.get(&0), None);
    assert_eq!(list.search(&7).0, 0);
    assert_eq!(list.key_of(0), None);
    assert_eq!(list.key_of(1), None);
}

#[test]
fn search_before_the_first_key_ends_at_the_head() {
    let mut list = SkipList::new(8, threshold(0.5));
    list.update_or_insert(&10, vec![]);
    list.update_or_insert(&20, vec![]);
    let (predecessor, path) = list.search(&5);
    assert_eq!(predecessor, 0);
    assert_eq!(list.key_of(predecessor), None);
    assert_eq!(path.len(), list.level() + 1);
    assert_eq!(path[0], predecessor);
    // A key that is held is preceded by the greatest key below it.
    let (predecessor, _) = list.search(&10);
    assert_eq!(predecessor, 0);
    let (predecessor, _) = list.search(&20);
    assert_eq!(list.key_of(predecessor), Some(10));
    let (predecessor, _) = list.search(&21);
    assert_eq!(list.key_of(predecessor), Some(20));
}

#[test]
fn many_keys_in_any_order_and_at_any_height() {
    for p in [0.0, 0.25, 0.5, 0.9] {
        for max_level in [0usize, 1, 5, 16] {
            let mut list = SkipList::new(max_level, threshold(p));
            let keys: Vec<usize> = (0..200).map(|i| (i * 37 + 11) % 211).collect();
            for key in &keys {
                list.update_or_insert(key, vec![(*key % 256) as u8, 1]);
            }
            assert_eq!(list.len(), keys.len());
            assert!(list.level() <= max_level);
            for key in &keys {
                let entry = list.get(key).unwrap();
                assert_eq!(entry.key(), *key);
                assert_eq!(entry.value(), &vec![(*key % 256) as u8, 1]);
                assert!(!entry.tombstone());
            }
            for key in 211..230 {
                assert_eq!(list.get(&key), None);
            }
            // Every key is preceded by the greatest key below it.
            let mut sorted = keys.clone();
            sorted.sort();
            for pair in sorted.windows(2) {
                let (predecessor, path) = list.search(&pair[1]);
                assert_eq!(list.key_of(predecessor), Some(pair[0]));
                assert_eq!(path.len(), list.level() + 1);
                assert_eq!(path[0], predecessor);
            }
            assert_eq!(list.search(&sorted[0]).0, 0);
        }
    }
}

#[test]
fn delete_and_update_keep_the_count_of_live_entries() {
    let mut list = SkipList::new(6, threshold(0.5));
    for key in 0..50usize {
        list.update_or_insert(&(key * 3), vec![key as u8]);
    }
    assert_eq!(list.len(), 50);
    for key in 0..25usize {
        assert!(list.delete(&(key * 6)));
    }
    assert_eq!(list.len(), 25);
    // Deleting a deleted key finds its entry and leaves the count alone.
    assert!(list.delete(&0));
    assert!(list.delete(&6));
    assert_eq!(list.len(), 25);
    assert!(!list.delete(&1));
    assert!(!list.delete(&1000));
    assert_eq!(list.len(), 25);
    for key in 0..50usize {
        let found = list.get(&(key * 3));
        if key % 2 == 0 {
            assert_eq!(found, None);
        } else {
            assert_eq!(found.unwrap().value(), &vec![key as u8]);
        }
    }
    // Writing over a live key keeps the count; over a deleted key it adds one.
    list.update_or_insert(&3, vec![9, 9]);
    assert_eq!(list.len(), 25);
    list.update_or_insert(&0, vec![7]);
    assert_eq!(list.len(), 26);
    assert_eq!(list.get(&0).unwrap().value(), &vec![7]);
    assert_eq!(list.get(&3).unwrap().value(), &vec![9, 9]);
    assert!(!list.get(&0).unwrap().tombstone());
}

#[test]
fn random_level_stays_within_the_highest_level() {
    let never = SkipList::new(12, 0);
    let nearly_always = SkipList::new(12, u32::MAX);
    let flat = SkipList::new(0, u32::MAX);
    for _ in 0..200 {
        assert_eq!(never.random_level(), 0);
        assert!(nearly_always.random_level() <= 12);
        assert_eq!(flat.random_level(), 0);
    }
    let half = SkipList::new(3, threshold(0.5));
    let mut seen = [false; 4];
    for _ in 0..2000 {
        seen[half.random_level()] = true;
    }
    assert_eq!(seen, [true; 4]);
}

#[test]
fn entries_compare_by_key_value_and_mark() {
    let entry = Entry::new(10, vec![1, 2, 3]);
    assert_eq!(entry, Entry::new(10, vec![1, 2, 3]));
    assert_ne!(entry, Entry::new(11, vec![1, 2, 3]));
    assert_ne!(entry, Entry::new(10, vec![1, 2]));
    assert_ne!(entry, Entry::new(10, vec![1, 2, 4]));
    assert_eq!(entry.clone(), entry);
    let mut list = SkipList::new(2, threshold(0.5));
    list.update_or_insert(&10, vec![1, 2, 3]);
    assert_eq!(list.get(&10), Some(entry));
}

#[test]
fn an_element_rises_on_a_number_below_the_threshold() {
    let list = SkipList::new(3, 1000);
    assert_eq!(list.threshold(), 1000);
    assert!(list.rises(0, 0));
    assert!(list.rises(2, 999));
    assert!(!list.rises(2, 1000));
    assert!(!list.rises(0, u32::MAX));
    // At the highest level nothing rises any more.
    assert!(!list.rises(3, 0));
    assert!(!list.rises(4, 0));
    let never = SkipList::new(3, 0);
    assert!(!never.rises(0, 0));
    let flat = SkipList::new(0, u32::MAX);
    assert!(!flat.rises(0, 0));
}

#[test]
fn writing_and_deleting_keep_the_threshold() {
    let mut list = SkipList::new(4, threshold(0.25));
    list.update_or_insert(&1, vec![1]);
    list.update_or_insert(&1, vec![2]);
    list.delete(&1);
    list.delete(&9);
    assert_eq!(list.threshold(), threshold(0.25));
    assert_eq!(list.max_level(), 4);
}
