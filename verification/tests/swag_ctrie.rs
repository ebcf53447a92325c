use cqels_core::operator::swag_ctrie::CTrieIndex;
use cqels_core::operator::time_index::TimeIndex;

#[test]
fn time_index_insert_and_range_aggregates() {
    let mut idx: TimeIndex<&'static str> = TimeIndex::new();
    idx.insert(100, "a");
    idx.insert(100, "a");
    idx.insert(100, "b");
    idx.insert(200, "a");
    idx.insert(500, "c");

    let r = idx.query_range(0, 250);
    assert_eq!(r.total_count, 4);
    assert_eq!(r.payload_counts.get(&"a"), Some(&3));
    assert_eq!(r.payload_counts.get(&"b"), Some(&1));
    assert!(!r.payload_counts.contains_key(&"c"));
}

#[test]
fn time_index_evict_decrements_multiplicity() {
    let mut idx: TimeIndex<i32> = TimeIndex::new();
    idx.insert(100, 1);
    idx.insert(100, 1);
    assert_eq!(idx.size(), 2);
    assert!(idx.evict(100, &1));
    assert_eq!(idx.size(), 1);
    assert!(idx.evict(100, &1));
    assert_eq!(idx.size(), 0);
    assert!(!idx.evict(100, &1));
    assert!(idx.is_empty());
}

#[test]
fn time_index_delete_range_returns_aggregate() {
    let mut idx: TimeIndex<&'static str> = TimeIndex::new();
    idx.insert(100, "a");
    idx.insert(200, "b");
    idx.insert(300, "c");
    let deleted = idx.delete_range(150, 250);
    assert_eq!(deleted.total_count, 1);
    assert_eq!(deleted.payload_counts.get(&"b"), Some(&1));
    assert_eq!(idx.size(), 2);
    assert_eq!(idx.bucket_count(), 2);
}

#[test]
fn time_index_query_range_entries_preserves_multiplicity() {
    let mut idx: TimeIndex<&'static str> = TimeIndex::new();
    idx.insert(100, "a");
    idx.insert(100, "a");
    idx.insert(200, "b");
    let entries = idx.query_range_entries(0, 250);
    assert_eq!(entries.len(), 2);
    let entry_a = entries.iter().find(|e| e.payload == "a").unwrap();
    assert_eq!(entry_a.count, 2);
    let entry_b = entries.iter().find(|e| e.payload == "b").unwrap();
    assert_eq!(entry_b.count, 1);
}

#[test]
fn time_index_inverted_range_returns_empty() {
    let mut idx: TimeIndex<i32> = TimeIndex::new();
    idx.insert(100, 1);
    let r = idx.query_range(500, 100);
    assert!(r.is_empty());
    let entries = idx.query_range_entries(500, 100);
    assert!(entries.is_empty());
    let deleted = idx.delete_range(500, 100);
    assert!(deleted.is_empty());
}

#[test]
fn ctrie_insert_and_full_key_query() {
    let mut idx: CTrieIndex<i64, &'static str> = CTrieIndex::new(2);
    idx.insert(&[1, 100], 1000, "x");
    idx.insert(&[1, 100], 1500, "y");
    idx.insert(&[2, 100], 1800, "z");
    assert_eq!(idx.total_count(), 3);

    let r = idx.query_range(&[Some(1), Some(100)], 0, 2000);
    assert_eq!(r.total_count, 2);
    assert_eq!(r.payload_counts.get(&"x"), Some(&1));
    assert_eq!(r.payload_counts.get(&"y"), Some(&1));
    assert!(!r.payload_counts.contains_key(&"z"));
}

#[test]
fn ctrie_wildcard_first_key_aggregates_children() {
    let mut idx: CTrieIndex<i64, &'static str> = CTrieIndex::new(2);
    idx.insert(&[1, 100], 1000, "x");
    idx.insert(&[2, 100], 1100, "y");
    idx.insert(&[3, 100], 1200, "z");
    idx.insert(&[3, 200], 1300, "w");

    let r = idx.query_range(&[None, Some(100)], 0, 2000);
    assert_eq!(r.total_count, 3);
    assert_eq!(r.payload_counts.get(&"x"), Some(&1));
    assert_eq!(r.payload_counts.get(&"y"), Some(&1));
    assert_eq!(r.payload_counts.get(&"z"), Some(&1));
    assert!(!r.payload_counts.contains_key(&"w"));
}

#[test]
fn ctrie_wildcard_second_key_aggregates_children() {
    let mut idx: CTrieIndex<i64, &'static str> = CTrieIndex::new(2);
    idx.insert(&[1, 100], 1000, "x");
    idx.insert(&[1, 200], 1100, "y");
    idx.insert(&[2, 100], 1200, "z");

    let r = idx.query_range(&[Some(1), None], 0, 2000);
    assert_eq!(r.total_count, 2);
    assert_eq!(r.payload_counts.get(&"x"), Some(&1));
    assert_eq!(r.payload_counts.get(&"y"), Some(&1));
}

#[test]
fn ctrie_double_wildcard_is_full_scan() {
    let mut idx: CTrieIndex<i64, &'static str> = CTrieIndex::new(2);
    idx.insert(&[1, 100], 1000, "x");
    idx.insert(&[2, 200], 1100, "y");
    idx.insert(&[3, 300], 1200, "z");

    let r = idx.query_range(&[None, None], 0, 2000);
    assert_eq!(r.total_count, 3);
}

#[test]
fn ctrie_time_range_filters_results() {
    let mut idx: CTrieIndex<i64, &'static str> = CTrieIndex::new(1);
    idx.insert(&[1], 100, "a");
    idx.insert(&[1], 500, "b");
    idx.insert(&[1], 1500, "c");

    let r = idx.query_range(&[Some(1)], 200, 1000);
    assert_eq!(r.total_count, 1);
    assert_eq!(r.payload_counts.get(&"b"), Some(&1));
}

#[test]
fn ctrie_delete_decrements_total_count() {
    let mut idx: CTrieIndex<i64, &'static str> = CTrieIndex::new(2);
    idx.insert(&[1, 100], 1000, "x");
    idx.insert(&[1, 100], 1500, "y");
    assert_eq!(idx.total_count(), 2);
    assert!(idx.delete(&[1, 100], 1000, &"x"));
    assert_eq!(idx.total_count(), 1);
    assert!(!idx.delete(&[1, 100], 1000, &"x"));
    assert_eq!(idx.total_count(), 1);
    assert!(!idx.delete(&[9, 9], 1000, &"x"));
}

#[test]
fn ctrie_delete_range_with_wildcard() {
    let mut idx: CTrieIndex<i64, &'static str> = CTrieIndex::new(2);
    idx.insert(&[1, 100], 1000, "x");
    idx.insert(&[1, 200], 1100, "y");
    idx.insert(&[2, 100], 1200, "z");
    idx.insert(&[2, 200], 1300, "w");

    let removed = idx.delete_range(&[None, None], 1100, 1200);
    assert_eq!(removed, 2);
    assert_eq!(idx.total_count(), 2);

    let r = idx.query_range(&[None, None], 0, 2000);
    assert_eq!(r.total_count, 2);
    assert!(r.payload_counts.contains_key(&"x"));
    assert!(r.payload_counts.contains_key(&"w"));
}

#[test]
fn ctrie_clear_resets_everything() {
    let mut idx: CTrieIndex<i64, &'static str> = CTrieIndex::new(2);
    idx.insert(&[1, 100], 1000, "x");
    idx.clear();
    assert_eq!(idx.total_count(), 0);
    let r = idx.query_range(&[None, None], 0, 2000);
    assert!(r.is_empty());
}

#[test]
fn ctrie_query_range_entries_preserves_multiplicity_across_wildcard() {
    let mut idx: CTrieIndex<i64, &'static str> = CTrieIndex::new(1);
    idx.insert(&[1], 1000, "x");
    idx.insert(&[1], 1000, "x"); // duplicate at same timestamp
    idx.insert(&[2], 1000, "x");

    let entries = idx.query_range_entries(&[None], 0, 2000);
    let total: u64 = entries.iter().map(|e| e.count).sum();
    assert_eq!(total, 3);
}

#[test]
fn ctrie_string_keys_work_too() {
    let mut idx: CTrieIndex<String, i32> = CTrieIndex::new(2);
    idx.insert(&["alice".into(), "post-1".into()], 1000, 42);
    idx.insert(&["bob".into(), "post-1".into()], 1100, 43);
    let r = idx.query_range(&[None, Some("post-1".into())], 0, 2000);
    assert_eq!(r.total_count, 2);
}
