use cqels_core::names::{NameMap, NameSet};
use cqels_core::operator::swag_join::{
    constant, identity, JoinRecord, KeyIndexedTimeIndex, VariableOrder, VariableOrderMethod,
};

#[test]
fn join_record_equality_by_field_value() {
    let r1: JoinRecord<i32, &'static str> = JoinRecord::new(1, "a");
    let r2: JoinRecord<i32, &'static str> = JoinRecord::new(1, "a");
    let r3: JoinRecord<i32, &'static str> = JoinRecord::new(2, "a");
    assert_eq!(r1, r2);
    assert_ne!(r1, r3);
}

#[test]
fn identity_extractor_returns_element() {
    let ext = identity::<i32, i32>();
    assert_eq!(ext(&42), 42);
    assert_eq!(ext(&-7), -7);
}

#[test]
fn constant_extractor_returns_value() {
    let ext = constant::<&str, u8>(1);
    assert_eq!(ext(&"alpha"), 1);
    assert_eq!(ext(&"beta"), 1);
}

#[test]
fn arbitrary_closure_satisfies_key_extractor_trait_alias() {
    let extract = |s: &String| s.len();
    assert_eq!(extract(&"hi".to_string()), 2);
}

#[test]
fn variable_order_round_trips_fields() {
    let prefix = vec!["a".to_string(), "b".to_string(), "c".to_string()];
    let elim = vec!["c".to_string(), "b".to_string(), "a".to_string()];
    let mut tree: NameMap<NameSet> = NameMap::new();
    let mut below = NameSet::new();
    below.insert("b");
    tree.insert("a", below);
    let vo = VariableOrder::new(
        prefix.clone(),
        elim.clone(),
        true,
        tree,
        VariableOrderMethod::GyoJoinTree,
    );
    assert_eq!(vo.prefix_order(), prefix.as_slice());
    assert_eq!(vo.elimination_order(), elim.as_slice());
    assert!(vo.is_acyclic());
    assert_eq!(vo.method(), VariableOrderMethod::GyoJoinTree);
    assert!(vo.join_tree().contains_key("a"));
}

#[test]
fn key_indexed_insert_and_query_by_key_filters_correctly() {
    let mut idx: KeyIndexedTimeIndex<i64, &'static str> = KeyIndexedTimeIndex::new();
    idx.insert(42, 1000, "a");
    idx.insert(42, 1500, "b");
    idx.insert(99, 1200, "c");

    let r42 = idx.query_range_by_key(&42, 0, 2000);
    assert_eq!(r42.total_count, 2);
    assert_eq!(r42.payload_counts.get(&"a"), Some(&1));
    assert_eq!(r42.payload_counts.get(&"b"), Some(&1));
    assert!(!r42.payload_counts.contains_key(&"c"));

    let r99 = idx.query_range_by_key(&99, 0, 2000);
    assert_eq!(r99.total_count, 1);
    assert_eq!(r99.payload_counts.get(&"c"), Some(&1));
}

#[test]
fn key_indexed_query_range_aggregates_across_all_keys() {
    let mut idx: KeyIndexedTimeIndex<i64, &'static str> = KeyIndexedTimeIndex::new();
    idx.insert(1, 1000, "x");
    idx.insert(2, 1100, "y");
    idx.insert(3, 1200, "z");

    let r = idx.query_range(0, 2000);
    assert_eq!(r.total_count, 3);
    assert_eq!(r.payload_counts.len(), 3);
}

#[test]
fn key_indexed_query_for_unknown_key_returns_empty() {
    let mut idx: KeyIndexedTimeIndex<i64, &'static str> = KeyIndexedTimeIndex::new();
    idx.insert(1, 1000, "x");

    let r = idx.query_range_by_key(&999, 0, 2000);
    assert_eq!(r.total_count, 0);
    assert!(r.payload_counts.is_empty());
}

#[test]
fn key_indexed_evict_drops_empty_keys() {
    let mut idx: KeyIndexedTimeIndex<i64, i32> = KeyIndexedTimeIndex::new();
    idx.insert(1, 1000, 42);
    assert_eq!(idx.key_count(), 1);
    assert!(idx.evict(&1, 1000, &42));
    assert_eq!(idx.key_count(), 0, "empty key should be removed");
    assert!(idx.is_empty());
    assert!(!idx.evict(&1, 1000, &42));
}

#[test]
fn key_indexed_evict_keeps_key_with_remaining_buckets() {
    let mut idx: KeyIndexedTimeIndex<i64, i32> = KeyIndexedTimeIndex::new();
    idx.insert(1, 1000, 42);
    idx.insert(1, 2000, 43);
    assert!(idx.evict(&1, 1000, &42));
    assert_eq!(idx.key_count(), 1);
    assert_eq!(idx.size(), 1);
}

#[test]
fn key_indexed_time_range_filters_within_key() {
    let mut idx: KeyIndexedTimeIndex<i64, &'static str> = KeyIndexedTimeIndex::new();
    idx.insert(1, 100, "early");
    idx.insert(1, 1500, "mid");
    idx.insert(1, 3000, "late");

    let r = idx.query_range_by_key(&1, 500, 2000);
    assert_eq!(r.total_count, 1);
    assert_eq!(r.payload_counts.get(&"mid"), Some(&1));
}

#[test]
fn key_indexed_join_keys_iterator_covers_all_keys() {
    let mut idx: KeyIndexedTimeIndex<i64, i32> = KeyIndexedTimeIndex::new();
    idx.insert(1, 1000, 1);
    idx.insert(2, 1100, 2);
    idx.insert(3, 1200, 3);
    let mut keys: Vec<i64> = idx.join_keys();
    keys.sort();
    assert_eq!(keys, vec![1, 2, 3]);
}

#[test]
fn key_indexed_stats_reflect_distribution() {
    let mut idx: KeyIndexedTimeIndex<i64, i32> = KeyIndexedTimeIndex::new();
    idx.insert(1, 100, 10);
    idx.insert(1, 100, 10);
    idx.insert(1, 200, 11);
    idx.insert(1, 300, 12);
    idx.insert(2, 500, 20);

    let s = idx.stats();
    assert_eq!(s.key_count, 2);
    assert_eq!(s.total_elements, 5);
    assert_eq!(s.total_buckets, 4);
    assert_eq!(s.min_buckets_per_key, 1);
    assert_eq!(s.max_buckets_per_key, 3);
    assert_eq!(s.min_elements_per_key, 1);
    assert_eq!(s.max_elements_per_key, 4);
    assert!((s.total_buckets as f64 / s.key_count as f64 - 2.0).abs() < f64::EPSILON);
}

#[test]
fn key_indexed_stats_empty_is_all_zero() {
    let idx: KeyIndexedTimeIndex<i64, i32> = KeyIndexedTimeIndex::new();
    let s = idx.stats();
    assert_eq!(s.key_count, 0);
    assert_eq!(s.total_elements, 0);
    assert_eq!(s.total_buckets, 0);
}

#[test]
fn key_indexed_clear_resets_everything() {
    let mut idx: KeyIndexedTimeIndex<i64, i32> = KeyIndexedTimeIndex::new();
    idx.insert(1, 100, 10);
    idx.insert(2, 200, 20);
    idx.clear();
    assert!(idx.is_empty());
    assert_eq!(idx.key_count(), 0);
}

#[test]
fn key_indexed_time_index_for_key_exposes_underlying_index() {
    let mut idx: KeyIndexedTimeIndex<i64, i32> = KeyIndexedTimeIndex::new();
    idx.insert(1, 100, 42);
    let ti = idx
        .time_index_for_key(&1)
        .expect("key 1 should have a time index");
    assert_eq!(ti.size(), 1);
    assert!(idx.time_index_for_key(&999).is_none());
}
