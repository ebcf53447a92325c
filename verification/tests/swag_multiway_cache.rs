use cqels_core::operator::swag_join::JoinRecord;
use cqels_core::operator::swag_multiway_cache::{RangeCache, RangeCacheKey};
use cqels_core::operator::time_index::TimeIndexEntry;

type Entries = Vec<TimeIndexEntry<JoinRecord<i32, i64>>>;

fn make_entries(payloads: &[(i64, i32, i64, u64)]) -> Entries {
    payloads
        .iter()
        .map(|(ts, elem, payload, count)| {
            TimeIndexEntry::new(*ts, JoinRecord::new(*elem, *payload), *count)
        })
        .collect()
}

#[test]
fn put_and_get_round_trip() {
    let mut c: RangeCache<i32, i32, i64> = RangeCache::new(8);
    let key = RangeCacheKey::new("A", "B", 42, 0, 100);
    let entries = make_entries(&[(50, 1, 10, 2)]);
    c.put(key.clone(), entries.clone());
    let got = c.get(&key).expect("hit");
    assert_eq!(got.len(), 1);
    assert_eq!(got[0].count, 2);
}

#[test]
fn miss_on_unknown_key() {
    let c: RangeCache<i32, i32, i64> = RangeCache::new(8);
    let key = RangeCacheKey::new("A", "B", 42, 0, 100);
    assert!(c.get(&key).is_none());
}

#[test]
fn distinct_keys_distinguish_by_join_key_and_bounds() {
    let mut c: RangeCache<i32, i32, i64> = RangeCache::new(8);
    let k1 = RangeCacheKey::new("A", "B", 1, 0, 100);
    let k2 = RangeCacheKey::new("A", "B", 2, 0, 100);
    let k3 = RangeCacheKey::new("A", "B", 1, 0, 200);
    c.put(k1.clone(), make_entries(&[(0, 1, 1, 1)]));
    c.put(k2.clone(), make_entries(&[(0, 2, 1, 1)]));
    c.put(k3.clone(), make_entries(&[(0, 3, 1, 1)]));
    assert!(c.get(&k1).is_some());
    assert!(c.get(&k2).is_some());
    assert!(c.get(&k3).is_some());
    assert_eq!(c.len(), 3);
}

#[test]
fn capacity_evicts_oldest_on_overflow() {
    let mut c: RangeCache<i32, i32, i64> = RangeCache::new(2);
    let k1 = RangeCacheKey::new("A", "B", 1, 0, 10);
    let k2 = RangeCacheKey::new("A", "B", 2, 0, 10);
    let k3 = RangeCacheKey::new("A", "B", 3, 0, 10);
    c.put(k1.clone(), make_entries(&[(0, 1, 1, 1)]));
    c.put(k2.clone(), make_entries(&[(0, 2, 1, 1)]));
    c.put(k3.clone(), make_entries(&[(0, 3, 1, 1)]));
    assert!(c.get(&k1).is_none());
    assert!(c.get(&k2).is_some());
    assert!(c.get(&k3).is_some());
    assert_eq!(c.len(), 2);
}

#[test]
fn invalidate_relation_drops_matching_target_or_driver() {
    let mut c: RangeCache<i32, i32, i64> = RangeCache::new(8);
    let k_target = RangeCacheKey::new("X", "B", 1, 0, 10);
    let k_driver = RangeCacheKey::new("A", "X", 2, 0, 10);
    let k_unrelated = RangeCacheKey::new("A", "B", 3, 0, 10);
    c.put(k_target.clone(), make_entries(&[(0, 1, 1, 1)]));
    c.put(k_driver.clone(), make_entries(&[(0, 2, 1, 1)]));
    c.put(k_unrelated.clone(), make_entries(&[(0, 3, 1, 1)]));
    assert_eq!(c.len(), 3);

    c.invalidate_relation("X");

    assert!(c.get(&k_target).is_none());
    assert!(c.get(&k_driver).is_none());
    assert!(c.get(&k_unrelated).is_some());
    assert_eq!(c.len(), 1);
}

#[test]
fn invalidate_unknown_relation_is_noop() {
    let mut c: RangeCache<i32, i32, i64> = RangeCache::new(8);
    let key = RangeCacheKey::new("A", "B", 1, 0, 10);
    c.put(key.clone(), make_entries(&[(0, 1, 1, 1)]));
    c.invalidate_relation("Z");
    assert!(c.get(&key).is_some());
}

#[test]
fn clear_drops_all_entries() {
    let mut c: RangeCache<i32, i32, i64> = RangeCache::new(8);
    c.put(
        RangeCacheKey::new("A", "B", 1, 0, 10),
        make_entries(&[(0, 1, 1, 1)]),
    );
    c.put(
        RangeCacheKey::new("A", "B", 2, 0, 10),
        make_entries(&[(0, 2, 1, 1)]),
    );
    assert_eq!(c.len(), 2);
    c.clear();
    assert!(c.is_empty());
}

#[test]
fn put_replaces_existing_value_without_growing_order_queue() {
    let mut c: RangeCache<i32, i32, i64> = RangeCache::new(2);
    let k = RangeCacheKey::new("A", "B", 1, 0, 10);
    c.put(k.clone(), make_entries(&[(0, 1, 1, 1)]));
    c.put(k.clone(), make_entries(&[(0, 1, 2, 2)]));
    c.put(
        RangeCacheKey::new("A", "B", 2, 0, 10),
        make_entries(&[(0, 2, 1, 1)]),
    );
    assert_eq!(c.len(), 2);
    assert!(c.get(&k).is_some());
    let got = c.get(&k).unwrap();
    assert_eq!(got[0].count, 2, "got latest stored value");
}

#[test]
fn zero_capacity_clamps_to_one() {
    let mut c: RangeCache<i32, i32, i64> = RangeCache::new(0);
    let k = RangeCacheKey::new("A", "B", 1, 0, 10);
    c.put(k.clone(), make_entries(&[(0, 1, 1, 1)]));
    assert!(c.get(&k).is_some());
    assert_eq!(c.len(), 1);
}
