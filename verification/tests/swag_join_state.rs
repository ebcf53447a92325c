use cqels_core::operator::swag_join_state::{IntervalBounds, JoinAggregateSpec, WindowJoinState};

struct CountSpec;
impl JoinAggregateSpec for CountSpec {
    type L = i32;
    type R = i32;
    type PL = i64;
    type PR = i64;
    type V = i64;
    fn left_payload(&self, _: &i32) -> i64 {
        1
    }
    fn right_payload(&self, _: &i32) -> i64 {
        1
    }
    fn zero(&self) -> i64 {
        0
    }
    fn add(&self, a: &i64, b: &i64) -> i64 {
        a + b
    }
    fn negate(&self, v: &i64) -> i64 {
        -v
    }
    fn multiply_left(&self, l: &i64, r: &i64) -> i64 {
        l * r
    }
    fn multiply_right(&self, l: &i64, r: &i64) -> i64 {
        l * r
    }
    fn zero_left(&self) -> i64 {
        0
    }
    fn zero_right(&self) -> i64 {
        0
    }
    fn add_left(&self, a: &i64, b: &i64) -> i64 {
        a + b
    }
    fn add_right(&self, a: &i64, b: &i64) -> i64 {
        a + b
    }
    fn name(&self) -> &str {
        "COUNT"
    }
}

#[test]
fn insert_then_match_increments_count_by_one() {
    let mut s = WindowJoinState::new(CountSpec, IntervalBounds::new(0, 10));
    let d1 = s.insert_left(0, 1);
    assert_eq!(d1, 0);
    let d2 = s.insert_right(5, 2);
    assert_eq!(d2, 1, "one (left, right) match in [0,10] window");
    assert_eq!(s.aggregate(), 1);
    assert_eq!(s.left_count(), 1);
    assert_eq!(s.right_count(), 1);
}

#[test]
fn match_must_satisfy_interval_bounds() {
    let mut s = WindowJoinState::new(CountSpec, IntervalBounds::new(0, 5));
    s.insert_left(0, 1);
    let d = s.insert_right(10, 2);
    assert_eq!(d, 0, "right outside left's [0,5] window must not match");
    assert_eq!(s.aggregate(), 0);
}

#[test]
fn evict_undoes_prior_insert_delta() {
    let mut s = WindowJoinState::new(CountSpec, IntervalBounds::new(0, 10));
    s.insert_left(0, 1);
    s.insert_right(5, 2);
    assert_eq!(s.aggregate(), 1);
    let d = s.evict_left(0, 1);
    assert_eq!(d, -1, "eviction delta should be negative-1 here");
    assert_eq!(s.aggregate(), 0);
    assert_eq!(s.left_count(), 0);
}

#[test]
fn cross_product_counts_every_temporal_match() {
    let mut s = WindowJoinState::new(CountSpec, IntervalBounds::new(0, 100));
    s.insert_left(0, 1);
    s.insert_left(10, 2);
    s.insert_right(20, 3);
    s.insert_right(30, 4);
    s.insert_right(40, 5);
    assert_eq!(s.aggregate(), 6);
}

#[test]
fn clear_resets_aggregate_and_indexes() {
    let mut s = WindowJoinState::new(CountSpec, IntervalBounds::new(0, 10));
    s.insert_left(0, 1);
    s.insert_right(5, 2);
    s.clear();
    assert_eq!(s.aggregate(), 0);
    assert!(s.is_empty());
    s.insert_left(0, 1);
    s.insert_right(5, 2);
    assert_eq!(s.aggregate(), 1);
}

#[derive(Clone, Debug)]
struct Keyed {
    key: i64,
}

struct KeyedCountSpec;
impl JoinAggregateSpec for KeyedCountSpec {
    type L = Keyed;
    type R = Keyed;
    type PL = i64;
    type PR = i64;
    type V = i64;
    fn left_payload(&self, _: &Keyed) -> i64 {
        1
    }
    fn right_payload(&self, _: &Keyed) -> i64 {
        1
    }
    fn zero(&self) -> i64 {
        0
    }
    fn add(&self, a: &i64, b: &i64) -> i64 {
        a + b
    }
    fn negate(&self, v: &i64) -> i64 {
        -v
    }
    fn multiply_left(&self, l: &i64, r: &i64) -> i64 {
        l * r
    }
    fn multiply_right(&self, l: &i64, r: &i64) -> i64 {
        l * r
    }
    fn zero_left(&self) -> i64 {
        0
    }
    fn zero_right(&self) -> i64 {
        0
    }
    fn add_left(&self, a: &i64, b: &i64) -> i64 {
        a + b
    }
    fn add_right(&self, a: &i64, b: &i64) -> i64 {
        a + b
    }
    fn name(&self) -> &str {
        "KEYED_COUNT"
    }
}

#[test]
fn equi_join_only_matches_same_key() {
    let mut s = WindowJoinState::with_keys(
        KeyedCountSpec,
        IntervalBounds::new(0, 100),
        |k: &Keyed| k.key,
        |k: &Keyed| k.key,
    );

    assert!(s.is_key_indexed());

    s.insert_left(0, Keyed { key: 1 });
    s.insert_left(10, Keyed { key: 2 });
    s.insert_right(20, Keyed { key: 1 });
    s.insert_right(30, Keyed { key: 2 });
    s.insert_right(40, Keyed { key: 3 });

    assert_eq!(s.aggregate(), 2);
    assert_eq!(s.left_count(), 2);
    assert_eq!(s.right_count(), 3);
    assert_eq!(s.key_count(), 3);
}

#[test]
fn equi_join_evict_drops_only_matching_pair() {
    let mut s = WindowJoinState::with_keys(
        KeyedCountSpec,
        IntervalBounds::new(0, 100),
        |k: &Keyed| k.key,
        |k: &Keyed| k.key,
    );

    s.insert_left(0, Keyed { key: 1 });
    s.insert_right(20, Keyed { key: 1 });
    s.insert_right(30, Keyed { key: 1 });
    assert_eq!(s.aggregate(), 2);

    let d = s.evict_left(0, Keyed { key: 1 });
    assert_eq!(d, -2, "evicting the lone left at key=1 cancels both pairs");
    assert_eq!(s.aggregate(), 0);
}

#[test]
fn cross_product_key_count_is_zero() {
    let s = WindowJoinState::new(CountSpec, IntervalBounds::new(0, 10));
    assert!(!s.is_key_indexed());
    assert_eq!(s.key_count(), 0);
}
