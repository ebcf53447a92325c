use cqels_core::operator::swag_join_state::{IntervalBounds, JoinAggregateSpec, WindowJoinState};
use cqels_core::operator::swag_parallel::ParallelJoinAggregator;
use cqels_core::operator::time_index::TimeIndex;

#[derive(Clone, Copy)]
struct CountSpec;
impl JoinAggregateSpec for CountSpec {
    type L = i32;
    type R = i32;
    type PL = i64;
    type PR = i64;
    type V = i64;
    fn left_payload(&self, _: &i32) -> i64 {
        1
    }
    fn right_payload(&self, _: &i32) -> i64 {
        1
    }
    fn zero(&self) -> i64 {
        0
    }
    fn add(&self, a: &i64, b: &i64) -> i64 {
        a + b
    }
    fn negate(&self, v: &i64) -> i64 {
        -v
    }
    fn multiply_left(&self, l: &i64, r: &i64) -> i64 {
        l * r
    }
    fn multiply_right(&self, l: &i64, r: &i64) -> i64 {
        l * r
    }
    fn zero_left(&self) -> i64 {
        0
    }
    fn zero_right(&self) -> i64 {
        0
    }
    fn add_left(&self, a: &i64, b: &i64) -> i64 {
        a + b
    }
    fn add_right(&self, a: &i64, b: &i64) -> i64 {
        a + b
    }
    fn name(&self) -> &str {
        "COUNT"
    }
}

fn run_both(bounds: IntervalBounds, lefts: &[(i64, i32)], rights: &[(i64, i32)]) -> (i64, i64) {
    let mut state = WindowJoinState::new(CountSpec, bounds);
    for (ts, v) in lefts {
        state.insert_left(*ts, *v);
    }
    for (ts, v) in rights {
        state.insert_right(*ts, *v);
    }
    let inc = state.aggregate();

    let agg = ParallelJoinAggregator::new(CountSpec);
    let par = agg.aggregate(
        state.left_time_index().expect("cross-product mode"),
        state.right_time_index().expect("cross-product mode"),
        bounds,
    );

    (inc, par)
}

#[test]
fn empty_inputs_return_zero() {
    let agg = ParallelJoinAggregator::new(CountSpec);
    let left: TimeIndex<i64> = TimeIndex::new();
    let right: TimeIndex<i64> = TimeIndex::new();
    assert_eq!(agg.aggregate(&left, &right, IntervalBounds::new(0, 10)), 0);
}

#[test]
fn matches_incremental_on_small_workload() {
    let (inc, par) = run_both(
        IntervalBounds::new(0, 10),
        &[(0, 1), (1, 2), (2, 3)],
        &[(5, 1), (5, 2), (8, 3)],
    );
    assert_eq!(inc, par, "parallel must match incremental");
    assert_eq!(inc, 9);
}

#[test]
fn matches_incremental_on_workload_above_threshold() {
    let mut lefts = Vec::new();
    let mut rights = Vec::new();
    for i in 0..100 {
        lefts.push((i as i64, i));
        rights.push(((i + 10) as i64, i));
    }
    let mut state = WindowJoinState::new(CountSpec, IntervalBounds::new(0, 1000));
    for (ts, v) in &lefts {
        state.insert_left(*ts, *v);
    }
    for (ts, v) in &rights {
        state.insert_right(*ts, *v);
    }

    let agg = ParallelJoinAggregator::with_threshold(CountSpec, 8);
    let par = agg.aggregate(
        state.left_time_index().expect("cross-product mode"),
        state.right_time_index().expect("cross-product mode"),
        IntervalBounds::new(0, 1000),
    );
    assert_eq!(state.aggregate(), par);
}

#[test]
fn threshold_one_still_yields_correct_aggregate() {
    let agg = ParallelJoinAggregator::with_threshold(CountSpec, 1);
    let mut state = WindowJoinState::new(CountSpec, IntervalBounds::new(0, 100));
    state.insert_left(0, 1);
    state.insert_right(5, 2);
    let par = agg.aggregate(
        state.left_time_index().expect("cross-product mode"),
        state.right_time_index().expect("cross-product mode"),
        IntervalBounds::new(0, 100),
    );
    assert_eq!(par, 1);
}

#[test]
fn key_indexed_state_exposes_no_time_indexes() {
    let mut state = WindowJoinState::with_keys(
        CountSpec,
        IntervalBounds::new(0, 100),
        |l: &i32| *l,
        |r: &i32| *r,
    );
    state.insert_left(0, 1);
    assert!(state.left_time_index().is_none());
    assert!(state.right_time_index().is_none());
}
