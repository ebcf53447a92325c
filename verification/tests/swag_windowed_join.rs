use cqels_core::operator::swag_join_state::{IntervalBounds, JoinAggregateSpec};
use cqels_core::operator::swag_windowed_join::{
    Side, TumblingWindowAssigner, WindowAssigner, WindowedJoinAggregateOperator,
};

type KeyFn = fn(&(i32, i64)) -> i32;

#[derive(Clone, Copy)]
struct CountSpec;
impl JoinAggregateSpec for CountSpec {
    type L = (i32, i64);
    type R = (i32, i64);
    type PL = i64;
    type PR = i64;
    type V = i64;
    fn left_payload(&self, _: &Self::L) -> i64 {
        1
    }
    fn right_payload(&self, _: &Self::R) -> i64 {
        1
    }
    fn zero(&self) -> i64 {
        0
    }
    fn add(&self, a: &i64, b: &i64) -> i64 {
        a + b
    }
    fn negate(&self, v: &i64) -> i64 {
        -v
    }
    fn multiply_left(&self, l: &i64, r: &i64) -> i64 {
        l * r
    }
    fn multiply_right(&self, l: &i64, r: &i64) -> i64 {
        l * r
    }
    fn zero_left(&self) -> i64 {
        0
    }
    fn zero_right(&self) -> i64 {
        0
    }
    fn add_left(&self, a: &i64, b: &i64) -> i64 {
        a + b
    }
    fn add_right(&self, a: &i64, b: &i64) -> i64 {
        a + b
    }
    fn name(&self) -> &str {
        "COUNT"
    }
}

fn make_op() -> WindowedJoinAggregateOperator<CountSpec, i32, i64, TumblingWindowAssigner, KeyFn, KeyFn> {
    WindowedJoinAggregateOperator::new(
        CountSpec,
        IntervalBounds::new(0, 100),
        TumblingWindowAssigner::new(1000),
        |l: &(i32, i64)| l.0,
        |r: &(i32, i64)| r.0,
    )
}

#[test]
fn tumbling_assigner_groups_by_window_id() {
    let a = TumblingWindowAssigner::new(1000);
    assert_eq!(a.assign(0), vec![0]);
    assert_eq!(a.assign(500), vec![0]);
    assert_eq!(a.assign(999), vec![0]);
    assert_eq!(a.assign(1000), vec![1]);
    assert_eq!(a.assign(2500), vec![2]);
}

#[test]
fn separate_keys_drive_separate_partitions() {
    let mut op = make_op();
    op.process_left(10, (1, 100));
    op.process_left(20, (2, 200));
    op.process_right(30, (1, 999));
    assert_eq!(op.partition_count(), 2);
    assert_eq!(op.fire_window(&1, &0), 1);
    assert_eq!(op.fire_window(&2, &0), 0);
}

#[test]
fn separate_windows_drive_separate_partitions() {
    let mut op = make_op();
    op.process_left(100, (1, 0));
    op.process_right(200, (1, 0));
    op.process_left(1100, (1, 0));
    op.process_right(1200, (1, 0));
    assert_eq!(op.partition_count(), 2);
    assert_eq!(op.fire_window(&1, &0), 1);
    assert_eq!(op.fire_window(&1, &1), 1);
}

#[test]
fn process_returns_one_result_per_assigned_window() {
    let mut op = make_op();
    let results = op.process_left(500, (7, 0));
    assert_eq!(results.len(), 1);
    assert_eq!(results[0].key, 7);
    assert_eq!(results[0].window, 0);
    assert_eq!(results[0].side, Side::Left);
    assert_eq!(results[0].delta, 0);
    let results = op.process_right(550, (7, 0));
    assert_eq!(results.len(), 1);
    assert_eq!(results[0].delta, 1);
    assert_eq!(results[0].aggregate, 1);
    assert_eq!(results[0].side, Side::Right);
}

#[test]
fn fire_window_returns_zero_for_missing_partition() {
    let op = make_op();
    assert_eq!(op.fire_window(&999, &42), 0);
}

#[test]
fn purge_drops_partition_state() {
    let mut op = make_op();
    op.process_left(10, (1, 0));
    op.process_right(20, (1, 0));
    assert_eq!(op.fire_window(&1, &0), 1);
    op.purge_window(&1, &0);
    assert_eq!(op.fire_window(&1, &0), 0);
    assert_eq!(op.partition_count(), 0);
}

#[test]
fn clear_drops_every_partition() {
    let mut op = make_op();
    op.process_left(10, (1, 0));
    op.process_left(20, (2, 0));
    op.process_left(30, (3, 0));
    assert_eq!(op.partition_count(), 3);
    op.clear();
    assert_eq!(op.partition_count(), 0);
    assert_eq!(op.fire_window(&1, &0), 0);
}

#[derive(Clone, Copy)]
struct SlidingAssigner {
    size: i64,
    slide: i64,
}
impl WindowAssigner<i64> for SlidingAssigner {
    fn assign(&self, timestamp: i64) -> Vec<i64> {
        let first = ((timestamp - self.size) / self.slide + 1) * self.slide;
        let first = first.max(0);
        let mut out = Vec::new();
        let mut start = first;
        while start <= timestamp {
            if timestamp < start + self.size {
                out.push(start / self.slide);
            }
            start += self.slide;
        }
        out
    }
}

#[test]
fn sliding_assigner_emits_one_result_per_overlapping_window() {
    let mut op: WindowedJoinAggregateOperator<CountSpec, i32, i64, SlidingAssigner, KeyFn, KeyFn> =
        WindowedJoinAggregateOperator::new(
            CountSpec,
            IntervalBounds::new(0, 100),
            SlidingAssigner {
                size: 1000,
                slide: 500,
            },
            |l: &(i32, i64)| l.0,
            |r: &(i32, i64)| r.0,
        );
    let results = op.process_left(10000, (1, 0));
    assert_eq!(results.len(), 2);
    assert_eq!(op.partition_count(), 2);
}
