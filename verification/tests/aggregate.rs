use std::collections::HashMap;

use cqels_core::operator::aggregate::{
    AggregateFunction, CountAggregate, GroupKey, RetractableAggregateFunction, WindowedAggregateOperator,
};
use cqels_core::stream::TimestampedValue;

type CountStr = dyn AggregateFunction<&'static str, i64, i64>;
type CountI32 = dyn AggregateFunction<i32, i64, i64>;

#[test]
fn test_count_aggregate() {
    let agg = CountAggregate;
    let agg_ref: &CountStr = &agg;
    let mut acc = agg_ref.create_accumulator();
    acc = agg_ref.add(&"a", acc);
    acc = agg_ref.add(&"b", acc);
    acc = agg_ref.add(&"c", acc);
    assert_eq!(agg_ref.get_result(&acc), 3);
}

#[test]
fn test_count_retractable() {
    let agg = CountAggregate;
    let agg_ref: &CountI32 = &agg;
    let mut acc = agg_ref.create_accumulator();
    acc = agg_ref.add(&1, acc);
    acc = agg_ref.add(&2, acc);
    acc = RetractableAggregateFunction::<i32, i64, i64>::retract(&agg, &1, acc);
    assert_eq!(agg_ref.get_result(&acc), 1);
}

#[test]
fn test_merge_aggregates() {
    let agg = CountAggregate;
    let agg_ref: &CountI32 = &agg;
    let mut acc1 = agg_ref.create_accumulator();
    acc1 = agg_ref.add(&1, acc1);
    acc1 = agg_ref.add(&2, acc1);

    let mut acc2 = agg_ref.create_accumulator();
    acc2 = agg_ref.add(&3, acc2);

    let merged = agg_ref.merge(acc1, acc2);
    assert_eq!(agg_ref.get_result(&merged), 3);
}

#[test]
fn test_group_key() {
    let gk = GroupKey::single("city");
    assert_eq!(gk.to_text(), "(city)");

    let gk2 = GroupKey::new(vec!["city".into(), "country".into()]);
    assert_eq!(gk2.to_text(), "(city, country)");
}

#[test]
fn test_windowed_aggregate_operator() {

    let agg = WindowedAggregateOperator::new(
        CountAggregate,
        |_: &TimestampedValue<f64>| None,
        5000,
    );

    let elements = vec![
        TimestampedValue::new(1.0, 0),
        TimestampedValue::new(2.0, 1000),
        TimestampedValue::new(3.0, 2000),
        TimestampedValue::new(4.0, 5000),
        TimestampedValue::new(5.0, 6000),
    ];

    let results = agg.process_batch(&elements);
    assert_eq!(results.len(), 2);

    let mut window_counts: HashMap<i64, i64> = HashMap::new();
    for r in &results {
        window_counts.insert(r.window_start, r.value);
    }
    assert_eq!(window_counts[&0], 3);
    assert_eq!(window_counts[&5000], 2);
}
