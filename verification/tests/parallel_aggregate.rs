use cqels_core::operator::aggregate::{AggregateFunction, AggregateResult, CountAggregate, GroupKey};
use cqels_core::operator::parallel::ParallelExecutionConfig;
use cqels_core::operator::parallel_aggregate::ParallelWindowedAggregateOperator;
use cqels_core::stream::TimestampedValue;

struct SumAggregate<F> {
    extractor: F,
}

impl<F> SumAggregate<F> {
    fn new(extractor: F) -> Self {
        SumAggregate { extractor }
    }
}

impl<T, F: Fn(&T) -> f64 + Send + Sync> AggregateFunction<T, f64, f64> for SumAggregate<F> {
    fn create_accumulator(&self) -> f64 {
        0.0
    }

    fn add(&self, element: &T, accumulator: f64) -> f64 {
        accumulator + (self.extractor)(element)
    }

    fn get_result(&self, accumulator: &f64) -> f64 {
        *accumulator
    }

    fn merge(&self, a: f64, b: f64) -> f64 {
        a + b
    }
}

fn make_events(n: usize) -> Vec<TimestampedValue<u32>> {
    (0..n as u32)
        .map(|i| TimestampedValue::new(i, (i as i64) * 100))
        .collect()
}

#[test]
fn empty_input_returns_empty_result() {
    let op = ParallelWindowedAggregateOperator::new(
        CountAggregate,
        |_: &TimestampedValue<u32>| None,
        1_000,
    );
    assert!(op.process_batch(&[]).is_empty());
}

#[test]
fn single_partition_count_matches_sequential() {
    let config = ParallelExecutionConfig::builder().parallelism(1).build();
    let op = ParallelWindowedAggregateOperator::with_config(
        CountAggregate,
        |_: &TimestampedValue<u32>| None,
        1_000,
        &config,
    );
    let events = make_events(50);
    let results = op.process_batch(&events);
    assert_eq!(results.len(), 5);
    let total: i64 = results.iter().map(|r| r.value).sum();
    assert_eq!(total, 50);
}

#[test]
fn parallel_count_matches_sequential_baseline() {
    let events = make_events(200);
    let sequential = {
        let op = ParallelWindowedAggregateOperator::with_config(
            CountAggregate,
            |_: &TimestampedValue<u32>| None,
            1_000,
            &ParallelExecutionConfig::builder().parallelism(1).build(),
        );
        sort_results(op.process_batch(&events))
    };
    for &p in &[2usize, 4, 8] {
        let op = ParallelWindowedAggregateOperator::with_config(
            CountAggregate,
            |_: &TimestampedValue<u32>| None,
            1_000,
            &ParallelExecutionConfig::builder().parallelism(p).build(),
        );
        let parallel = sort_results(op.process_batch(&events));
        assert_eq!(parallel.len(), sequential.len(), "parallelism={p}");
        for (s, p_r) in sequential.iter().zip(parallel.iter()) {
            assert_eq!(s.window_start, p_r.window_start, "parallelism={p}");
            assert_eq!(s.value, p_r.value, "parallelism={p}");
        }
    }
}

#[test]
fn parallel_grouped_sum_matches_sequential_baseline() {
    let events: Vec<TimestampedValue<u32>> = (0..200)
        .map(|i| TimestampedValue::new(i, (i as i64) * 50))
        .collect();
    let group_fn =
        |e: &TimestampedValue<u32>| Some(GroupKey::single(&format!("g{}", e.value % 4)));
    let sum_extractor = |e: &TimestampedValue<u32>| e.value as f64;

    let sequential = {
        let op = ParallelWindowedAggregateOperator::with_config(
            SumAggregate::new(sum_extractor),
            group_fn,
            1_000,
            &ParallelExecutionConfig::builder().parallelism(1).build(),
        );
        sort_grouped_results(op.process_batch(&events))
    };
    for &p in &[2usize, 4, 8] {
        let op = ParallelWindowedAggregateOperator::with_config(
            SumAggregate::new(sum_extractor),
            group_fn,
            1_000,
            &ParallelExecutionConfig::builder().parallelism(p).build(),
        );
        let parallel = sort_grouped_results(op.process_batch(&events));
        assert_eq!(parallel.len(), sequential.len(), "parallelism={p}");
        for (s, p_r) in sequential.iter().zip(parallel.iter()) {
            assert_eq!(s.window_start, p_r.window_start, "parallelism={p}");
            assert_eq!(s.group_key, p_r.group_key, "parallelism={p}");
            assert!(
                (s.value - p_r.value).abs() < 1e-9,
                "parallelism={p}: {} vs {}",
                s.value,
                p_r.value,
            );
        }
    }
}

#[test]
fn parallelism_setting_visible() {
    let op = ParallelWindowedAggregateOperator::with_config(
        CountAggregate,
        |_: &TimestampedValue<u32>| None,
        1_000,
        &ParallelExecutionConfig::builder().parallelism(8).build(),
    );
    assert_eq!(op.parallelism(), 8);
}

fn sort_results(mut r: Vec<AggregateResult<i64>>) -> Vec<AggregateResult<i64>> {
    r.sort_by_key(|res| res.window_start);
    r
}

fn sort_grouped_results(mut r: Vec<AggregateResult<f64>>) -> Vec<AggregateResult<f64>> {
    r.sort_by(|a, b| {
        a.window_start
            .cmp(&b.window_start)
            .then_with(|| format!("{:?}", a.group_key).cmp(&format!("{:?}", b.group_key)))
    });
    r
}
