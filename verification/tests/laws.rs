use std::collections::HashMap;

use cqels_core::model::{BindingSet, IriTerm, Statement, Term, Value};
use cqels_core::names::NameMap;
use cqels_core::operator::aggregate::{AggregateFunction, CountAggregate, RetractableAggregateFunction};
use cqels_core::operator::join::{
    GraphPatternJoinState, IntervalJoinState, VariableLengthPathOperator, WindowedJoinState,
};
use cqels_core::operator::minus::{compatible, MinusOperator};
use cqels_core::operator::multiway_spec::MultiWayCount;
use cqels_core::operator::parallel::ParallelExecutionConfig;
use cqels_core::operator::parallel_hash_join::ParallelHashJoinOperator;
use cqels_core::operator::ranking::{SortDirection, TopKOperator};
use cqels_core::operator::rspql::{RStreamOperator, WindowUpdate};
use cqels_core::operator::swag::{SwagCountOp, SwagOp, TwoStacksLiteWindow};
use cqels_core::operator::swag_ctrie::CTrieIndex;
use cqels_core::operator::swag_join::JoinRecord;
use cqels_core::operator::swag_join_graph::{FactorizedViewPlan, JoinGraph};
use cqels_core::operator::swag_join_specs::CountSpec;
use cqels_core::operator::swag_join_state::{IntervalBounds, WindowJoinState};
use cqels_core::operator::swag_multiway::{MultiWayJoinState, RelationExtractors};
use cqels_core::operator::swag_multiway_cache::{RangeCache, RangeCacheKey};
use cqels_core::operator::swag_parallel::ParallelJoinAggregator;
use cqels_core::operator::swag_triangle::{TriangleCount, TriangleJoinAggregateSpec};
use cqels_core::operator::swag_windowed_join::{TumblingWindowAssigner, WindowedJoinAggregateOperator};
use cqels_core::operator::time_index::{TimeIndex, TimeIndexEntry};

fn edge(from: &str, by: &str, to: &str) -> Statement {
    Statement::new(Term::iri(from), IriTerm::new(by), Term::iri(to))
}

fn row(pairs: &[(&str, i64)]) -> BindingSet {
    let mut b = BindingSet::new(0);
    for (name, value) in pairs {
        b.insert(name, Value::Integer(*value));
    }
    b
}

fn scrambled(n: u64) -> Vec<i64> {
    let mut x: u64 = 12345;
    let mut out = Vec::new();
    for _ in 0..n {
        x = x.wrapping_mul(6364136223846793005).wrapping_add(1442695040888963407);
        out.push(((x >> 33) % 97) as i64);
    }
    out
}

struct Join;

impl SwagOp<char, String, String> for Join {
    fn identity(&self) -> String {
        String::new()
    }

    fn lift(&self, value: &char) -> String {
        value.to_string()
    }

    fn combine(&self, a: &String, b: &String) -> String {
        format!("{a}{b}")
    }

    fn lower(&self, aggregate: &String) -> String {
        aggregate.clone()
    }

    fn invert(&self, _: &String) -> Option<String> {
        None
    }

    fn is_invertible(&self) -> bool {
        false
    }

    fn name(&self) -> &str {
        "JOIN"
    }
}

#[test]
fn count_aggregate_counts_retracts_and_merges() {
    let agg: &dyn AggregateFunction<i32, i64, i64> = &CountAggregate;
    let mut acc = agg.create_accumulator();
    for i in 0..7 {
        acc = agg.add(&i, acc);
    }
    assert_eq!(agg.get_result(&acc), 7);
    let more = agg.add(&99, acc);
    let back = RetractableAggregateFunction::<i32, i64, i64>::retract(&CountAggregate, &99, more);
    assert_eq!(back, acc);
    assert_eq!(agg.merge(acc, 5), 12);
    assert!(RetractableAggregateFunction::<i32, i64, i64>::supports_efficient_retraction(&CountAggregate));
}

#[test]
fn compatibility_is_symmetric() {
    let rows = [row(&[("a", 1)]), row(&[("a", 1), ("b", 2)]), row(&[("b", 3)]), row(&[("c", 1)]), row(&[])];
    for x in &rows {
        for y in &rows {
            assert_eq!(compatible(x, y), compatible(y, x));
        }
    }
    assert!(compatible(&rows[0], &rows[1]));
    assert!(!compatible(&rows[1], &rows[2]));
    assert!(!compatible(&rows[4], &rows[4]));
}

#[test]
fn minus_keeps_rows_without_shared_variables() {
    let minus = MinusOperator::new(vec![row(&[("a", 1)])]);
    let kept = minus.apply(vec![row(&[("b", 1)]), row(&[("a", 1)]), row(&[("a", 2)])]);
    assert_eq!(kept.len(), 2);
    assert_eq!(kept[0].get("b"), Some(&Value::Integer(1)));
    assert_eq!(kept[1].get("a"), Some(&Value::Integer(2)));
}

#[test]
fn rstream_drops_removed_and_holds_added() {
    let updates = vec![
        WindowUpdate::new(vec![1, 2, 2], vec![], 0, 10, 1),
        WindowUpdate::new(vec![5], vec![2], 0, 10, 2),
        WindowUpdate::new(vec![7], vec![7], 0, 10, 3),
    ];
    let snapshots = RStreamOperator::apply(&updates);
    assert_eq!(snapshots.len(), 3);
    assert!(!snapshots[1].contents.contains(&2));
    assert!(snapshots[1].contents.contains(&5));
    assert!(!snapshots[2].contents.contains(&7));
    assert_eq!(snapshots[2].contents.len(), 2);
}

#[test]
fn watermark_keeps_partners_of_later_elements() {
    let f = |l: &i32, r: &i32| Some(l * 100 + r);
    let mut with: WindowedJoinState<i32, i32> = WindowedJoinState::new(1000);
    let mut without: WindowedJoinState<i32, i32> = WindowedJoinState::new(1000);
    for t in 0..10 {
        with.add_left(t, t as i64 * 300, &f);
        without.add_left(t, t as i64 * 300, &f);
    }
    with.advance_watermark(2000);
    let a: Vec<i32> = with.add_right(1, 2500, &f).into_iter().map(|r| r.value).collect();
    let b: Vec<i32> = without.add_right(1, 2500, &f).into_iter().map(|r| r.value).collect();
    assert_eq!(a, b);
    assert!(!a.is_empty());
}

#[test]
fn interval_partners_are_mutual() {
    let f = |l: &i32, r: &i32| Some((*l, *r));
    for right_at in [0i64, 500, 1000, 1500, 3000, 3001] {
        let mut left_first: IntervalJoinState<i32, i32> = IntervalJoinState::new(-500, 2000);
        left_first.add_left(1, 1000, &f);
        let a = left_first.add_right(2, right_at, &f).len();
        let mut right_first: IntervalJoinState<i32, i32> = IntervalJoinState::new(-500, 2000);
        right_first.add_right(2, right_at, &f);
        let b = right_first.add_left(1, 1000, &f).len();
        assert_eq!(a, b);
        assert_eq!(a == 1, 500 <= right_at && right_at <= 3000);
    }
}

#[test]
fn found_paths_are_the_simple_walks() {
    let mut graph = GraphPatternJoinState::new();
    graph.add_statement(&edge("a", "p", "b"), 0);
    graph.add_statement(&edge("a", "p", "c"), 0);
    graph.add_statement(&edge("b", "p", "d"), 0);
    graph.add_statement(&edge("c", "p", "d"), 0);
    graph.add_statement(&edge("d", "p", "a"), 0);
    graph.add_statement(&edge("a", "q", "d"), 0);
    let mut paths = VariableLengthPathOperator::new(1, 3).with_relationship_type("<p>").find_paths("<a>", &graph);
    paths.sort();
    let text: Vec<String> = paths.iter().map(|p| p.join(" ")).collect();
    assert_eq!(text, vec!["<a> <b>", "<a> <b> <d>", "<a> <c>", "<a> <c> <d>"]);
    let any = VariableLengthPathOperator::new(2, 2).find_paths("<a>", &graph);
    assert_eq!(any.len(), 2);
    let none = VariableLengthPathOperator::new(0, 0).find_paths("<z>", &graph);
    assert_eq!(none, vec![vec!["<z>".to_string()]]);
    let short =
        VariableLengthPathOperator::new(1, 3).with_shortest_path_only(true).find_paths("<a>", &graph);
    assert!(short.iter().all(|p| p.len() == 2));
}

#[test]
fn links_are_the_edges_and_eviction_is_by_time() {
    let mut graph = GraphPatternJoinState::default();
    graph.add_statement(&edge("a", "p", "b"), 10);
    graph.add_statement(&edge("a", "p", "b"), 20);
    graph.add_statement(&edge("x", "p", "b"), 5);
    assert_eq!(graph.get_objects("<a>", "<p>"), vec!["<b>"]);
    let mut subjects = graph.get_subjects("<b>", "<p>");
    subjects.sort();
    assert_eq!(subjects, vec!["<a>", "<x>"]);
    graph.evict_before(15);
    assert_eq!(graph.edges().len(), 1);
    assert!(graph.has_edge("<a>", "<p>"));
    assert!(!graph.has_edge("<x>", "<p>"));
}

#[test]
fn hash_join_is_the_nested_loop_join() {
    let left: Vec<(i64, usize)> = scrambled(60).into_iter().enumerate().map(|(i, k)| (k % 7, i)).collect();
    let right: Vec<(i64, usize)> = scrambled(45).into_iter().enumerate().map(|(i, k)| (k % 9, i)).collect();
    let config = ParallelExecutionConfig::builder().parallelism(3).build();
    let op = ParallelHashJoinOperator::<(i64, usize), (i64, usize), i64, (usize, usize), _, _, _>::with_config(
        |l| l.0,
        |r| r.0,
        |l, r| (l.1, r.1),
        &config,
    );
    assert_eq!(op.parallelism(), 3);
    let joined = op.join(left.clone(), &right);
    assert_eq!(joined.len(), right.len());
    for (r, found) in right.iter().zip(joined.iter()) {
        let expected: Vec<(usize, usize)> = left.iter().filter(|l| l.0 == r.0).map(|l| (l.1, r.1)).collect();
        assert_eq!(found, &expected);
    }
}

#[test]
fn two_stacks_window_is_the_fold_of_its_elements() {
    let mut window = TwoStacksLiteWindow::new(Join);
    let mut model: Vec<char> = Vec::new();
    for (i, c) in "abcdefghijklmnop".chars().enumerate() {
        window.push(&c);
        model.push(c);
        if i % 3 == 2 {
            window.pop();
            model.remove(0);
        }
        assert_eq!(window.query(), model.iter().collect::<String>());
        assert_eq!(window.len(), model.len());
    }
    while !window.is_empty() {
        window.pop();
        model.remove(0);
        assert_eq!(window.query(), model.iter().collect::<String>());
    }
    let count = SwagCountOp::<char>::default();
    assert_eq!(SwagOp::<char, i64, i64>::invert(&count, &4), Some(-4));
    assert_eq!(SwagOp::<char, i64, i64>::name(&count), "COUNT");
}

#[test]
fn top_k_is_the_head_of_the_sorted_listing() {
    let values = scrambled(80);
    for (direction, k) in [(SortDirection::Descending, 5usize), (SortDirection::Ascending, 12), (SortDirection::Descending, 0)] {
        let mut top = TopKOperator::new(k, |x: &i64| *x, direction);
        for v in &values {
            top.add(*v);
        }
        let mut sorted = values.clone();
        sorted.sort();
        if direction == SortDirection::Descending {
            sorted.reverse();
        }
        let kept: Vec<i64> = top.get_top_k().into_iter().copied().collect();
        assert_eq!(kept, sorted[..k].to_vec());
    }
}

#[test]
fn trie_insert_delete_and_range_deletion() {
    let mut trie: CTrieIndex<i64, &str> = CTrieIndex::new(2);
    trie.insert(&[1, 1], 10, "a");
    trie.insert(&[1, 2], 20, "b");
    trie.insert(&[2, 2], 30, "c");
    trie.insert(&[1, 1], 10, "a");
    assert_eq!(trie.query_range(&[Some(1), None], 0, 100).total_count, 3);
    assert_eq!(trie.query_range(&[None, Some(2)], 15, 100).total_count, 2);
    assert!(trie.delete(&[1, 1], 10, &"a"));
    assert_eq!(trie.query_range(&[Some(1), Some(1)], 10, 10).total_count, 1);
    assert!(!trie.delete(&[1, 1], 11, &"a"));
    assert_eq!(trie.delete_range(&[Some(1), None], 0, 15), 1);
    assert_eq!(trie.query_range(&[Some(1), None], 0, 15).total_count, 0);
    assert_eq!(trie.total_count(), 2);
}

#[test]
fn batch_aggregate_agrees_with_incremental_one() {
    let bounds = IntervalBounds::new(-5, 20);
    let spec = CountSpec::<i64, i64>::new();
    let mut state = WindowJoinState::new(spec.clone(), bounds);
    let mut lefts: Vec<i64> = Vec::new();
    let mut rights: Vec<i64> = Vec::new();
    for (i, t) in scrambled(200).into_iter().enumerate() {
        if i % 2 == 0 {
            state.insert_left(t, t);
            lefts.push(t);
        } else {
            state.insert_right(t, t);
            rights.push(t);
        }
    }
    let gone = lefts.remove(3);
    state.evict_left(gone, gone);
    let mut expected: i64 = 0;
    for l in &lefts {
        for r in &rights {
            if l - 5 <= *r && *r <= l + 20 {
                expected += 1;
            }
        }
    }
    assert_eq!(state.aggregate(), expected);
    for threshold in [1usize, 10, 100000] {
        let batch = ParallelJoinAggregator::with_threshold(spec.clone(), threshold);
        assert_eq!(batch.parallel_threshold(), threshold);
        let r = batch.aggregate(state.left_time_index().unwrap(), state.right_time_index().unwrap(), bounds);
        assert_eq!(r, expected);
    }
}

#[test]
fn keyed_state_joins_equal_keys_only() {
    let spec = CountSpec::<(i64, i64), (i64, i64)>::default();
    let mut state = WindowJoinState::with_keys(spec, IntervalBounds::new(0, 10), |l: &(i64, i64)| l.0, |r: &(i64, i64)| r.0);
    assert_eq!(state.insert_left(0, (1, 1)), 0);
    assert_eq!(state.insert_left(1, (2, 1)), 0);
    assert_eq!(state.insert_right(5, (1, 9)), 1);
    assert_eq!(state.insert_right(5, (2, 9)), 1);
    assert_eq!(state.insert_right(50, (2, 9)), 0);
    assert_eq!(state.aggregate(), 2);
    assert_eq!(state.evict_right(5, (2, 9)), -1);
    assert_eq!(state.aggregate(), 1);
    assert_eq!(state.key_count(), 2);
}

#[test]
fn multiway_aggregate_is_the_full_join() {
    type Row = (i64, i64);
    let mut graph = JoinGraph::new();
    graph.add_relation("a", &["k"]);
    graph.add_relation("b", &["k"]);
    graph.add_relation("c", &["k"]);
    graph.add_edge("a", "b", -10, 10);
    graph.add_edge("b", "c", -10, 10);
    let mut extractors: NameMap<RelationExtractors<fn(&Row) -> i64, fn(&Row) -> i64>> = NameMap::new();
    for name in ["a", "b", "c"] {
        extractors.insert(name, RelationExtractors::new(|e: &Row| e.0, |_: &Row| 1i64));
    }
    let mut state = MultiWayJoinState::with_extractors(graph, MultiWayCount, extractors);
    let mut rows: HashMap<&str, Vec<(i64, Row)>> = HashMap::new();
    let data = scrambled(90);
    for i in 0..30usize {
        let name = ["a", "b", "c"][i % 3];
        let t = data[3 * i] % 40;
        let r: Row = (data[3 * i + 1] % 3, i as i64);
        state.insert(name, t, r);
        rows.entry(name).or_default().push((t, r));
    }
    let brute = |rows: &HashMap<&str, Vec<(i64, Row)>>| -> i64 {
        let mut n = 0;
        for a in &rows["a"] {
            for b in &rows["b"] {
                for c in &rows["c"] {
                    let ab = (b.0 - a.0).abs() <= 10 && a.1 .0 == b.1 .0;
                    let bc = (c.0 - b.0).abs() <= 10 && b.1 .0 == c.1 .0;
                    if ab && bc {
                        n += 1;
                    }
                }
            }
        }
        n
    };
    assert_eq!(state.aggregate(), brute(&rows));
    let gone = rows.get_mut("b").unwrap().remove(2);
    state.delete("b", gone.0, gone.1);
    assert_eq!(state.aggregate(), brute(&rows));
    state.clear();
    assert_eq!(state.aggregate(), 0);
}

#[test]
fn view_plan_and_variable_order_cover_the_graph() {
    let mut graph = JoinGraph::new();
    graph.add_relation("r", &["x", "y"]);
    graph.add_relation("s", &["y", "z"]);
    graph.add_relation("t", &["z", "w"]);
    graph.add_edge("r", "s", 0, 5);
    graph.add_edge("s", "t", 0, 5);
    assert!(graph.is_acyclic_gyo());
    let order = graph.build_variable_order();
    let mut vars: Vec<String> = order.prefix_order().to_vec();
    vars.sort();
    assert_eq!(vars, vec!["w", "x", "y", "z"]);
    let plan = FactorizedViewPlan::from_graph(&graph, order);
    let mut bound: Vec<String> = Vec::new();
    for layer in plan.prefix_layers() {
        for name in layer.relations.as_slice() {
            bound.push(name.clone());
        }
    }
    bound.sort();
    assert_eq!(bound, vec!["r", "s", "t"]);
}

#[test]
fn cache_finds_what_was_put_and_drops_what_depends() {
    let mut cache: RangeCache<i64, i64, i64> = RangeCache::new(2);
    let entry = |p: i64| vec![TimeIndexEntry::new(1, JoinRecord::new(p, p), 1)];
    cache.put(RangeCacheKey::new("r", "d", 1, 0, 10), entry(1));
    cache.put(RangeCacheKey::new("s", "d", 1, 0, 10), entry(2));
    assert_eq!(cache.get(&RangeCacheKey::new("r", "d", 1, 0, 10)).unwrap()[0].payload.payload, 1);
    cache.put(RangeCacheKey::new("r", "d", 1, 0, 10), entry(3));
    assert_eq!(cache.get(&RangeCacheKey::new("r", "d", 1, 0, 10)).unwrap()[0].payload.payload, 3);
    cache.put(RangeCacheKey::new("t", "s", 1, 0, 10), entry(4));
    assert_eq!(cache.len(), 2);
    assert!(cache.get(&RangeCacheKey::new("r", "d", 1, 0, 10)).is_none());
    cache.invalidate_relation("s");
    assert!(cache.is_empty());
}

#[test]
fn count_rings_wrap() {
    let triangle: TriangleCount<i64, i64, i64> = TriangleCount::default();
    assert_eq!(triangle.add(&i64::MAX, &1), i64::MIN);
    assert_eq!(triangle.negate(&i64::MIN), i64::MIN);
    assert_eq!(triangle.multiply_triple(&i64::MAX, &2, &1), -2);
}

#[test]
fn rstream_steps_are_the_applied_updates() {
    let updates = vec![
        WindowUpdate::new(vec![1, 2], vec![], 0, 10, 1),
        WindowUpdate::new(vec![3], vec![1, 9], 10, 20, 2),
    ];
    let whole = RStreamOperator::apply(&updates);
    let mut held: Vec<i32> = Vec::new();
    for (update, snapshot) in updates.iter().zip(whole.iter()) {
        let one = RStreamOperator::step(&mut held, update);
        assert_eq!(one.contents, snapshot.contents);
        assert_eq!(one.window_end, snapshot.window_end);
    }
    held.sort();
    assert_eq!(held, vec![2, 3]);
}

#[test]
fn windowed_aggregates_are_the_joins_of_their_windows() {
    type Row = (i64, i64);
    let key: fn(&Row) -> i64 = |r| r.0;
    let mut op = WindowedJoinAggregateOperator::new(
        CountSpec::<Row, Row>::new(),
        IntervalBounds::new(-20, 20),
        TumblingWindowAssigner::new(50),
        key,
        key,
    );
    let mut lefts: Vec<(i64, Row)> = Vec::new();
    let mut rights: Vec<(i64, Row)> = Vec::new();
    for (i, t) in scrambled(120).into_iter().enumerate() {
        let row: Row = (t % 3, i as i64);
        if i % 2 == 0 {
            op.process_left(t, row);
            lefts.push((t, row));
        } else {
            op.process_right(t, row);
            rights.push((t, row));
        }
    }
    for k in 0..3i64 {
        for w in 0..2i64 {
            let mut expected: i64 = 0;
            for l in &lefts {
                for r in &rights {
                    let together = l.1 .0 == k && r.1 .0 == k && l.0 / 50 == w && r.0 / 50 == w;
                    if together && (l.0 - r.0).abs() <= 20 {
                        expected += 1;
                    }
                }
            }
            assert_eq!(op.fire_window(&k, &w), expected);
        }
    }
    op.purge_window(&0, &0);
    assert_eq!(op.fire_window(&0, &0), 0);
}

#[test]
fn time_index_lists_by_time() {
    let mut index: TimeIndex<i64> = TimeIndex::new();
    for t in scrambled(40) {
        index.insert(t, t % 4);
    }
    let entries = index.query_range_entries(10, 60);
    assert!(entries.windows(2).all(|w| w[0].timestamp <= w[1].timestamp));
    assert!(entries.iter().all(|e| 10 <= e.timestamp && e.timestamp <= 60));
    let total: u64 = entries.iter().map(|e| e.count).sum();
    assert_eq!(total, index.query_range(10, 60).total_count);
}
