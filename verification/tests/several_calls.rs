use cqels_core::model::{IriTerm, Statement, Term};
use cqels_core::names::NameMap;
use cqels_core::operator::join::{GraphPatternJoinState, IntervalJoinState, VariableLengthPathOperator};
use cqels_core::operator::multiway_spec::MultiWayCount;
use cqels_core::operator::swag_ctrie::CTrieIndex;
use cqels_core::operator::swag_join::KeyIndexedTimeIndex;
use cqels_core::operator::swag_join_graph::JoinGraph;
use cqels_core::operator::swag_join_specs::CountSpec;
use cqels_core::operator::swag_join_state::{IntervalBounds, WindowJoinState};
use cqels_core::operator::swag_multiway::{MultiWayJoinState, RelationExtractors};
use cqels_core::operator::swag_parallel::ParallelJoinAggregator;
use cqels_core::operator::time_index::TimeIndex;
use cqels_core::parser::ast::AggregateFunction;
use cqels_core::parser::cqelsql::{cut_aggregate, try_parse_aggregate};
use cqels_core::parser::cypherql::{aggregate_by_capitals, detect_aggregate};
use cqels_core::stream::StreamEvent;

type Row = (i64, i64);
type Extract = fn(&Row) -> i64;

fn key_of(e: &Row) -> i64 {
    e.0
}

fn one(_: &Row) -> i64 {
    1
}

fn multiway() -> MultiWayJoinState<Row, i64, MultiWayCount, Extract, Extract> {
    let mut graph = JoinGraph::new();
    graph.add_relation("a", &["k"]);
    graph.add_relation("b", &["k"]);
    graph.add_relation("c", &["k"]);
    graph.add_edge("a", "b", -10, 10);
    graph.add_edge("b", "c", -10, 10);
    let mut extractors: NameMap<RelationExtractors<Extract, Extract>> = NameMap::new();
    for name in ["a", "b", "c"] {
        extractors.insert(name, RelationExtractors::new(key_of as Extract, one as Extract));
    }
    MultiWayJoinState::with_extractors(graph, MultiWayCount, extractors)
}

#[test]
fn keys_of_both_sides_count_together() {
    let spec = CountSpec::<Row, Row>::new();
    let mut state = WindowJoinState::with_keys(spec, IntervalBounds::new(0, 10), |l: &Row| l.0, |r: &Row| r.0);
    state.insert_left(0, (1, 0));
    assert_eq!(state.key_count(), 1);
    state.insert_right(0, (2, 0));
    assert_eq!(state.key_count(), 2);
    state.insert_right(0, (1, 0));
    assert_eq!(state.key_count(), 2);
}

#[test]
fn buckets_are_distinct_times_whatever_the_keys() {
    let spec = CountSpec::<Row, Row>::new();
    let mut state = WindowJoinState::with_keys(spec, IntervalBounds::new(0, 10), |l: &Row| l.0, |r: &Row| r.0);
    state.insert_left(0, (1, 0));
    state.insert_left(0, (2, 0));
    assert_eq!(state.left_bucket_count(), 1);
    state.insert_right(3, (1, 0));
    state.insert_right(3, (2, 0));
    state.insert_right(4, (2, 0));
    assert_eq!(state.right_bucket_count(), 2);
}

#[test]
fn evicting_undoes_inserting_on_either_side() {
    let spec = CountSpec::<Row, Row>::new();
    let mut state = WindowJoinState::with_keys(spec, IntervalBounds::new(-5, 5), |l: &Row| l.0, |r: &Row| r.0);
    state.insert_right(1, (7, 0));
    state.insert_right(2, (7, 0));
    state.insert_left(2, (7, 0));
    let value = state.aggregate();
    let given = state.insert_left(3, (7, 9));
    assert_eq!(given, 2);
    assert_eq!(state.evict_left(3, (7, 9)), -given);
    assert_eq!(state.aggregate(), value);
    assert_eq!((state.left_count(), state.right_count()), (1, 2));
    assert_eq!((state.left_bucket_count(), state.right_bucket_count(), state.key_count()), (1, 2, 1));
    let given = state.insert_right(4, (8, 9));
    assert_eq!(given, 0);
    assert_eq!(state.key_count(), 2);
    assert_eq!(state.evict_right(4, (8, 9)), 0);
    let given = state.insert_right(4, (7, 9));
    assert_eq!(given, 1);
    assert_eq!(state.evict_right(4, (7, 9)), -1);
    assert_eq!(state.aggregate(), value);
    assert_eq!((state.right_count(), state.right_bucket_count(), state.key_count()), (2, 2, 1));
}

#[test]
fn the_count_is_the_number_of_pairs_in_any_order() {
    let bounds = IntervalBounds::new(-1, 2);
    let lefts: [i64; 4] = [0, 3, 3, 9];
    let rights: [i64; 5] = [-1, 2, 5, 5, 6];
    let mut pairs: i64 = 0;
    for l in lefts {
        for r in rights {
            if -1 <= r - l && r - l <= 2 {
                pairs += 1;
            }
        }
    }
    let mut first = WindowJoinState::new(CountSpec::<i64, i64>::new(), bounds);
    let mut returned: i64 = 0;
    for l in lefts {
        returned += first.insert_left(l, l);
    }
    for r in rights {
        returned += first.insert_right(r, r);
    }
    let mut second = WindowJoinState::new(CountSpec::<i64, i64>::new(), bounds);
    for r in rights.iter().rev() {
        second.insert_right(*r, *r);
    }
    for l in lefts {
        second.insert_left(l, l);
    }
    assert_eq!(pairs, 8);
    assert_eq!(first.aggregate(), pairs);
    assert_eq!(second.aggregate(), pairs);
    assert_eq!(returned, pairs);
}

#[test]
fn batch_over_indexes_filled_in_another_order() {
    let bounds = IntervalBounds::new(0, 4);
    let mut state = WindowJoinState::new(CountSpec::<i64, i64>::new(), bounds);
    let mut left: TimeIndex<i64> = TimeIndex::new();
    let mut right: TimeIndex<i64> = TimeIndex::new();
    for t in [5i64, 1, 3, 3] {
        state.insert_left(t, t);
    }
    for t in [3i64, 5, 1, 3] {
        left.insert(t, 1);
    }
    for t in [4i64, 6, 2] {
        state.insert_right(t, t);
    }
    for t in [2i64, 6, 4] {
        right.insert(t, 1);
    }
    let batch = ParallelJoinAggregator::new(CountSpec::<i64, i64>::new());
    assert_eq!(batch.aggregate(&left, &right, bounds), state.aggregate());
    assert_eq!(state.aggregate(), 7);
}

#[test]
fn each_interval_pair_is_answered_once() {
    let join = |l: &&str, r: &&str| Some(format!("{l}{r}"));
    let mut state: IntervalJoinState<&str, &str> = IntervalJoinState::new(-2, 2);
    let mut out: Vec<String> = Vec::new();
    for (side, e, t) in [('l', "a", 0i64), ('r', "x", 1), ('l', "b", 3), ('r', "y", 2), ('w', "", 2), ('r', "z", 5), ('l', "c", 4)] {
        let more = match side {
            'l' => state.add_left(e, t, &join),
            'r' => state.add_right(e, t, &join),
            _ => {
                state.advance_watermark(t);
                vec![]
            }
        };
        for m in more {
            out.push(m.value);
        }
    }
    out.sort();
    assert_eq!(out, vec!["ax", "ay", "bx", "by", "bz", "cy", "cz"]);
}

#[test]
fn six_inserts_into_three_relations() {
    let mut state = multiway();
    assert_eq!(state.insert("a", 0, (1, 1)), 0);
    assert_eq!(state.insert("b", 1, (1, 2)), 0);
    assert_eq!(state.insert("b", 2, (2, 3)), 0);
    assert_eq!(state.insert("c", 3, (1, 4)), 1);
    assert_eq!(state.insert("a", 4, (1, 5)), 1);
    assert_eq!(state.insert("c", 5, (1, 6)), 2);
    assert_eq!(state.aggregate(), 4);
}

#[test]
fn multiway_delete_undoes_insert_and_clear_starts_anew() {
    let mut state = multiway();
    state.insert("a", 0, (1, 1));
    state.insert("b", 1, (1, 2));
    state.insert("c", 2, (1, 3));
    let value = state.aggregate();
    let given = state.insert("b", 3, (1, 4));
    assert_eq!(given, 1);
    assert_eq!(state.delete("b", 3, (1, 4)), -given);
    assert_eq!(state.aggregate(), value);
    assert_eq!(state.insert("c", 4, (1, 5)), 1);
    state.clear();
    assert_eq!(state.aggregate(), 0);
    let mut fresh = multiway();
    for (name, t, e) in [("a", 0, (2, 1)), ("c", 1, (2, 2)), ("b", 2, (2, 3)), ("a", 3, (2, 4))] {
        assert_eq!(state.insert(name, t, e), fresh.insert(name, t, e));
    }
    assert_eq!(state.aggregate(), fresh.aggregate());
    assert_eq!(state.aggregate(), 2);
}

#[test]
fn named_trie_entries_are_one_per_time_and_payload() {
    let mut trie: CTrieIndex<i64, &str> = CTrieIndex::new(2);
    for (t, p) in [(9, "b"), (4, "a"), (9, "b"), (4, "b"), (4, "a"), (20, "a")] {
        trie.insert(&[1, 2], t, p);
    }
    trie.insert(&[1, 3], 4, "a");
    let entries = trie.query_range_entries(&[Some(1), Some(2)], 4, 9);
    let times: Vec<i64> = entries.iter().map(|e| e.timestamp).collect();
    assert_eq!(times, vec![4, 4, 9]);
    let mut found: Vec<(i64, &str, u64)> = entries.iter().map(|e| (e.timestamp, e.payload, e.count)).collect();
    found.sort();
    assert_eq!(found, vec![(4, "a", 2), (4, "b", 1), (9, "b", 2)]);
    let q = trie.query_range(&[Some(1), Some(2)], 4, 9);
    assert_eq!(q.total_count, entries.iter().map(|e| e.count).sum::<u64>());
    assert!(trie.query_range_entries(&[Some(7), Some(2)], 0, 100).is_empty());
}

#[test]
fn neighbours_degrees_and_edges_go_together() {
    let mut graph = JoinGraph::new();
    for name in ["d", "a", "c", "b"] {
        graph.add_relation(name, &["k"]);
    }
    graph.add_edge("a", "c", 0, 1);
    graph.add_edge("b", "a", 2, 3);
    assert_eq!(graph.neighbors("a"), vec!["b", "c"]);
    assert_eq!(graph.neighbors("c"), vec!["a"]);
    assert!(graph.neighbors("d").is_empty());
    assert!(graph.neighbors("unknown").is_empty());
    for name in ["a", "b", "c", "d", "unknown"] {
        assert_eq!(graph.degree(name), graph.neighbors(name).len());
        assert_eq!(graph.degree(name), graph.incident_edges(name).len());
        assert!(graph.degree(name) <= graph.max_degree());
    }
    assert_eq!(graph.max_degree(), 2);
    assert_eq!(graph.edge("a", "b"), graph.edge("b", "a"));
    assert!(graph.edge("a", "b").is_some());
    assert!(graph.edge("b", "c").is_none());
}

#[test]
fn a_query_over_all_keys_is_the_sum_over_the_keys() {
    let mut index: KeyIndexedTimeIndex<i64, &str> = KeyIndexedTimeIndex::new();
    for (k, t, p) in [(1, 5, "a"), (2, 5, "a"), (1, 6, "b"), (3, 9, "a"), (2, 1, "b")] {
        index.insert(k, t, p);
    }
    for (start, end) in [(0, 10), (5, 6), (7, 8), (i64::MIN, i64::MAX)] {
        let mut sum: u64 = 0;
        for k in [1, 2, 3] {
            sum += index.query_range_by_key(&k, start, end).total_count;
        }
        assert_eq!(index.query_range(start, end).total_count, sum);
    }
    assert_eq!(index.query_range(i64::MIN, i64::MAX).total_count, index.size());
    assert_eq!(index.query_range(6, 5).total_count, 0);
}

#[test]
fn no_path_twice_and_the_shortest_have_the_least_hops() {
    let mut graph = GraphPatternJoinState::new();
    for (s, p, o) in [("a", "p", "b"), ("b", "p", "c"), ("a", "p", "c"), ("c", "p", "d"), ("a", "p", "b")] {
        graph.add_statement(&Statement::new(Term::iri(s), IriTerm::new(p), Term::iri(o)), 0);
    }
    let mut paths = VariableLengthPathOperator::new(1, 3).find_paths("<a>", &graph);
    let n = paths.len();
    paths.sort();
    paths.dedup();
    assert_eq!(paths.len(), n);
    assert!(n > 0);
    let short = VariableLengthPathOperator::new(2, 3).with_shortest_path_only(true).find_paths("<a>", &graph);
    assert!(!short.is_empty());
    for p in &short {
        assert_eq!(p.len(), 3);
    }
}

#[test]
fn white_space_around_an_aggregate_does_not_count() {
    assert_eq!(detect_aggregate("  \u{3000}count(x)"), Some(AggregateFunction::Count));
    assert_eq!(detect_aggregate("\tm\u{131}n(x) "), Some(AggregateFunction::Min));
    assert_eq!(detect_aggregate("counter"), None);
    let spec = try_parse_aggregate("Sum( ?v )  ", "s").unwrap();
    assert_eq!(spec.function, AggregateFunction::Sum);
    assert_eq!(spec.argument, "?v");
    assert_eq!(try_parse_aggregate(" COUNT(?x)", "n").unwrap().argument, "(?");
    assert!(try_parse_aggregate("x COUNT(?x)", "n").is_none());
}

#[test]
fn the_join_tree_keeps_shared_variables_together() {
    let relations: [(&str, &[&str]); 5] = [
        ("r", &["x", "y"]),
        ("s", &["y", "z"]),
        ("t", &["z", "w"]),
        ("u", &["y", "v"]),
        ("q", &["y"]),
    ];
    let mut graph = JoinGraph::new();
    for (name, variables) in relations {
        graph.add_relation(name, variables);
    }
    let order = graph.build_variable_order();
    assert!(order.is_acyclic());
    let tree = order.join_tree();
    let linked = |a: &str, b: &str| tree.get(a).unwrap().contains(b);
    let mut ties = 0;
    for (a, _) in relations {
        assert!(!linked(a, a));
        for (b, _) in relations {
            assert_eq!(linked(a, b), linked(b, a));
            if linked(a, b) {
                ties += 1;
            }
        }
    }
    assert_eq!(ties, 2 * (relations.len() - 1));
    for variable in ["y", "z"] {
        let with: Vec<&str> = relations.iter().filter(|r| r.1.contains(&variable)).map(|r| r.0).collect();
        let mut reached = vec![with[0]];
        let mut at = 0;
        while at < reached.len() {
            for n in &with {
                if linked(reached[at], n) && !reached.contains(n) {
                    reached.push(n);
                }
            }
            at += 1;
        }
        assert_eq!(reached.len(), with.len());
    }
}

#[test]
fn an_argument_is_cut_at_the_bytes_of_the_capitals() {
    assert_eq!(try_parse_aggregate("count(?id)", "n").unwrap().argument, "?id");
    assert_eq!(try_parse_aggregate("count(?\u{131}d)", "n").unwrap().argument, "?\u{131}");
    assert_eq!(try_parse_aggregate("max(?stra\u{df}e)", "n").unwrap().argument, "?stra\u{df}e");
    assert_eq!(cut_aggregate("sum(?v)", "SUM(?V)", "s").unwrap().argument, "?v");
    assert!(cut_aggregate("sum(\u{e9})", "SUM(1)", "s").is_none());
    assert!(cut_aggregate("sum(?v)", "sum(?v)", "s").is_none());
    assert!(cut_aggregate("SUM)(", "SUM)(", "s").is_none());
    assert_eq!(aggregate_by_capitals("AVG(X)"), Some(AggregateFunction::Avg));
    assert_eq!(aggregate_by_capitals("avg(x)"), None);
}

#[test]
fn the_range_cache_is_empty_between_operations() {
    let mut graph = JoinGraph::new();
    for name in ["hub", "x", "y", "z"] {
        graph.add_relation(name, &["k"]);
    }
    for name in ["x", "y", "z"] {
        graph.add_edge("hub", name, 0, 1000);
    }
    let mut extractors: NameMap<RelationExtractors<Extract, Extract>> = NameMap::new();
    for name in ["hub", "x", "y", "z"] {
        extractors.insert(name, RelationExtractors::new(key_of as Extract, one as Extract));
    }
    let mut state = MultiWayJoinState::with_extractors(graph, MultiWayCount, extractors);
    for (name, t) in [("hub", 0), ("x", 1), ("y", 2), ("z", 3), ("x", 4), ("hub", 1)] {
        state.insert(name, t, (1, t));
        assert_eq!(state.range_cache_len(), 0);
    }
    assert_eq!(state.aggregate(), 4);
    assert_eq!(state.delete("y", 2, (1, 2)), -4);
    assert_eq!(state.range_cache_len(), 0);
    assert_eq!(state.delete("y", 2, (1, 2)), 0);
    assert_eq!(state.range_cache_len(), 0);
}

#[test]
fn only_the_windows_of_an_element_need_to_fit() {
    let mut graph = JoinGraph::new();
    graph.add_relation("a", &["k"]);
    graph.add_relation("b", &["k"]);
    graph.add_edge("a", "b", 0, 10);
    let mut extractors: NameMap<RelationExtractors<Extract, Extract>> = NameMap::new();
    for name in ["a", "b"] {
        extractors.insert(name, RelationExtractors::new(key_of as Extract, one as Extract));
    }
    let mut state = MultiWayJoinState::with_extractors(graph, MultiWayCount, extractors);
    assert_eq!(state.insert("a", i64::MAX - 10, (1, 0)), 0);
    assert_eq!(state.insert("b", i64::MAX, (1, 0)), 1);
    assert_eq!(state.insert("a", i64::MIN, (1, 0)), 0);
    assert_eq!(state.delete("b", i64::MIN, (1, 0)), 0);
    assert_eq!(state.delete("b", i64::MAX, (1, 0)), -1);
}

#[test]
fn a_batch_with_an_empty_side_is_zero_at_any_time() {
    let mut left: TimeIndex<i64> = TimeIndex::new();
    left.insert(i64::MAX, 1);
    let right: TimeIndex<i64> = TimeIndex::new();
    let batch = ParallelJoinAggregator::new(CountSpec::<i64, i64>::new());
    assert_eq!(batch.aggregate(&left, &right, IntervalBounds::new(0, 10)), 0);
    assert_eq!(batch.aggregate(&right, &left, IntervalBounds::new(0, 10)), 0);
}

#[test]
fn events_have_texts() {
    assert_eq!(StreamEvent::record(7i64, -3).to_text("7"), "Record[ts=-3, value=7]");
    assert_eq!(StreamEvent::<i64>::watermark(12).to_text(""), "Watermark[ts=12]");
}

#[test]
fn an_evicted_element_leaves_no_trace_whatever_came_between() {
    let state = || {
        WindowJoinState::with_keys(
            CountSpec::<Row, Row>::new(),
            IntervalBounds::new(-5, 5),
            |l: &Row| l.0,
            |r: &Row| r.0,
        )
    };
    let mut with = state();
    let mut without = state();
    for s in [&mut with, &mut without] {
        s.insert_left(1, (7, 0));
        s.insert_right(2, (7, 0));
    }
    assert_eq!(with.insert_right(3, (7, 9)), 1);
    for s in [&mut with, &mut without] {
        s.insert_left(4, (7, 1));
        s.insert_left(9, (7, 1));
        s.insert_left(3, (8, 1));
        s.insert_right(3, (7, 9));
        s.evict_left(1, (7, 0));
        s.evict_right(2, (7, 0));
        s.insert_left(0, (7, 2));
    }
    assert_eq!(with.evict_right(3, (7, 9)), -2);
    assert_eq!(with.aggregate(), without.aggregate());
    assert_eq!(with.aggregate(), 2);
    assert_eq!((with.left_count(), with.right_count()), (without.left_count(), without.right_count()));
    assert_eq!(with.key_count(), without.key_count());
    assert_eq!(with.right_bucket_count(), without.right_bucket_count());
}
