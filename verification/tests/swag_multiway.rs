use cqels_core::names::NameMap;
use cqels_core::operator::multiway_spec::MultiWayCount;
use cqels_core::operator::swag_join_graph::JoinGraph;
use cqels_core::operator::swag_multiway::{MultiWayJoinState, RelationExtractors};

type Pair = (i32, i32);
type Labeled = (i32, &'static str);

fn pair_count_extractors(names: &[&str]) -> NameMap<RelationExtractors<fn(&Pair) -> i32, fn(&Pair) -> i64>> {
    let mut out: NameMap<RelationExtractors<fn(&Pair) -> i32, fn(&Pair) -> i64>> = NameMap::new();
    for name in names {
        out.insert(name, RelationExtractors::new(|e: &Pair| e.0, |_: &Pair| 1i64));
    }
    out
}

fn labeled_count_extractors(
    names: &[&str],
) -> NameMap<RelationExtractors<fn(&Labeled) -> i32, fn(&Labeled) -> i64>> {
    let mut out: NameMap<RelationExtractors<fn(&Labeled) -> i32, fn(&Labeled) -> i64>> = NameMap::new();
    for name in names {
        out.insert(name, RelationExtractors::new(|e: &Labeled| e.0, |_: &Labeled| 1i64));
    }
    out
}

#[test]
fn binary_multiway_count_equals_pairwise() {
    let mut g = JoinGraph::new();
    g.add_relation("A", &["x"]);
    g.add_relation("B", &["x"]);
    g.add_edge("A", "B", 0, 100);

    let extractors = pair_count_extractors(&["A", "B"]);
    let mut state = MultiWayJoinState::with_extractors(g, MultiWayCount, extractors);

    state.insert("A", 0, (1, 100));
    state.insert("A", 1, (1, 101));
    state.insert("B", 10, (1, 200));
    assert_eq!(state.aggregate(), 2);
    assert_eq!(state.total_matches(), 2);
}

#[test]
fn binary_multiway_evict_undoes_inserts() {
    let mut g = JoinGraph::new();
    g.add_relation("A", &["x"]);
    g.add_relation("B", &["x"]);
    g.add_edge("A", "B", 0, 100);
    let extractors = pair_count_extractors(&["A", "B"]);
    let mut state = MultiWayJoinState::with_extractors(g, MultiWayCount, extractors);

    state.insert("A", 0, (1, 100));
    state.insert("B", 10, (1, 200));
    assert_eq!(state.aggregate(), 1);

    let delta = state.delete("A", 0, (1, 100));
    assert_eq!(delta, -1);
    assert_eq!(state.aggregate(), 0);
}

#[test]
fn binary_multiway_key_filters_matches() {
    let mut g = JoinGraph::new();
    g.add_relation("A", &["x"]);
    g.add_relation("B", &["x"]);
    g.add_edge("A", "B", 0, 100);
    let extractors = pair_count_extractors(&["A", "B"]);
    let mut state = MultiWayJoinState::with_extractors(g, MultiWayCount, extractors);
    state.insert("A", 0, (1, 100));
    state.insert("A", 1, (2, 101));
    state.insert("B", 10, (1, 200));
    state.insert("B", 11, (2, 201));
    state.insert("B", 12, (3, 202)); // no match
    assert_eq!(state.aggregate(), 2);
}

#[test]
fn triangle_multiway_count_matches_three_way_join() {
    let mut g = JoinGraph::new();
    g.add_relation("R1", &["x", "y"]);
    g.add_relation("R2", &["y", "z"]);
    g.add_relation("R3", &["x", "z"]);
    g.add_edge("R1", "R2", 0, 1000);
    g.add_edge("R2", "R3", 0, 1000);
    g.add_edge("R1", "R3", 0, 1000);

    let extractors = labeled_count_extractors(&["R1", "R2", "R3"]);
    let mut state = MultiWayJoinState::with_extractors(g, MultiWayCount, extractors);
    state.insert("R1", 0, (42, "a"));
    state.insert("R2", 10, (42, "b"));
    state.insert("R3", 20, (42, "c"));
    assert_eq!(state.aggregate(), 1, "single triangle match expected");

    state.insert("R3", 30, (42, "d"));
    assert_eq!(state.aggregate(), 2);
}

#[test]
fn triangle_no_match_when_one_relation_empty() {
    let mut g = JoinGraph::new();
    g.add_relation("R1", &["x"]);
    g.add_relation("R2", &["x"]);
    g.add_relation("R3", &["x"]);
    g.add_edge("R1", "R2", 0, 1000);
    g.add_edge("R2", "R3", 0, 1000);
    g.add_edge("R1", "R3", 0, 1000);
    let extractors = labeled_count_extractors(&["R1", "R2", "R3"]);
    let mut state = MultiWayJoinState::with_extractors(g, MultiWayCount, extractors);
    state.insert("R1", 0, (1, "a"));
    state.insert("R2", 10, (1, "b"));
    assert_eq!(state.aggregate(), 0);
}

#[test]
fn star_multiway_count_over_three_satellites() {
    let mut g = JoinGraph::new();
    g.add_relation("R0", &["x"]);
    g.add_relation("R1", &["x"]);
    g.add_relation("R2", &["x"]);
    g.add_relation("R3", &["x"]);
    g.add_edge("R0", "R1", 0, 1000);
    g.add_edge("R0", "R2", 0, 1000);
    g.add_edge("R0", "R3", 0, 1000);
    let extractors = labeled_count_extractors(&["R0", "R1", "R2", "R3"]);
    let mut state = MultiWayJoinState::with_extractors(g, MultiWayCount, extractors);
    state.insert("R0", 0, (1, "r0"));
    state.insert("R1", 10, (1, "r1"));
    state.insert("R2", 20, (1, "r2"));
    state.insert("R3", 30, (1, "r3"));
    assert_eq!(state.aggregate(), 1, "single star tuple expected");
}

#[test]
fn clear_resets_state() {
    let mut g = JoinGraph::new();
    g.add_relation("A", &["x"]);
    g.add_relation("B", &["x"]);
    g.add_edge("A", "B", 0, 100);
    let extractors = pair_count_extractors(&["A", "B"]);
    let mut state = MultiWayJoinState::with_extractors(g, MultiWayCount, extractors);
    state.insert("A", 0, (1, 100));
    state.insert("B", 10, (1, 200));
    assert_eq!(state.aggregate(), 1);
    state.clear();
    assert_eq!(state.aggregate(), 0);
    assert_eq!(state.total_inserts(), 0);
    assert_eq!(state.total_matches(), 0);
    assert_eq!(state.range_cache_len(), 0, "clear empties the range cache");
    state.insert("A", 0, (1, 100));
    state.insert("B", 10, (1, 200));
    assert_eq!(state.aggregate(), 1);
}

#[test]
fn range_cache_does_not_corrupt_recursive_join_aggregate() {
    let mut g = JoinGraph::new();
    g.add_relation("R1", &["x"]);
    g.add_relation("R2", &["x"]);
    g.add_relation("R3", &["x"]);
    g.add_edge("R1", "R2", 0, 1000);
    g.add_edge("R2", "R3", 0, 1000);
    g.add_edge("R1", "R3", 0, 1000);
    let extractors = labeled_count_extractors(&["R1", "R2", "R3"]);
    let mut state = MultiWayJoinState::with_extractors(g, MultiWayCount, extractors);
    state.insert("R1", 0, (1, "a"));
    state.insert("R2", 10, (1, "b"));
    state.insert("R3", 20, (1, "c"));
    assert_eq!(state.aggregate(), 1);
    assert_eq!(state.range_cache_len(), 0);
}

#[test]
fn range_cache_invalidated_between_inserts() {
    let mut g = JoinGraph::new();
    g.add_relation("R1", &["x"]);
    g.add_relation("R2", &["x"]);
    g.add_relation("R3", &["x"]);
    g.add_edge("R1", "R2", 0, 1000);
    g.add_edge("R2", "R3", 0, 1000);
    g.add_edge("R1", "R3", 0, 1000);
    let extractors = labeled_count_extractors(&["R1", "R2", "R3"]);
    let mut state = MultiWayJoinState::with_extractors(g, MultiWayCount, extractors);
    state.insert("R1", 0, (1, "a"));
    state.insert("R2", 10, (1, "b"));
    state.insert("R3", 20, (1, "c"));
    assert_eq!(state.range_cache_len(), 0);

    state.insert("R3", 30, (1, "d"));
    assert_eq!(state.aggregate(), 2);
    assert_eq!(state.range_cache_len(), 0);
}

#[test]
fn range_cache_correctness_under_eviction() {
    let mut g = JoinGraph::new();
    g.add_relation("R0", &["x"]);
    g.add_relation("R1", &["x"]);
    g.add_relation("R2", &["x"]);
    g.add_relation("R3", &["x"]);
    g.add_edge("R0", "R1", 0, 1000);
    g.add_edge("R0", "R2", 0, 1000);
    g.add_edge("R0", "R3", 0, 1000);
    let extractors = labeled_count_extractors(&["R0", "R1", "R2", "R3"]);
    let mut state = MultiWayJoinState::with_extractors(g, MultiWayCount, extractors);
    state.insert("R0", 0, (1, "r0"));
    state.insert("R1", 10, (1, "r1"));
    state.insert("R2", 20, (1, "r2"));
    assert_eq!(state.aggregate(), 0);
    state.insert("R3", 30, (1, "r3"));
    assert_eq!(state.aggregate(), 1);
    state.insert("R1", 40, (1, "r1b"));
    assert_eq!(state.aggregate(), 2);
    state.insert("R2", 50, (1, "r2b"));
    assert_eq!(state.aggregate(), 4);
}
