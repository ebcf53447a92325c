use cqels_core::model::{IriTerm, Statement, Term};
use cqels_core::operator::join::{
    GraphPatternJoinState, IntervalJoinState, VariableLengthPathOperator, WindowedJoinState,
};

fn make_stmt(s: &str, p: &str, o: &str) -> Statement {
    Statement::new(
        Term::Iri(IriTerm::new(s)),
        IriTerm::new(p),
        Term::Iri(IriTerm::new(o)),
    )
}

#[test]
fn test_windowed_join() {
    let mut state: WindowedJoinState<i32, i32> =
        WindowedJoinState::new(5000);
    let join_fn = |l: &i32, r: &i32| Some(l + r);

    let results = state.add_left(10, 1000, &join_fn);
    assert!(results.is_empty());

    let results = state.add_right(20, 2000, &join_fn);
    assert_eq!(results.len(), 1);
    assert_eq!(results[0].value, 30);

    state.advance_watermark(6000);
    let results = state.add_right(30, 10000, &join_fn);
    assert!(results.is_empty());
}

#[test]
fn test_interval_join() {
    let mut state: IntervalJoinState<i32, i32> =
        IntervalJoinState::new(0, 3000);
    let join_fn = |l: &i32, r: &i32| Some((*l, *r));

    state.add_left(1, 1000, &join_fn);

    let results = state.add_right(2, 2000, &join_fn);
    assert_eq!(results.len(), 1);
    assert_eq!(results[0].value, (1, 2));

    let results = state.add_right(3, 5000, &join_fn);
    assert!(results.is_empty());
}

#[test]
fn test_graph_pattern_join() {
    let mut state = GraphPatternJoinState::new();

    let stmt1 = make_stmt("http://a", "http://knows", "http://b");
    let stmt2 = make_stmt("http://b", "http://knows", "http://c");

    state.add_statement(&stmt1, 100);
    state.add_statement(&stmt2, 200);

    assert!(state.has_edge("<http://a>", "<http://knows>"));
    let objects = state.get_objects("<http://a>", "<http://knows>");
    assert_eq!(objects.len(), 1);
    assert!(objects[0].contains("http://b"));

    let subjects = state.get_subjects("<http://b>", "<http://knows>");
    assert_eq!(subjects.len(), 1);
}

#[test]
fn test_graph_pattern_eviction() {
    let mut state = GraphPatternJoinState::new();

    let stmt1 = make_stmt("http://a", "http://p", "http://b");
    let stmt2 = make_stmt("http://c", "http://p", "http://d");

    state.add_statement(&stmt1, 100);
    state.add_statement(&stmt2, 200);
    assert_eq!(state.edges().len(), 2);

    state.evict_before(150);
    assert_eq!(state.edges().len(), 1);
}

#[test]
fn test_variable_length_path() {
    let mut state = GraphPatternJoinState::new();

    state.add_statement(&make_stmt("http://a", "http://link", "http://b"), 0);
    state.add_statement(&make_stmt("http://b", "http://link", "http://c"), 0);
    state.add_statement(&make_stmt("http://c", "http://link", "http://d"), 0);

    let op = VariableLengthPathOperator::new(1, 3)
        .with_relationship_type("<http://link>");

    let paths = op.find_paths("<http://a>", &state);
    assert!(!paths.is_empty());
}
