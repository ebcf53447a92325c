use cqels_core::matching::match_triple_pattern;
use cqels_core::model::{IriTerm, Statement, Term, Value};
use cqels_core::names::NameMap;
use cqels_core::operator::aggregate::{start_of_window, AggregateResult, GroupKey, WindowedAggregateOperator};
use cqels_core::operator::aggregate::CountAggregate;
use cqels_core::operator::parallel::{ParallelExecutionConfig, SwagConfig};
use cqels_core::operator::parallel_aggregate::ParallelWindowedAggregateOperator;
use cqels_core::operator::swag_windowed_join::floor_div;
use cqels_core::parser::ast::{Duration, TriplePattern};
use cqels_core::parser::{CqelsError, CqelsQlParser, CypherQlParser, ParseError, ParseErrorDetail, ParseErrorKind};
use cqels_core::store::{create_rdf_store, resolve_pattern_term, OxigraphRdfStore, RdfStore};
use cqels_core::stream::{RdfStreamElement, StreamElement, StreamRecord, Timestamped, TimestampedValue};
use cqels_core::text::decimal;

fn pattern(s: &str, p: &str, o: &str) -> TriplePattern {
    TriplePattern { subject: s.to_string(), predicate: p.to_string(), object: o.to_string() }
}

fn iri_statement(s: &str, p: &str, o: &str) -> Statement {
    Statement::new(Term::iri(s), IriTerm::new(p), Term::iri(o))
}

fn text_of(v: Option<&Value>) -> &str {
    v.unwrap().as_string().unwrap()
}

#[test]
fn decimal_texts() {
    assert_eq!(decimal(0), "0");
    assert_eq!(decimal(-7), "-7");
    assert_eq!(decimal(1234567890), "1234567890");
    assert_eq!(decimal(i64::MIN), "-9223372036854775808");
    assert_eq!(decimal(i64::MAX), "9223372036854775807");
}

#[test]
fn texts_of_terms_and_elements() {
    let s = iri_statement("http://s", "http://p", "http://o");
    assert_eq!(s.to_text(), "<http://s> <http://p> <http://o>");
    assert_eq!(Term::literal("x").to_text(), "\"x\"");
    let rdf = RdfStreamElement::new(s.clone(), 7);
    assert!(rdf.to_text().contains("<http://s> <http://p> <http://o>"));
    let element: StreamElement = StreamRecord::new("v", 9).into();
    assert_eq!(Timestamped::timestamp(&element), 9);
    assert!(element.as_rdf().is_none());
}

#[test]
fn aggregate_result_text() {
    let r = AggregateResult {
        window_start: -5,
        window_end: 10,
        group_key: Some(GroupKey::single("city")),
        value: 3i64,
        timestamp: 10,
    };
    assert_eq!(r.to_text("3"), "AggregateResult[window=[-5, 10), value=3, group=(city)]");
    let plain = AggregateResult { group_key: None, ..r };
    assert_eq!(plain.to_text("3"), "AggregateResult[window=[-5, 10), value=3]");
}

#[test]
fn window_starts_round_towards_zero() {
    assert_eq!(start_of_window(5999, 5000), 5000);
    assert_eq!(start_of_window(5000, 5000), 5000);
    assert_eq!(start_of_window(-1, 5000), 0);
    assert_eq!(start_of_window(-5001, 5000), -5000);
}

#[test]
fn window_numbers_round_down() {
    assert_eq!(floor_div(7, 5), 1);
    assert_eq!(floor_div(-1, 5), -1);
    assert_eq!(floor_div(-5, 5), -1);
    assert_eq!(floor_div(-6, 5), -2);
}

#[test]
fn parallel_aggregation_agrees_with_sequential_by_group() {
    let events: Vec<TimestampedValue<i64>> = (0..300).map(|i| TimestampedValue::new(i, i * 37 % 1000)).collect();
    let group = |e: &TimestampedValue<i64>| {
        if e.value % 5 == 0 {
            None
        } else {
            Some(GroupKey::single(&decimal(e.value % 5)))
        }
    };
    let key = |r: &AggregateResult<i64>| {
        (r.window_start, r.group_key.as_ref().map(|g| g.to_text()), r.window_end, r.value, r.timestamp)
    };
    let sequential = WindowedAggregateOperator::new(CountAggregate, group, 100);
    let mut expected: Vec<_> = sequential.process_batch(&events).iter().map(key).collect();
    expected.sort();
    for p in [1usize, 3, 16] {
        let config = ParallelExecutionConfig::builder().parallelism(p).build();
        let op = ParallelWindowedAggregateOperator::with_config(CountAggregate, group, 100, &config);
        let mut got: Vec<_> = op.process_batch(&events).iter().map(key).collect();
        got.sort();
        assert_eq!(got, expected);
    }
}

#[test]
fn settings_follow_the_processors() {
    assert_eq!(ParallelExecutionConfig::for_processors(Some(6)).parallelism, 6);
    assert_eq!(ParallelExecutionConfig::for_processors(None).parallelism, ParallelExecutionConfig::default().parallelism);
    assert!(SwagConfig::for_processors(Some(6)).max_tasks > 0);
}

#[test]
fn match_binds_variables_and_checks_constants() {
    let mut prefixes: NameMap<String> = NameMap::new();
    prefixes.insert("ex", "http://ex/".to_string());
    let s = Statement::new(Term::iri("http://ex/a"), IriTerm::new("http://ex/p"), Term::literal("v"));
    let b = match_triple_pattern(&pattern("?x", "ex:p", "$y"), &s, &prefixes, 42).unwrap();
    assert_eq!(b.timestamp(), 42);
    assert_eq!(b.len(), 2);
    assert_eq!(text_of(b.get("x")), "http://ex/a");
    assert_eq!(text_of(b.get("y")), "v");
    assert!(match_triple_pattern(&pattern("<http://ex/a>", "?p", "\"v\""), &s, &prefixes, 0).is_some());
    assert!(match_triple_pattern(&pattern("<http://ex/b>", "?p", "?o"), &s, &prefixes, 0).is_none());
    assert!(match_triple_pattern(&pattern("?s", "ex:q", "?o"), &s, &prefixes, 0).is_none());
    assert!(match_triple_pattern(&pattern("?s", "no:p", "?o"), &s, &prefixes, 0).is_none());
    assert!(match_triple_pattern(&pattern("?s", "?p", "<v>"), &s, &prefixes, 0).is_none());
}

#[test]
fn repeated_variables_must_agree() {
    let none: NameMap<String> = NameMap::new();
    let twice = iri_statement("http://a", "http://p", "http://a");
    let once = iri_statement("http://a", "http://p", "http://b");
    assert_eq!(match_triple_pattern(&pattern("?x", "?p", "?x"), &twice, &none, 0).unwrap().len(), 2);
    assert!(match_triple_pattern(&pattern("?x", "?p", "?x"), &once, &none, 0).is_none());
}

#[test]
fn pattern_terms_resolve_to_iris() {
    let mut prefixes: NameMap<String> = NameMap::new();
    prefixes.insert("ex", "http://ex/".to_string());
    assert_eq!(resolve_pattern_term("?x", &prefixes), None);
    assert_eq!(resolve_pattern_term("$x", &prefixes), None);
    assert_eq!(resolve_pattern_term("<http://a/b>", &prefixes), Some("http://a/b".to_string()));
    assert_eq!(resolve_pattern_term("ex:t", &prefixes), Some("http://ex/t".to_string()));
    assert_eq!(resolve_pattern_term("no:t", &prefixes), None);
    assert_eq!(resolve_pattern_term("plain", &prefixes), None);
    assert_eq!(resolve_pattern_term("<not an iri>", &prefixes), None);
}

#[test]
fn store_refuses_what_is_no_iri() {
    let mut store = create_rdf_store().unwrap();
    let good = iri_statement("http://a", "http://p", "http://b");
    let bad = iri_statement("http://a", "not an iri", "http://b");
    let literal_subject = Statement::new(Term::literal("x"), IriTerm::new("http://p"), Term::iri("http://b"));
    let all = pattern("?s", "?p", "?o");
    match store.load_statements(&[good.clone(), bad, good.clone()]) {
        Err(CqelsError::Evaluation { message }) => assert!(message.starts_with("invalid IRI: ")),
        _ => panic!("a broken IRI was loaded"),
    }
    assert_eq!(store.query_pattern(&all, &NameMap::new()).len(), 1);
    match store.load_statements(&[literal_subject]) {
        Err(CqelsError::Evaluation { message }) => {
            assert_eq!(message, "a literal cannot be the subject of a statement")
        }
        _ => panic!("a literal subject was loaded"),
    }
    match store.load_named_graph("no graph", &[good]) {
        Err(CqelsError::Evaluation { message }) => assert!(message.starts_with("invalid graph URI: ")),
        _ => panic!("a broken graph URI was accepted"),
    }
}

#[test]
fn store_holds_each_statement_once() {
    let mut store = OxigraphRdfStore::default();
    let s = iri_statement("http://a", "http://p", "http://b");
    store.load_statements(&[s.clone(), s.clone()]).unwrap();
    store.load_named_graph("http://g", &[s]).unwrap();
    let all = pattern("?s", "?p", "?o");
    let default = store.query_pattern(&all, &NameMap::new());
    assert_eq!(default.len(), 1);
    assert_eq!(text_of(default[0].get("s")), "http://a");
    assert_eq!(text_of(default[0].get("o")), "http://b");
    assert_eq!(default[0].timestamp(), 0);
    assert_eq!(store.query_named_graph_pattern("http://g", &all, &NameMap::new()).len(), 1);
    assert_eq!(store.query_named_graph_pattern("not an iri", &all, &NameMap::new()).len(), 0);
    assert_eq!(store.query_named_graph_pattern("http://h", &all, &NameMap::new()).len(), 0);
}

#[test]
fn parse_errors_have_kinds_and_texts() {
    let e = CqelsQlParser::parse("SELECT").unwrap_err();
    assert_eq!(e.kind(), ParseErrorKind::Syntax);
    assert_eq!(e.to_text(), format!("syntax error: {}", e.message()));
    assert!(CypherQlParser::parse("MATCH").is_err());
    assert_eq!(ParseError::Semantic("m".to_string()).to_text(), "semantic error: m");
    assert_eq!(ParseError::Unsupported("m".to_string()).to_text(), "unsupported: m");
    let detail = ParseErrorDetail::from(ParseError::Unsupported("m".to_string()));
    assert_eq!(detail.kind, ParseErrorKind::Unsupported);
    match CqelsError::from(ParseError::Semantic("m".to_string())) {
        CqelsError::Parse(d) => assert_eq!(d.message, "m"),
        _ => panic!("a parse error became another one"),
    }
}

#[test]
fn durations_have_units() {
    assert_eq!(Duration::from_millis(2500), Duration::from_millis(2500));
    assert_eq!(Duration::from_secs(3), Duration::from_millis(3000));
}
