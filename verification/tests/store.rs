use cqels_core::model::{IriTerm, LiteralTerm, Statement, Term};
use cqels_core::names::NameMap;
use cqels_core::parser::ast::TriplePattern;
use cqels_core::store::{OxigraphRdfStore, RdfStore};

fn make_stmt(subj: &str, pred: &str, obj_iri: &str) -> Statement {
    Statement::new(
        Term::Iri(IriTerm::new(subj)),
        IriTerm::new(pred),
        Term::Iri(IriTerm::new(obj_iri)),
    )
}

fn make_literal_stmt(subj: &str, pred: &str, obj_val: &str) -> Statement {
    Statement::new(
        Term::Iri(IriTerm::new(subj)),
        IriTerm::new(pred),
        Term::Literal(LiteralTerm::new(obj_val)),
    )
}

#[test]
fn test_load_and_query_roundtrip() {
    let mut store = OxigraphRdfStore::new().unwrap();
    let stmts = vec![
        make_stmt(
            "http://example.org/sensor1",
            "http://example.org/type",
            "http://example.org/TemperatureSensor",
        ),
        make_stmt(
            "http://example.org/sensor2",
            "http://example.org/type",
            "http://example.org/HumiditySensor",
        ),
    ];
    store.load_statements(&stmts).unwrap();

    let pattern = TriplePattern {
        subject: "?s".to_string(),
        predicate: "?p".to_string(),
        object: "?o".to_string(),
    };
    let results = store.query_pattern(&pattern, &NameMap::new());
    assert_eq!(results.len(), 2);

    let pattern2 = TriplePattern {
        subject: "?s".to_string(),
        predicate: "<http://example.org/type>".to_string(),
        object: "?o".to_string(),
    };
    let results2 = store.query_pattern(&pattern2, &NameMap::new());
    assert_eq!(results2.len(), 2);

    let pattern3 = TriplePattern {
        subject: "<http://example.org/sensor1>".to_string(),
        predicate: "<http://example.org/type>".to_string(),
        object: "?type".to_string(),
    };
    let results3 = store.query_pattern(&pattern3, &NameMap::new());
    assert_eq!(results3.len(), 1);
    assert!(results3[0].contains("type"));
}

#[test]
fn test_constant_filtering() {
    let mut store = OxigraphRdfStore::new().unwrap();
    let stmts = vec![
        make_stmt(
            "http://example.org/a",
            "http://example.org/p",
            "http://example.org/x",
        ),
        make_stmt(
            "http://example.org/b",
            "http://example.org/q",
            "http://example.org/y",
        ),
    ];
    store.load_statements(&stmts).unwrap();

    let pattern = TriplePattern {
        subject: "?s".to_string(),
        predicate: "<http://example.org/p>".to_string(),
        object: "?o".to_string(),
    };
    let results = store.query_pattern(&pattern, &NameMap::new());
    assert_eq!(results.len(), 1);
}

#[test]
fn test_named_graph_isolation() {
    let mut store = OxigraphRdfStore::new().unwrap();

    let default_stmts = vec![make_stmt(
        "http://example.org/a",
        "http://example.org/p",
        "http://example.org/default_val",
    )];
    store.load_statements(&default_stmts).unwrap();

    let named_stmts = vec![make_stmt(
        "http://example.org/b",
        "http://example.org/p",
        "http://example.org/named_val",
    )];
    store
        .load_named_graph("http://example.org/graph1", &named_stmts)
        .unwrap();

    let all_pattern = TriplePattern {
        subject: "?s".to_string(),
        predicate: "?p".to_string(),
        object: "?o".to_string(),
    };

    let default_results = store.query_pattern(&all_pattern, &NameMap::new());
    assert_eq!(default_results.len(), 1);

    let named_results = store.query_named_graph_pattern(
        "http://example.org/graph1",
        &all_pattern,
        &NameMap::new(),
    );
    assert_eq!(named_results.len(), 1);

    let other_results = store.query_named_graph_pattern(
        "http://example.org/graph2",
        &all_pattern,
        &NameMap::new(),
    );
    assert_eq!(other_results.len(), 0);
}

#[test]
fn test_empty_store() {
    let store = OxigraphRdfStore::new().unwrap();
    let pattern = TriplePattern {
        subject: "?s".to_string(),
        predicate: "?p".to_string(),
        object: "?o".to_string(),
    };
    let results = store.query_pattern(&pattern, &NameMap::new());
    assert!(results.is_empty());
}

#[test]
fn test_prefix_resolution() {
    let mut store = OxigraphRdfStore::new().unwrap();
    let stmts = vec![make_stmt(
        "http://example.org/sensor1",
        "http://example.org/type",
        "http://example.org/TempSensor",
    )];
    store.load_statements(&stmts).unwrap();

    let mut prefixes = NameMap::new();
    prefixes.insert("ex", "http://example.org/".to_string());

    let pattern = TriplePattern {
        subject: "?s".to_string(),
        predicate: "ex:type".to_string(),
        object: "?type".to_string(),
    };
    let results = store.query_pattern(&pattern, &prefixes);
    assert_eq!(results.len(), 1);
    assert!(results[0].contains("type"));
}

#[test]
fn test_literal_objects() {
    let mut store = OxigraphRdfStore::new().unwrap();
    let stmts = vec![make_literal_stmt(
        "http://example.org/sensor1",
        "http://example.org/label",
        "Temperature Sensor",
    )];
    store.load_statements(&stmts).unwrap();

    let pattern = TriplePattern {
        subject: "?s".to_string(),
        predicate: "<http://example.org/label>".to_string(),
        object: "?label".to_string(),
    };
    let results = store.query_pattern(&pattern, &NameMap::new());
    assert_eq!(results.len(), 1);
    assert!(results[0].contains("label"));
}
