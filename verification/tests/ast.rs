use cqels_core::names::NameMap;
use cqels_core::parser::ast::{
    AggregateFunction, AggregateSpec, CqelsQueryDefinition, CqelsQueryType, CqelsStreamDefinition, Duration,
    SelectElement, TriplePattern, WindowSpec, WindowType,
};
use cqels_core::parser::ast_cypher::{
    CypherQueryDefinition, CypherQueryType, CypherStreamDefinition, FilterOperator, NodePattern, PathLength,
    ReturnExpression,
};

#[test]
fn test_window_spec_now() {
    let w = WindowSpec::now();
    assert_eq!(w.window_type, WindowType::Now);
    assert_eq!(w.to_text(), "NOW");
}

#[test]
fn test_window_spec_range() {
    let w = WindowSpec::range(Duration::from_secs(10));
    assert_eq!(w.window_type, WindowType::Range);
    assert_eq!(w.to_text(), "RANGE 10s");
}

#[test]
fn test_window_spec_slide() {
    let w = WindowSpec::slide(Duration::from_secs(60), Duration::from_secs(30));
    assert_eq!(w.window_type, WindowType::Slide);
    assert_eq!(w.to_text(), "SLIDE 1m STEP 30s");
}

#[test]
fn test_window_spec_triples() {
    let w = WindowSpec::triples(100);
    assert_eq!(w.window_type, WindowType::Triples);
    assert_eq!(w.to_text(), "TRIPLES 100");
}

#[test]
fn test_triple_pattern_variables() {
    let tp = TriplePattern {
        subject: "?s".to_string(),
        predicate: "<http://example.org/p>".to_string(),
        object: "?o".to_string(),
    };
    assert!(tp.has_variable_subject());
    assert!(!tp.has_variable_predicate());
    assert!(tp.has_variable_object());
}

#[test]
fn test_aggregate_spec() {
    let agg = AggregateSpec {
        function: AggregateFunction::Count,
        argument: "*".to_string(),
        alias: "?cnt".to_string(),
    };
    assert!(agg.is_count_star());
    assert_eq!(agg.to_text(), "COUNT(*) AS ?cnt");
}

#[test]
fn test_cqels_query_builder() {
    let query = CqelsQueryDefinition::builder()
        .name("test-query")
        .query_type(CqelsQueryType::Select)
        .add_stream(CqelsStreamDefinition {
            name: "sensor".to_string(),
            window: WindowSpec::now(),
        })
        .add_select_element(SelectElement::Variable("?x".to_string()))
        .distinct(true)
        .limit(10)
        .build();

    assert_eq!(query.name, Some("test-query".to_string()));
    assert_eq!(query.query_type, CqelsQueryType::Select);
    assert!(query.distinct);
    assert_eq!(query.limit, Some(10));
    assert_eq!(query.streams.len(), 1);
    assert_eq!(query.streams[0].name, "sensor");
}

#[test]
fn test_cypher_query_builder() {
    let query = CypherQueryDefinition::builder()
        .name("cypher-test")
        .query_type(CypherQueryType::Select)
        .add_stream(CypherStreamDefinition {
            name: "events".to_string(),
            window: WindowSpec::range(Duration::from_secs(30)),
        })
        .add_return_expression(ReturnExpression {
            expression: "n.name".to_string(),
            alias: Some("name".to_string()),
            aggregate_function: None,
            distinct: false,
        })
        .limit(5)
        .build();

    assert_eq!(query.name, Some("cypher-test".to_string()));
    assert_eq!(query.streams.len(), 1);
    assert_eq!(query.return_expressions.len(), 1);
    assert_eq!(query.limit, Some(5));
}

#[test]
fn test_node_pattern_display() {
    let np = NodePattern {
        variable: Some("n".to_string()),
        labels: vec!["Person".to_string(), "Employee".to_string()],
        properties: NameMap::new(),
    };
    assert_eq!(np.to_text(), "(n:Person:Employee)");
}

#[test]
fn test_path_length_display() {
    assert_eq!(
        PathLength {
            min_length: Some(1),
            max_length: Some(3)
        }
        .to_text(),
        "*1..3"
    );
    assert_eq!(
        PathLength {
            min_length: None,
            max_length: None
        }
        .to_text(),
        "*"
    );
    assert_eq!(
        PathLength {
            min_length: Some(2),
            max_length: Some(2)
        }
        .to_text(),
        "*2"
    );
}

#[test]
fn test_return_expression_display() {
    let expr = ReturnExpression {
        expression: "n.age".to_string(),
        alias: Some("avg_age".to_string()),
        aggregate_function: Some(AggregateFunction::Avg),
        distinct: false,
    };
    assert_eq!(expr.to_text(), "AVG(n.age) AS avg_age");

    let expr_distinct = ReturnExpression {
        expression: "n.name".to_string(),
        alias: Some("cnt".to_string()),
        aggregate_function: Some(AggregateFunction::Count),
        distinct: true,
    };
    assert_eq!(expr_distinct.to_text(), "COUNT(DISTINCT n.name) AS cnt");
}

#[test]
fn test_filter_operator_display() {
    assert_eq!(FilterOperator::Eq.to_text(), "=");
    assert_eq!(FilterOperator::Neq.to_text(), "<>");
    assert_eq!(FilterOperator::Contains.to_text(), "CONTAINS");
    assert_eq!(FilterOperator::StartsWith.to_text(), "STARTS WITH");
}
