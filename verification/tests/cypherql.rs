use cqels_core::parser::ast::{AggregateFunction, Duration, SortDirection, WindowSpec};
use cqels_core::parser::ast_cypher::{PatternSource, RelDirection};
use cqels_core::parser::CypherQlParser;

#[test]
fn test_parse_simple_cypher_query() {
    let query = r#"
        FROM STREAM events [NOW]
        MATCH (n:Person)
        RETURN n.name
    "#;

    let result = CypherQlParser::parse(query).unwrap();
    assert_eq!(result.streams.len(), 1);
    assert_eq!(result.streams[0].name, "events");
    assert_eq!(result.streams[0].window, WindowSpec::now());
    assert_eq!(result.pattern_groups.len(), 1);
    assert_eq!(result.return_expressions.len(), 1);
}

#[test]
fn test_parse_register_cypher_query() {
    let query = r#"
        REGISTER QUERY myQ AS
        FROM STREAM events [NOW]
        MATCH (n:Person)
        RETURN n.name
    "#;

    let result = CypherQlParser::parse(query).unwrap();
    assert_eq!(result.name, Some("myQ".to_string()));
}

#[test]
fn test_parse_relationship_pattern() {
    let query = r#"
        FROM STREAM social [RANGE 30s]
        MATCH (a:Person)-[:KNOWS]->(b:Person)
        RETURN a.name, b.name
    "#;

    let result = CypherQlParser::parse(query).unwrap();
    assert_eq!(
        result.streams[0].window,
        WindowSpec::range(Duration::from_secs(30))
    );
    assert_eq!(result.pattern_groups.len(), 1);
    let group = &result.pattern_groups[0];
    assert_eq!(group.source, PatternSource::Default);
    assert!(!group.patterns.is_empty());

    let pattern = &group.patterns[0];
    assert_eq!(pattern.nodes.len(), 2);
    assert_eq!(pattern.nodes[0].labels, vec!["Person"]);
    assert_eq!(pattern.nodes[1].labels, vec!["Person"]);
    assert_eq!(pattern.relationships.len(), 1);
    assert_eq!(pattern.relationships[0].direction, RelDirection::Outgoing);
    assert_eq!(pattern.relationships[0].types, vec!["KNOWS"]);
}

#[test]
fn cypherql_test_parse_window_specs() {
    let query = r#"
        FROM STREAM s1 [TRIPLES 50]
        MATCH (n)
        RETURN n
    "#;
    let result = CypherQlParser::parse(query).unwrap();
    assert_eq!(result.streams[0].window, WindowSpec::triples(50));

    let query = r#"
        FROM STREAM s1 [TRIPLES 50 SLIDE 25]
        MATCH (n)
        RETURN n
    "#;
    let result = CypherQlParser::parse(query).unwrap();
    assert_eq!(result.streams[0].window, WindowSpec::triples_slide(50, 25));

    let query = r#"
        FROM STREAM s1 [SLIDE 2m STEP 30s]
        MATCH (n)
        RETURN n
    "#;
    let result = CypherQlParser::parse(query).unwrap();
    assert_eq!(
        result.streams[0].window,
        WindowSpec::slide(Duration::from_secs(120), Duration::from_secs(30))
    );
}

#[test]
fn test_parse_where_clause() {
    let query = r#"
        FROM STREAM events [NOW]
        MATCH (n:Person)
        WHERE n.age > 18
        RETURN n.name
    "#;

    let result = CypherQlParser::parse(query).unwrap();
    assert!(result.where_expression.is_some());
    let expr = result.where_expression.unwrap();
    assert!(expr.contains("n.age"));
}

#[test]
fn cypherql_test_parse_group_by_order_by_limit() {
    let query = r#"
        FROM STREAM events [NOW]
        MATCH (n:Person)
        GROUP BY n.city
        RETURN n.city, count(n) AS cnt
        ORDER BY cnt DESC
        LIMIT 10
    "#;

    let result = CypherQlParser::parse(query).unwrap();
    assert!(!result.group_by_expressions.is_empty());
    assert!(!result.order_by_conditions.is_empty());
    assert_eq!(
        result.order_by_conditions[0].direction,
        SortDirection::Descending
    );
    assert_eq!(result.limit, Some(10));
}

#[test]
fn cypherql_test_parse_distinct() {
    let query = r#"
        FROM STREAM events [NOW]
        MATCH (n:Person)
        RETURN DISTINCT n.name
    "#;

    let result = CypherQlParser::parse(query).unwrap();
    assert!(result.distinct);
}

#[test]
fn cypherql_test_parse_stream_pattern_group() {
    let query = r#"
        FROM STREAM events [NOW]
        MATCH STREAM events { (n:Event) }
        RETURN n.type
    "#;

    let result = CypherQlParser::parse(query).unwrap();
    assert_eq!(result.pattern_groups.len(), 1);
    assert_eq!(result.pattern_groups[0].source, PatternSource::Stream);
    assert_eq!(
        result.pattern_groups[0].source_name,
        Some("events".to_string())
    );
}

#[test]
fn cypherql_test_parse_multiple_sources() {
    let query = r#"
        FROM STREAM events [NOW]
        FROM STATIC 'http://example.org/static'
        FROM GRAPH 'http://example.org/graph'
        MATCH (n:Person)
        RETURN n.name
    "#;

    let result = CypherQlParser::parse(query).unwrap();
    assert_eq!(result.streams.len(), 1);
    assert_eq!(result.static_graphs.len(), 1);
    assert_eq!(result.static_graphs[0].uri, "http://example.org/static");
    assert_eq!(result.named_graphs.len(), 1);
    assert_eq!(result.named_graphs[0].uri, "http://example.org/graph");
}

#[test]
fn cypherql_test_parse_error_invalid_query() {
    let result = CypherQlParser::parse("NOT A VALID QUERY");
    assert!(result.is_err());
}

#[test]
fn test_parse_node_with_properties() {
    let query = r#"
        FROM STREAM events [NOW]
        MATCH (n:Person {name: "Alice"})
        RETURN n
    "#;

    let result = CypherQlParser::parse(query).unwrap();
    let pattern = &result.pattern_groups[0].patterns[0];
    assert_eq!(pattern.nodes[0].labels, vec!["Person"]);
    assert!(pattern.nodes[0].properties.contains_key("name"));
}

#[test]
fn test_order_by_with_property_access() {
    let q1 = r#"
        FROM STREAM events [NOW]
        MATCH (p:Person)
        RETURN p
        ORDER BY p DESC
    "#;
    let r1 = CypherQlParser::parse(q1).unwrap();
    assert_eq!(r1.order_by_conditions.len(), 1);
    assert_eq!(
        r1.order_by_conditions[0].direction,
        SortDirection::Descending
    );

    let q2 = r#"
        FROM STREAM events [NOW]
        MATCH (p:Person)
        RETURN p.name, p.age
        ORDER BY p.age DESC
        LIMIT 10
    "#;
    let r2 = CypherQlParser::parse(q2).unwrap();
    assert_eq!(r2.return_expressions.len(), 2);
    assert_eq!(r2.order_by_conditions.len(), 1);
    assert_eq!(
        r2.order_by_conditions[0].direction,
        SortDirection::Descending
    );
    assert_eq!(r2.limit, Some(10));

    let q3 = r#"
        FROM STREAM events [NOW]
        MATCH (p:Person)
        RETURN p.name, p.age, p.city
        ORDER BY p.city ASC, p.age DESC
    "#;
    let r3 = CypherQlParser::parse(q3).unwrap();
    assert_eq!(r3.order_by_conditions.len(), 2);
    assert_eq!(
        r3.order_by_conditions[0].direction,
        SortDirection::Ascending
    );
    assert_eq!(
        r3.order_by_conditions[1].direction,
        SortDirection::Descending
    );
}

#[test]
fn test_parse_return_with_alias() {
    let query = r#"
        FROM STREAM events [NOW]
        MATCH (n:Person)
        RETURN n.name AS personName
    "#;

    let result = CypherQlParser::parse(query).unwrap();
    assert_eq!(result.return_expressions.len(), 1);
    assert_eq!(
        result.return_expressions[0].alias,
        Some("personName".to_string())
    );
}

#[test]
fn cypherql_test_parse_error_empty_input() {
    assert!(CypherQlParser::parse("").is_err());
}

#[test]
fn test_parse_error_missing_from() {
    let result = CypherQlParser::parse("MATCH (n) RETURN n");
    assert!(result.is_err());
}

#[test]
fn test_parse_error_missing_return() {
    let result = CypherQlParser::parse("FROM STREAM s [NOW] MATCH (n:Person)");
    assert!(result.is_err());
}

#[test]
fn test_parse_error_invalid_window() {
    let result = CypherQlParser::parse("FROM STREAM s [] MATCH (n) RETURN n");
    assert!(result.is_err());
}

#[test]
fn test_parse_incoming_relationship() {
    let query = r#"
        FROM STREAM s [NOW]
        MATCH (a:Person)<-[:FOLLOWS]-(b:Person)
        RETURN a.name, b.name
    "#;
    let result = CypherQlParser::parse(query).unwrap();
    let rel = &result.pattern_groups[0].patterns[0].relationships[0];
    assert_eq!(rel.direction, RelDirection::Incoming);
    assert_eq!(rel.types, vec!["FOLLOWS"]);
}

#[test]
fn test_parse_undirected_relationship() {
    let query = r#"
        FROM STREAM s [NOW]
        MATCH (a:Person)-[:KNOWS]-(b:Person)
        RETURN a.name
    "#;
    let result = CypherQlParser::parse(query).unwrap();
    let rel = &result.pattern_groups[0].patterns[0].relationships[0];
    assert_eq!(rel.direction, RelDirection::Undirected);
}

#[test]
fn test_parse_variable_length_path() {
    let query = r#"
        FROM STREAM s [NOW]
        MATCH (a)-[:FOLLOWS*1..5]->(b)
        RETURN a, b
    "#;
    let result = CypherQlParser::parse(query).unwrap();
    let rel = &result.pattern_groups[0].patterns[0].relationships[0];
    assert!(rel.path_length.is_some());
    let pl = rel.path_length.as_ref().unwrap();
    assert_eq!(pl.min_length, Some(1));
    assert_eq!(pl.max_length, Some(5));
}

#[test]
fn test_parse_multiple_labels() {
    let query = r#"
        FROM STREAM s [NOW]
        MATCH (n:Person:Employee)
        RETURN n.name
    "#;
    let result = CypherQlParser::parse(query).unwrap();
    let node = &result.pattern_groups[0].patterns[0].nodes[0];
    assert_eq!(node.labels, vec!["Person", "Employee"]);
}

#[test]
fn test_parse_having_clause() {
    let query = r#"
        FROM STREAM events [NOW]
        MATCH (n:Person)
        GROUP BY n.city
        HAVING count(n) > 10
        RETURN n.city, count(n) AS cnt
    "#;
    let result = CypherQlParser::parse(query).unwrap();
    assert!(!result.having_filters.is_empty());
}

#[test]
fn test_parse_where_comparison_operators() {
    let query = r#"
        FROM STREAM events [NOW]
        MATCH (p:Person)
        WHERE p.age >= 18
        RETURN p.name
    "#;
    let result = CypherQlParser::parse(query).unwrap();
    assert!(result.where_expression.is_some());
    let expr = result.where_expression.unwrap();
    assert!(expr.contains("p.age") && expr.contains("18"));
}

#[test]
fn test_parse_where_and_expression() {
    let query = r#"
        FROM STREAM events [NOW]
        MATCH (p:Person)
        WHERE p.age > 18 AND p.active = true
        RETURN p.name
    "#;
    let result = CypherQlParser::parse(query).unwrap();
    assert!(result.where_expression.is_some());
}

#[test]
fn test_parse_where_or_expression() {
    let query = r#"
        FROM STREAM events [NOW]
        MATCH (p:Person)
        WHERE p.city = "Berlin" OR p.city = "Munich"
        RETURN p.name
    "#;
    let result = CypherQlParser::parse(query).unwrap();
    assert!(result.where_expression.is_some());
}

#[test]
fn test_parse_aggregate_functions() {
    let query = r#"
        FROM STREAM events [NOW]
        MATCH (p:Person)
        RETURN count(p) AS total, sum(p.age) AS ageSum, avg(p.age) AS avgAge
    "#;
    let result = CypherQlParser::parse(query).unwrap();
    assert_eq!(result.return_expressions.len(), 3);
    assert_eq!(
        result.return_expressions[0].aggregate_function,
        Some(AggregateFunction::Count)
    );
    assert_eq!(
        result.return_expressions[1].aggregate_function,
        Some(AggregateFunction::Sum)
    );
    assert_eq!(
        result.return_expressions[2].aggregate_function,
        Some(AggregateFunction::Avg)
    );
}

#[test]
fn cypherql_test_parse_window_range_with_step() {
    let query = r#"
        FROM STREAM s [RANGE 10m STEP 5m]
        MATCH (n) RETURN n
    "#;
    let result = CypherQlParser::parse(query).unwrap();
    assert_eq!(
        result.streams[0].window,
        WindowSpec::slide(Duration::from_secs(600), Duration::from_secs(300))
    );
}

#[test]
fn test_parse_multiple_pattern_groups() {
    let query = r#"
        FROM STREAM events [NOW]
        FROM STATIC 'http://kb.org/data'
        MATCH
            STREAM events { (e:Event)-[:TRIGGERED_BY]->(s:Sensor) },
            STATIC { (s:Sensor)-[:LOCATED_IN]->(l:Location) }
        RETURN e.type, l.name
    "#;
    let result = CypherQlParser::parse(query).unwrap();
    assert_eq!(result.pattern_groups.len(), 2);
    assert_eq!(result.pattern_groups[0].source, PatternSource::Stream);
    assert_eq!(result.pattern_groups[1].source, PatternSource::Static);
}

#[test]
fn test_parse_chain_three_nodes() {
    let query = r#"
        FROM STREAM s [NOW]
        MATCH (a:Person)-[:KNOWS]->(b:Person)-[:LIVES_IN]->(c:City)
        RETURN a.name, c.name
    "#;
    let result = CypherQlParser::parse(query).unwrap();
    let pattern = &result.pattern_groups[0].patterns[0];
    assert_eq!(pattern.nodes.len(), 3);
    assert_eq!(pattern.relationships.len(), 2);
}

#[test]
fn test_parse_static_with_depth_and_cache() {
    let query = r#"
        FROM STREAM s [NOW]
        FROM STATIC 'http://kb.org/data' WITH DEPTH 3 CACHE 5m
        MATCH (n) RETURN n
    "#;
    let result = CypherQlParser::parse(query).unwrap();
    assert_eq!(result.static_graphs.len(), 1);
    assert_eq!(result.static_graphs[0].depth, Some(3));
    assert_eq!(
        result.static_graphs[0].cache_duration,
        Some(Duration::from_secs(300))
    );
}
