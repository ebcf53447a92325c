use cqels_core::parser::ast::{
    CqelsPatternGroup, CqelsQueryType, Duration, SelectElement, SortDirection, WindowSpec,
};
use cqels_core::parser::CqelsQlParser;

#[test]
fn test_parse_simple_select() {
    let query = r#"
        SELECT ?x ?y
        FROM STREAM sensor [NOW]
        WHERE {
            ?x <http://example.org/value> ?y .
        }
    "#;

    let result = CqelsQlParser::parse(query).unwrap();
    assert_eq!(result.query_type, CqelsQueryType::Select);
    assert_eq!(result.streams.len(), 1);
    assert_eq!(result.streams[0].name, "sensor");
    assert_eq!(result.streams[0].window, WindowSpec::now());
    assert_eq!(result.select_elements.len(), 2);
    assert_eq!(result.pattern_groups.len(), 1);
}

#[test]
fn test_parse_with_prefix() {
    let query = r#"
        PREFIX ex: <http://example.org/>
        SELECT ?s ?o
        FROM STREAM data [RANGE 10s]
        WHERE {
            ?s ex:prop ?o .
        }
    "#;

    let result = CqelsQlParser::parse(query).unwrap();
    assert!(result.prefixes.contains_key("ex"));
    assert_eq!(result.prefixes.get("ex").unwrap(), "http://example.org/");
    assert_eq!(
        result.streams[0].window,
        WindowSpec::range(Duration::from_secs(10))
    );
}

#[test]
fn test_parse_register_query() {
    let query = r#"
        REGISTER QUERY myQuery AS
        SELECT ?x
        FROM STREAM events [NOW]
        WHERE {
            ?x <http://example.org/type> ?y .
        }
    "#;

    let result = CqelsQlParser::parse(query).unwrap();
    assert_eq!(result.name, Some("myQuery".to_string()));
}

#[test]
fn cqelsql_test_parse_window_specs() {
    let query = r#"
        SELECT ?x
        FROM STREAM s1 [RANGE 30s]
        WHERE { ?x <http://ex.org/p> ?y . }
    "#;
    let result = CqelsQlParser::parse(query).unwrap();
    assert_eq!(
        result.streams[0].window,
        WindowSpec::range(Duration::from_secs(30))
    );

    let query = r#"
        SELECT ?x
        FROM STREAM s1 [TRIPLES 100]
        WHERE { ?x <http://ex.org/p> ?y . }
    "#;
    let result = CqelsQlParser::parse(query).unwrap();
    assert_eq!(result.streams[0].window, WindowSpec::triples(100));

    let query = r#"
        SELECT ?x
        FROM STREAM s1 [TRIPLES 100 SLIDE 50]
        WHERE { ?x <http://ex.org/p> ?y . }
    "#;
    let result = CqelsQlParser::parse(query).unwrap();
    assert_eq!(result.streams[0].window, WindowSpec::triples_slide(100, 50));

    let query = r#"
        SELECT ?x
        FROM STREAM s1 [SLIDE 1m STEP 30s]
        WHERE { ?x <http://ex.org/p> ?y . }
    "#;
    let result = CqelsQlParser::parse(query).unwrap();
    assert_eq!(
        result.streams[0].window,
        WindowSpec::slide(Duration::from_secs(60), Duration::from_secs(30))
    );
}

#[test]
fn cqelsql_test_parse_multiple_sources() {
    let query = r#"
        SELECT ?x ?y
        FROM STREAM events [NOW]
        FROM <http://example.org/static>
        FROM NAMED <http://example.org/named>
        WHERE {
            ?x <http://ex.org/p> ?y .
        }
    "#;

    let result = CqelsQlParser::parse(query).unwrap();
    assert_eq!(result.streams.len(), 1);
    assert_eq!(result.static_graphs.len(), 1);
    assert_eq!(result.static_graphs[0].uri, "http://example.org/static");
    assert_eq!(result.named_graphs.len(), 1);
    assert_eq!(result.named_graphs[0].uri, "http://example.org/named");
}

#[test]
fn cqelsql_test_parse_group_by_order_by_limit() {
    let query = r#"
        SELECT ?type (COUNT(?x) AS ?cnt)
        FROM STREAM data [NOW]
        WHERE {
            ?x <http://ex.org/type> ?type .
        }
        GROUP BY ?type
        ORDER BY ?cnt DESC
        LIMIT 10
    "#;

    let result = CqelsQlParser::parse(query).unwrap();
    assert!(result.has_group_by());
    assert_eq!(result.group_by_variables, vec!["?type"]);
    assert!(result.has_order_by());
    assert_eq!(result.order_by_conditions[0].expression, "?cnt");
    assert_eq!(
        result.order_by_conditions[0].direction,
        SortDirection::Descending
    );
    assert!(result.has_limit());
    assert_eq!(result.limit, Some(10));
}

#[test]
fn cqelsql_test_parse_distinct() {
    let query = r#"
        SELECT DISTINCT ?x
        FROM STREAM s [NOW]
        WHERE { ?x <http://ex.org/p> ?y . }
    "#;

    let result = CqelsQlParser::parse(query).unwrap();
    assert!(result.distinct);
}

#[test]
fn cqelsql_test_parse_stream_pattern_group() {
    let query = r#"
        SELECT ?x ?y
        FROM STREAM sensor [NOW]
        WHERE {
            STREAM sensor {
                ?x <http://ex.org/reading> ?y .
            }
        }
    "#;

    let result = CqelsQlParser::parse(query).unwrap();
    assert_eq!(result.pattern_groups.len(), 1);
    match &result.pattern_groups[0] {
        CqelsPatternGroup::Stream { source, patterns } => {
            assert_eq!(source, "sensor");
            assert_eq!(patterns.len(), 1);
        }
        _ => panic!("expected stream pattern group"),
    }
}

#[test]
fn test_parse_optional_inside_stream_block_is_lifted() {
    let query = r#"
        SELECT ?sensor ?temp ?room
        FROM STREAM sensors [TRIPLES 6]
        WHERE {
            STREAM sensors {
                ?sensor <http://ex.org/temp> ?temp .
                OPTIONAL { ?sensor <http://ex.org/in_room> ?room . }
            }
        }
    "#;
    let result = CqelsQlParser::parse(query).unwrap();
    let streams = result
        .pattern_groups
        .iter()
        .filter(|g| matches!(g, CqelsPatternGroup::Stream { .. }))
        .count();
    let optionals = result
        .pattern_groups
        .iter()
        .filter(|g| matches!(g, CqelsPatternGroup::Optional { .. }))
        .count();
    assert_eq!(streams, 1, "stream triples stay in a Stream group");
    assert_eq!(optionals, 1, "OPTIONAL is lifted to a top-level group");
}

#[test]
fn test_parse_union_inside_stream_block_is_lifted() {
    let query = r#"
        SELECT ?subject ?label
        FROM STREAM facts [TRIPLES 4]
        WHERE {
            STREAM facts {
                { ?subject <http://ex.org/name>  ?label . }
                UNION
                { ?subject <http://ex.org/alias> ?label . }
            }
        }
    "#;
    let result = CqelsQlParser::parse(query).unwrap();
    let union = result
        .pattern_groups
        .iter()
        .find_map(|g| match g {
            CqelsPatternGroup::Union { left, right } => Some((left.len(), right.len())),
            _ => None,
        })
        .expect("UNION is lifted to a top-level group");
    assert_eq!(union, (1, 1), "UNION split into one group per arm");
}

#[test]
fn test_parse_multiple_triple_patterns() {
    let query = r#"
        SELECT ?name ?age
        FROM STREAM people [NOW]
        WHERE {
            ?p <http://ex.org/name> ?name .
            ?p <http://ex.org/age> ?age .
        }
    "#;

    let result = CqelsQlParser::parse(query).unwrap();
    assert_eq!(result.pattern_groups.len(), 2);
}

#[test]
fn cqelsql_test_parse_error_invalid_query() {
    let result = CqelsQlParser::parse("NOT A VALID QUERY");
    assert!(result.is_err());
}

#[test]
fn test_parse_rdf_type_shorthand() {
    let query = r#"
        SELECT ?x
        FROM STREAM s [NOW]
        WHERE {
            ?x a <http://ex.org/Person> .
        }
    "#;

    let result = CqelsQlParser::parse(query).unwrap();
    match &result.pattern_groups[0] {
        CqelsPatternGroup::Stream { source, patterns } => {
            assert_eq!(source, "s");
            assert_eq!(
                patterns[0].predicate,
                "<http://www.w3.org/1999/02/22-rdf-syntax-ns#type>"
            );
        }
        other => panic!("expected stream pattern group, got {other:?}"),
    }
}

#[test]
fn implicit_binding_single_stream_wraps_bare_triples() {
    let query = r#"
        SELECT ?x ?y
        FROM STREAM sensor [NOW]
        WHERE {
            ?x <http://ex.org/reading> ?y .
        }
    "#;
    let result = CqelsQlParser::parse(query).unwrap();
    assert_eq!(result.pattern_groups.len(), 1);
    match &result.pattern_groups[0] {
        CqelsPatternGroup::Stream { source, patterns } => {
            assert_eq!(source, "sensor");
            assert_eq!(patterns.len(), 1);
        }
        other => panic!("expected implicit stream binding, got {other:?}"),
    }
}

#[test]
fn implicit_binding_multiple_bare_triples_all_bound() {
    let query = r#"
        SELECT ?p ?name ?age
        FROM STREAM people [NOW]
        WHERE {
            ?p <http://ex.org/name> ?name .
            ?p <http://ex.org/age> ?age .
        }
    "#;
    let result = CqelsQlParser::parse(query).unwrap();
    assert_eq!(result.pattern_groups.len(), 2);
    for group in &result.pattern_groups {
        match group {
            CqelsPatternGroup::Stream { source, .. } => assert_eq!(source, "people"),
            other => panic!("expected all groups bound to 'people', got {other:?}"),
        }
    }
}

#[test]
fn implicit_binding_skipped_with_explicit_stream_block() {
    let query = r#"
        SELECT ?x ?y ?z
        FROM STREAM s [NOW]
        WHERE {
            STREAM s { ?x <http://ex.org/p> ?y . }
            ?x <http://ex.org/q> ?z .
        }
    "#;
    let result = CqelsQlParser::parse(query).unwrap();
    let mut saw_stream = false;
    let mut saw_default = false;
    for group in &result.pattern_groups {
        match group {
            CqelsPatternGroup::Stream { .. } => saw_stream = true,
            CqelsPatternGroup::Default { .. } => saw_default = true,
            _ => {}
        }
    }
    assert!(saw_stream, "explicit STREAM block should be preserved");
    assert!(
        saw_default,
        "bare triples should NOT be auto-bound when an explicit STREAM block exists"
    );
}

#[test]
fn implicit_binding_skipped_with_multiple_streams() {
    let query = r#"
        SELECT ?x ?y
        FROM STREAM a [NOW]
        FROM STREAM b [NOW]
        WHERE {
            ?x <http://ex.org/p> ?y .
        }
    "#;
    let result = CqelsQlParser::parse(query).unwrap();
    match &result.pattern_groups[0] {
        CqelsPatternGroup::Default { .. } => {}
        other => panic!("expected Default group with multiple streams, got {other:?}"),
    }
}

#[test]
fn implicit_binding_skipped_when_static_graph_declared() {
    let query = r#"
        SELECT ?x ?y
        FROM STREAM s [NOW]
        FROM <http://example.org/static>
        WHERE {
            ?x <http://ex.org/p> ?y .
        }
    "#;
    let result = CqelsQlParser::parse(query).unwrap();
    match &result.pattern_groups[0] {
        CqelsPatternGroup::Default { .. } => {}
        other => panic!("expected Default group when static graph declared, got {other:?}"),
    }
}

#[test]
fn seq_simple_two_event_sequence() {
    let query = r#"
        SELECT ?e1 ?e2
        FROM STREAM events [RANGE 10s]
        WHERE {
            ?e1 a <http://ex.org/Alert> .
            ?e2 a <http://ex.org/Alert> .
            FILTER(SEQ(?e1; ?e2))
        }
    "#;
    let result = CqelsQlParser::parse(query).unwrap();
    let seq = result.seq_constraint.as_ref().expect("expected SEQ");
    assert_eq!(seq.args.len(), 2);
    assert_eq!(seq.args[0].variable, "e1");
    assert_eq!(seq.args[1].variable, "e2");
    assert!(seq.args.iter().all(|a| a.is_single()));
    assert!(!result.pattern_groups.iter().any(|g| matches!(
        g,
        CqelsPatternGroup::Filter { .. } | CqelsPatternGroup::Sequence(_)
    )));
}

#[test]
fn seq_with_negation_and_quantifiers() {
    let query = r#"
        SELECT ?a ?b ?c
        FROM STREAM events [RANGE 5s]
        WHERE {
            ?a a <http://ex.org/A> .
            ?b a <http://ex.org/B> .
            ?c a <http://ex.org/C> .
            FILTER(SEQ(?a; NOT ?b; ?c+))
        }
    "#;
    let result = CqelsQlParser::parse(query).unwrap();
    let seq = result.seq_constraint.unwrap();
    assert_eq!(seq.args.len(), 3);
    assert!(!seq.args[0].negated);
    assert!(seq.args[1].negated);
    assert!(seq.args[2].is_one_or_more());
    assert_eq!(seq.event_variables(), vec!["a", "c"]);
}

#[test]
fn seq_with_explicit_quantifier_ranges() {
    let query = r#"
        SELECT ?a ?b
        FROM STREAM events [RANGE 5s]
        WHERE {
            ?a a <http://ex.org/A> .
            ?b a <http://ex.org/B> .
            FILTER(SEQ(?a{3}; ?b{2,5}))
        }
    "#;
    let result = CqelsQlParser::parse(query).unwrap();
    let seq = result.seq_constraint.unwrap();
    assert_eq!(seq.args[0].min_occurrences, 3);
    assert_eq!(seq.args[0].max_occurrences, 3);
    assert_eq!(seq.args[1].min_occurrences, 2);
    assert_eq!(seq.args[1].max_occurrences, 5);
}

#[test]
fn seq_with_zero_or_more_and_optional() {
    let query = r#"
        SELECT ?a ?b ?c
        FROM STREAM events [RANGE 5s]
        WHERE {
            ?a a <http://ex.org/A> .
            ?b a <http://ex.org/B> .
            ?c a <http://ex.org/C> .
            FILTER(SEQ(?a; ?b*; ?c?))
        }
    "#;
    let result = CqelsQlParser::parse(query).unwrap();
    let seq = result.seq_constraint.unwrap();
    assert!(seq.args[0].is_single());
    assert!(seq.args[1].is_zero_or_more());
    assert!(seq.args[2].is_optional());
}

#[test]
fn seq_with_alias_via_as() {
    let query = r#"
        SELECT ?e1 ?e2
        FROM STREAM events [RANGE 5s]
        WHERE {
            ?e1 a <http://ex.org/Alert> .
            ?e2 a <http://ex.org/Alert> .
            FILTER(SEQ(?e1 AS first; ?e2 AS second))
        }
    "#;
    let result = CqelsQlParser::parse(query).unwrap();
    let seq = result.seq_constraint.unwrap();
    assert_eq!(seq.args[0].alias.as_deref(), Some("first"));
    assert_eq!(seq.args[1].alias.as_deref(), Some("second"));
}

#[test]
fn seq_lowercase_keyword_accepted() {
    let query = r#"
        SELECT ?a ?b
        FROM STREAM events [RANGE 5s]
        WHERE {
            ?a a <http://ex.org/A> .
            ?b a <http://ex.org/B> .
            FILTER(seq(?a; ?b))
        }
    "#;
    let result = CqelsQlParser::parse(query).unwrap();
    assert!(result.seq_constraint.is_some());
}

#[test]
fn seq_single_arg_falls_through_to_regular_filter() {
    let query = r#"
        SELECT ?a
        FROM STREAM events [RANGE 5s]
        WHERE {
            ?a a <http://ex.org/A> .
            FILTER(SEQ(?a))
        }
    "#;
    let result = CqelsQlParser::parse(query).unwrap();
    assert!(
        result.seq_constraint.is_none(),
        "single-arg SEQ must NOT produce a SeqConstraint"
    );
    let saw_filter = result
        .pattern_groups
        .iter()
        .any(|g| matches!(g, CqelsPatternGroup::Filter { .. }));
    assert!(saw_filter, "single-arg SEQ should remain as a filter");
}

#[test]
fn implicit_binding_skipped_when_named_graph_declared() {
    let query = r#"
        SELECT ?x ?y
        FROM STREAM s [NOW]
        FROM NAMED <http://example.org/g>
        WHERE {
            ?x <http://ex.org/p> ?y .
        }
    "#;
    let result = CqelsQlParser::parse(query).unwrap();
    match &result.pattern_groups[0] {
        CqelsPatternGroup::Default { .. } => {}
        other => panic!("expected Default group when named graph declared, got {other:?}"),
    }
}

#[test]
fn test_parse_ask_query() {
    let query = r#"
        ASK FROM STREAM s [NOW]
        WHERE { ?x <http://example.org/p> ?y . }
    "#;
    let result = CqelsQlParser::parse(query).unwrap();
    assert_eq!(result.query_type, CqelsQueryType::Ask);
    assert!(result.select_elements.is_empty());
    assert_eq!(result.streams.len(), 1);
    assert_eq!(result.streams[0].name, "s");
    assert_eq!(result.pattern_groups.len(), 1);
}

#[test]
fn test_parse_ask_missing_where() {
    let result = CqelsQlParser::parse("ASK FROM STREAM s [NOW]");
    assert!(result.is_err());
}

#[test]
fn test_parse_describe_with_variable() {
    let query = r#"
        DESCRIBE ?x FROM STREAM s [NOW]
        WHERE { ?x <http://example.org/p> ?y . }
    "#;
    let result = CqelsQlParser::parse(query).unwrap();
    assert_eq!(result.query_type, CqelsQueryType::Describe);
    assert_eq!(result.select_elements.len(), 1);
    match &result.select_elements[0] {
        SelectElement::Variable(v) => assert_eq!(v, "?x"),
        _ => panic!("expected variable"),
    }
}

#[test]
fn test_parse_describe_star() {
    let query = r#"
        DESCRIBE * FROM STREAM s [NOW]
        WHERE { ?x <http://example.org/p> ?y . }
    "#;
    let result = CqelsQlParser::parse(query).unwrap();
    assert_eq!(result.query_type, CqelsQueryType::Describe);
    assert!(result.select_elements.is_empty());
}

#[test]
fn test_parse_describe_multiple_variables() {
    let query = r#"
        DESCRIBE ?x ?y FROM STREAM s [NOW]
        WHERE { ?x <http://example.org/p> ?y . }
    "#;
    let result = CqelsQlParser::parse(query).unwrap();
    assert_eq!(result.query_type, CqelsQueryType::Describe);
    assert_eq!(result.select_elements.len(), 2);
}

#[test]
fn test_parse_error_missing_where() {
    let result = CqelsQlParser::parse("SELECT ?x FROM STREAM s [NOW]");
    assert!(result.is_err());
}

#[test]
fn cqelsql_test_parse_error_empty_input() {
    let result = CqelsQlParser::parse("");
    assert!(result.is_err());
}

#[test]
fn test_parse_error_incomplete_window() {
    let result =
        CqelsQlParser::parse("SELECT ?x FROM STREAM s [] WHERE { ?x <http://ex.org/p> ?y . }");
    assert!(result.is_err());
}

#[test]
fn cqelsql_test_parse_window_range_with_step() {
    let query = r#"
        SELECT ?x
        FROM STREAM s [RANGE 10s STEP 5s]
        WHERE { ?x <http://ex.org/p> ?y . }
    "#;
    let result = CqelsQlParser::parse(query).unwrap();
    assert_eq!(
        result.streams[0].window,
        WindowSpec::slide(Duration::from_secs(10), Duration::from_secs(5))
    );
}

#[test]
fn test_parse_window_time_units() {
    let q = r#"SELECT ?x FROM STREAM s [RANGE 500ms] WHERE { ?x <http://p> ?y . }"#;
    let r = CqelsQlParser::parse(q).unwrap();
    assert_eq!(
        r.streams[0].window,
        WindowSpec::range(Duration::from_millis(500))
    );

    let q = r#"SELECT ?x FROM STREAM s [RANGE 2m] WHERE { ?x <http://p> ?y . }"#;
    let r = CqelsQlParser::parse(q).unwrap();
    assert_eq!(
        r.streams[0].window,
        WindowSpec::range(Duration::from_secs(120))
    );

    let q = r#"SELECT ?x FROM STREAM s [RANGE 1h] WHERE { ?x <http://p> ?y . }"#;
    let r = CqelsQlParser::parse(q).unwrap();
    assert_eq!(
        r.streams[0].window,
        WindowSpec::range(Duration::from_secs(3600))
    );
}

#[test]
fn test_parse_aggregate_count_star() {
    let query = r#"
        SELECT (COUNT(*) AS ?cnt)
        FROM STREAM s [NOW]
        WHERE { ?x <http://ex.org/p> ?y . }
    "#;
    let result = CqelsQlParser::parse(query).unwrap();
    assert_eq!(result.select_elements.len(), 1);
}

#[test]
fn test_parse_multiple_aggregates() {
    let query = r#"
        SELECT (SUM(?v) AS ?total) (AVG(?v) AS ?mean) (MIN(?v) AS ?lo) (MAX(?v) AS ?hi)
        FROM STREAM s [NOW]
        WHERE { ?x <http://ex.org/value> ?v . }
    "#;
    let result = CqelsQlParser::parse(query).unwrap();
    assert_eq!(result.select_elements.len(), 4);
}

#[test]
fn test_parse_multiple_prefixes() {
    let query = r#"
        PREFIX ex: <http://example.org/>
        PREFIX foaf: <http://xmlns.com/foaf/0.1/>
        PREFIX xsd: <http://www.w3.org/2001/XMLSchema#>
        SELECT ?name
        FROM STREAM s [NOW]
        WHERE { ?x foaf:name ?name . }
    "#;
    let result = CqelsQlParser::parse(query).unwrap();
    assert_eq!(result.prefixes.len(), 3);
    assert!(result.prefixes.contains_key("ex"));
    assert!(result.prefixes.contains_key("foaf"));
    assert!(result.prefixes.contains_key("xsd"));
}

#[test]
fn test_parse_order_by_ascending() {
    let query = r#"
        SELECT ?x ?y
        FROM STREAM s [NOW]
        WHERE { ?x <http://ex.org/p> ?y . }
        ORDER BY ?x ASC
    "#;
    let result = CqelsQlParser::parse(query).unwrap();
    assert_eq!(
        result.order_by_conditions[0].direction,
        SortDirection::Ascending
    );
}

#[test]
fn test_parse_multiple_order_by() {
    let query = r#"
        SELECT ?x ?y
        FROM STREAM s [NOW]
        WHERE { ?x <http://ex.org/p> ?y . }
        ORDER BY ?x ASC, ?y DESC
    "#;
    let result = CqelsQlParser::parse(query).unwrap();
    assert_eq!(result.order_by_conditions.len(), 2);
    assert_eq!(
        result.order_by_conditions[0].direction,
        SortDirection::Ascending
    );
    assert_eq!(
        result.order_by_conditions[1].direction,
        SortDirection::Descending
    );
}

#[test]
fn test_parse_order_by_desc_function_form() {
    let desc = r#"
        SELECT ?sensor ?temp
        FROM STREAM sensors [TRIPLES 5]
        WHERE { ?sensor <http://ex.org/temp> ?temp . }
        ORDER BY DESC(?temp)
        LIMIT 2
    "#;
    let result = CqelsQlParser::parse(desc).unwrap();
    assert_eq!(result.order_by_conditions.len(), 1);
    assert_eq!(result.order_by_conditions[0].expression, "?temp");
    assert_eq!(
        result.order_by_conditions[0].direction,
        SortDirection::Descending
    );

    let asc = r#"
        SELECT ?x ?y
        FROM STREAM s [NOW]
        WHERE { ?x <http://ex.org/p> ?y . }
        ORDER BY ASC(?x)
    "#;
    let asc_result = CqelsQlParser::parse(asc).unwrap();
    assert_eq!(asc_result.order_by_conditions[0].expression, "?x");
    assert_eq!(
        asc_result.order_by_conditions[0].direction,
        SortDirection::Ascending
    );
}

#[test]
fn test_parse_filter_expression() {
    let query = r#"
        SELECT ?x ?y
        FROM STREAM s [NOW]
        WHERE {
            ?x <http://ex.org/value> ?y .
            FILTER(?y > 100)
        }
    "#;
    let result = CqelsQlParser::parse(query).unwrap();
    assert!(result.pattern_groups.len() >= 2);
}

#[test]
fn test_parse_static_with_depth() {
    let query = r#"
        SELECT ?x
        FROM STREAM s [NOW]
        FROM STATIC <http://example.org/kb> WITH DEPTH 3
        WHERE { ?x <http://ex.org/p> ?y . }
    "#;
    let result = CqelsQlParser::parse(query).unwrap();
    assert_eq!(result.static_graphs.len(), 1);
}

#[test]
fn test_parse_complex_multistream() {
    let query = r#"
        PREFIX ex: <http://example.org/>
        REGISTER QUERY alertQuery AS
        SELECT ?sensor ?temp
        FROM STREAM sensors [RANGE 10s]
        FROM STREAM events [SLIDE 5m STEP 1m]
        WHERE {
            STREAM sensors {
                ?sensor ex:temperature ?temp .
            }
            STREAM events {
                ?sensor ex:alert ?alert .
            }
        }
        ORDER BY ?temp DESC
        LIMIT 100
    "#;
    let result = CqelsQlParser::parse(query).unwrap();
    assert_eq!(result.name, Some("alertQuery".to_string()));
    assert_eq!(result.streams.len(), 2);
    assert_eq!(result.streams[0].name, "sensors");
    assert_eq!(result.streams[1].name, "events");
    assert!(result.has_order_by());
    assert_eq!(result.limit, Some(100));
}

#[test]
fn parses_from_named_window_declaration() {
    let query = r#"
        SELECT ?sensor ?temp
        FROM NAMED WINDOW <http://ex.org/w1> ON STREAM sensors [RANGE 10s]
        WHERE {
            WINDOW <http://ex.org/w1> {
                ?sensor <http://ex.org/temp> ?temp .
            }
        }
    "#;
    let def = CqelsQlParser::parse(query).expect("parses");
    assert_eq!(def.named_windows.len(), 1);
    assert_eq!(def.named_windows[0].iri, "http://ex.org/w1");
    assert_eq!(def.named_windows[0].stream, "sensors");
    assert!(def.streams.is_empty(), "got: {:?}", def.streams);
}

#[test]
fn parses_window_pattern_group() {
    let query = r#"
        SELECT ?s
        FROM NAMED WINDOW <http://ex.org/w> ON STREAM events [RANGE 5s]
        WHERE {
            WINDOW <http://ex.org/w> {
                ?s <http://ex.org/p> ?o .
            }
        }
    "#;
    let def = CqelsQlParser::parse(query).expect("parses");
    let win_group = def
        .pattern_groups
        .iter()
        .find(|g| matches!(g, CqelsPatternGroup::Window { .. }))
        .expect("window pattern group present");
    match win_group {
        CqelsPatternGroup::Window {
            window_iri,
            patterns,
        } => {
            assert_eq!(window_iri, "http://ex.org/w");
            assert_eq!(patterns.len(), 1);
        }
        _ => unreachable!(),
    }
}

#[test]
fn named_window_does_not_shadow_static_named_graph() {
    let query = r#"
        SELECT ?s
        FROM NAMED <http://ex.org/graph>
        FROM NAMED WINDOW <http://ex.org/w> ON STREAM events [RANGE 5s]
        WHERE {
            WINDOW <http://ex.org/w> {
                ?s <http://ex.org/p> ?o .
            }
        }
    "#;
    let def = CqelsQlParser::parse(query).expect("parses");
    assert_eq!(def.named_graphs.len(), 1, "static named graph kept");
    assert_eq!(def.named_graphs[0].uri, "http://ex.org/graph");
    assert_eq!(def.named_windows.len(), 1, "named window registered");
    assert_eq!(def.named_windows[0].iri, "http://ex.org/w");
}

#[test]
fn multiple_named_windows_register_independently() {
    let query = r#"
        SELECT ?a ?b
        FROM NAMED WINDOW <http://ex.org/w1> ON STREAM s1 [RANGE 10s]
        FROM NAMED WINDOW <http://ex.org/w2> ON STREAM s2 [RANGE 30s STEP 5s]
        WHERE {
            WINDOW <http://ex.org/w1> { ?a <http://ex.org/p> ?b . }
            WINDOW <http://ex.org/w2> { ?a <http://ex.org/q> ?b . }
        }
    "#;
    let def = CqelsQlParser::parse(query).expect("parses");
    assert_eq!(def.named_windows.len(), 2);
    let iris: Vec<&str> = def.named_windows.iter().map(|w| w.iri.as_str()).collect();
    assert!(iris.contains(&"http://ex.org/w1"));
    assert!(iris.contains(&"http://ex.org/w2"));
    let win_groups: Vec<_> = def
        .pattern_groups
        .iter()
        .filter(|g| matches!(g, CqelsPatternGroup::Window { .. }))
        .collect();
    assert_eq!(win_groups.len(), 2);
}

#[test]
fn named_window_with_triples_spec_parses() {
    let query = r#"
        SELECT ?s
        FROM NAMED WINDOW <http://ex.org/w> ON STREAM s1 [TRIPLES 50]
        WHERE {
            WINDOW <http://ex.org/w> { ?s <http://ex.org/p> ?o . }
        }
    "#;
    let def = CqelsQlParser::parse(query).expect("parses");
    assert_eq!(def.named_windows.len(), 1);
    let win = &def.named_windows[0].window;
    assert!(
        win.to_text().to_lowercase().contains("triple"),
        "expected triples window, got: {win:?}"
    );
}

#[test]
fn from_named_window_missing_spec_is_rejected() {
    let query = r#"
        SELECT ?s
        FROM NAMED WINDOW <http://ex.org/w> ON STREAM events
        WHERE { ?s ?p ?o . }
    "#;
    assert!(CqelsQlParser::parse(query).is_err());
}

#[test]
fn window_pattern_group_without_iri_is_rejected() {
    let query = r#"
        SELECT ?s
        FROM NAMED WINDOW <http://ex.org/w> ON STREAM events [RANGE 5s]
        WHERE {
            WINDOW { ?s ?p ?o . }
        }
    "#;
    assert!(CqelsQlParser::parse(query).is_err());
}
