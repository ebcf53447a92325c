use cqels_core::query::{QueryInputs, QueryType};

#[test]
fn test_query_type_display() {
    assert_eq!(QueryType::Sparql.to_text(), "SPARQL");
    assert_eq!(QueryType::Cypher.to_text(), "CYPHER");
    assert_eq!(QueryType::Custom.to_text(), "CUSTOM");
}

#[test]
fn test_query_inputs() {
    let mut inputs = QueryInputs::new();
    assert!(!inputs.has_stream("test"));

    let stream: Vec<i64> = Vec::new();
    inputs.add_stream("test", stream);
    assert!(inputs.has_stream("test"));
    assert!(!inputs.has_stream("other"));

    let names: Vec<&str> = inputs.stream_names();
    assert_eq!(names, vec!["test"]);

    let taken = inputs.take_stream("test");
    assert!(taken.is_some());
    assert!(!inputs.has_stream("test"));
}
