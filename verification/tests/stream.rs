use cqels_core::model::{IriTerm, LiteralTerm, Statement, Term};
use cqels_core::stream::{
    RdfStreamElement, StreamElement, StreamEvent, StreamRecord, Timestamped, TimestampedValue,
};

fn sample_statement() -> Statement {
    Statement::new(
        Term::Iri(IriTerm::new("http://example.org/sensor1")),
        IriTerm::new("http://example.org/temperature"),
        Term::Literal(LiteralTerm::new("25.5")),
    )
}

#[test]
fn test_rdf_stream_element() {
    let stmt = sample_statement();
    let elem = RdfStreamElement::new(stmt.clone(), 1000);
    assert_eq!(elem.timestamp, 1000);
    assert_eq!(elem.statement, stmt);
}

#[test]
fn test_stream_element_rdf() {
    let stmt = sample_statement();
    let elem = StreamElement::Rdf(RdfStreamElement::new(stmt.clone(), 500));
    assert!(elem.is_rdf());
    assert_eq!(elem.timestamp(), 500);
    assert_eq!(elem.as_statement(), Some(&stmt));
}

#[test]
fn test_stream_element_record() {
    let elem = StreamElement::Record(StreamRecord::new("test-value", 100));
    assert!(!elem.is_rdf());
    assert_eq!(elem.timestamp(), 100);
    assert!(elem.as_statement().is_none());
}

#[test]
fn test_stream_element_from_rdf() {
    let rdf = RdfStreamElement::new(sample_statement(), 42);
    let elem: StreamElement = rdf.into();
    assert!(elem.is_rdf());
    assert_eq!(elem.timestamp(), 42);
}

#[test]
fn test_stream_event_record() {
    let event: StreamEvent<i32> = StreamEvent::record(42, 1000);
    assert!(event.is_record());
    assert!(!event.is_watermark());
    assert_eq!(event.timestamp(), 1000);
    assert_eq!(event.value(), Some(&42));
}

#[test]
fn test_stream_event_watermark() {
    let event: StreamEvent<i32> = StreamEvent::watermark(5000);
    assert!(event.is_watermark());
    assert!(!event.is_record());
    assert_eq!(event.timestamp(), 5000);
    assert_eq!(event.value(), None);
}

#[test]
fn test_stream_event_map() {
    let event: StreamEvent<i32> = StreamEvent::record(10, 100);
    let mapped = event.map(|v| v * 2);
    assert_eq!(mapped, StreamEvent::record(20, 100));

    let wm: StreamEvent<i32> = StreamEvent::watermark(200);
    let mapped_wm: StreamEvent<i32> = wm.map(|v| v * 2);
    assert_eq!(mapped_wm, StreamEvent::watermark(200));
}

#[test]
fn test_stream_event_equality() {
    let e1: StreamEvent<String> = StreamEvent::record("hello".to_string(), 100);
    let e2: StreamEvent<String> = StreamEvent::record("hello".to_string(), 100);
    let e3: StreamEvent<String> = StreamEvent::record("world".to_string(), 100);
    assert_eq!(e1, e2);
    assert_ne!(e1, e3);
}

#[test]
fn test_timestamped_value() {
    let tv = TimestampedValue::new("data", 999);
    assert_eq!(tv.value, "data");
    assert_eq!(tv.timestamp, 999);
    assert_eq!(Timestamped::timestamp(&tv), 999);
}

#[test]
fn test_stream_element_display() {
    let elem = StreamElement::Rdf(RdfStreamElement::new(sample_statement(), 100));
    let display = elem.to_text();
    assert!(display.contains("RdfStreamElement"));
    assert!(display.contains("100"));
}

#[test]
fn test_stream_record_display() {
    let rec = StreamRecord::new("sensor-data", 500);
    let display = rec.to_text();
    assert!(display.contains("StreamRecord"));
    assert!(display.contains("sensor-data"));
}
