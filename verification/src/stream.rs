//! Stream elements and events.
use vstd::prelude::*;

use crate::model::Statement;
use crate::text::{append_text, decimal, decimal_text};

verus! {

/// Anything that has a timestamp, in milliseconds since the epoch.
pub trait Timestamped {
    spec fn stamp(&self) -> i64;

    fn timestamp(&self) -> (r: i64)
        ensures
            r == self.stamp(),
    ;
}

/// An RDF statement with a timestamp.
#[derive(Clone, Debug)]
pub struct RdfStreamElement {
    pub statement: Statement,
    pub timestamp: i64,
}

impl RdfStreamElement {
    pub fn new(statement: Statement, timestamp: i64) -> (r: Self)
        ensures
            r == (RdfStreamElement { statement, timestamp }),
    {
        RdfStreamElement { statement, timestamp }
    }

    pub open spec fn rendered(&self) -> Seq<char> {
        "RdfStreamElement[ts="@ + decimal_text(self.timestamp as int) + ", stmt="@ + self.statement.rendered() + "]"@
    }

    pub fn to_text(&self) -> (r: String)
        ensures
            r@ == self.rendered(),
    {
        let mut r = "RdfStreamElement[ts=".to_string();
        append_text(&mut r, decimal(self.timestamp).as_str());
        append_text(&mut r, ", stmt=");
        append_text(&mut r, self.statement.to_text().as_str());
        append_text(&mut r, "]");
        r
    }
}

impl Timestamped for RdfStreamElement {
    open spec fn stamp(&self) -> i64 {
        self.timestamp
    }

    fn timestamp(&self) -> i64 {
        self.timestamp
    }
}

/// A text with a timestamp.
#[derive(Clone, Debug)]
pub struct StreamRecord {
    pub value: String,
    pub timestamp: i64,
}

impl StreamRecord {
    pub fn new(value: &str, timestamp: i64) -> (r: Self)
        ensures
            r.value@ == value@,
            r.timestamp == timestamp,
    {
        StreamRecord { value: value.to_string(), timestamp }
    }

    pub open spec fn rendered(&self) -> Seq<char> {
        "StreamRecord[ts="@ + decimal_text(self.timestamp as int) + ", value="@ + self.value@ + "]"@
    }

    pub fn to_text(&self) -> (r: String)
        ensures
            r@ == self.rendered(),
    {
        let mut r = "StreamRecord[ts=".to_string();
        append_text(&mut r, decimal(self.timestamp).as_str());
        append_text(&mut r, ", value=");
        append_text(&mut r, self.value.as_str());
        append_text(&mut r, "]");
        r
    }
}

impl Timestamped for StreamRecord {
    open spec fn stamp(&self) -> i64 {
        self.timestamp
    }

    fn timestamp(&self) -> i64 {
        self.timestamp
    }
}

/// What flows through a stream: an RDF statement or a record.
#[derive(Clone, Debug)]
pub enum StreamElement {
    Rdf(RdfStreamElement),
    Record(StreamRecord),
}

impl StreamElement {
    pub open spec fn stamped(&self) -> i64 {
        match self {
            StreamElement::Rdf(rdf) => rdf.timestamp,
            StreamElement::Record(rec) => rec.timestamp,
        }
    }

    pub fn timestamp(&self) -> (r: i64)
        ensures
            r == self.stamped(),
    {
        match self {
            StreamElement::Rdf(rdf) => rdf.timestamp,
            StreamElement::Record(rec) => rec.timestamp,
        }
    }

    /// Does the element carry an RDF statement?
    pub fn is_rdf(&self) -> (r: bool)
        ensures
            r == (*self is Rdf),
    {
        match self {
            StreamElement::Rdf(_) => true,
            StreamElement::Record(_) => false,
        }
    }

    pub fn as_statement(&self) -> (r: Option<&Statement>)
        ensures
            r == match self {
                StreamElement::Rdf(rdf) => Some(&rdf.statement),
                StreamElement::Record(_) => None,
            },
    {
        match self {
            StreamElement::Rdf(rdf) => Some(&rdf.statement),
            StreamElement::Record(_) => None,
        }
    }

    pub fn as_rdf(&self) -> (r: Option<&RdfStreamElement>)
        ensures
            r == match self {
                StreamElement::Rdf(rdf) => Some(rdf),
                StreamElement::Record(_) => None,
            },
    {
        match self {
            StreamElement::Rdf(rdf) => Some(rdf),
            StreamElement::Record(_) => None,
        }
    }

    pub open spec fn rendered(&self) -> Seq<char> {
        match self {
            StreamElement::Rdf(rdf) => rdf.rendered(),
            StreamElement::Record(rec) => rec.rendered(),
        }
    }

    pub fn to_text(&self) -> (r: String)
        ensures
            r@ == self.rendered(),
    {
        match self {
            StreamElement::Rdf(rdf) => rdf.to_text(),
            StreamElement::Record(rec) => rec.to_text(),
        }
    }
}

impl Timestamped for StreamElement {
    open spec fn stamp(&self) -> i64 {
        self.stamped()
    }

    fn timestamp(&self) -> i64 {
        self.timestamp()
    }
}

impl From<RdfStreamElement> for StreamElement {
    fn from(rdf: RdfStreamElement) -> (r: Self) {
        StreamElement::Rdf(rdf)
    }
}

impl vstd::std_specs::convert::FromSpecImpl<RdfStreamElement> for StreamElement {
    open spec fn obeys_from_spec() -> bool {
        true
    }

    open spec fn from_spec(rdf: RdfStreamElement) -> Self {
        StreamElement::Rdf(rdf)
    }
}

impl From<StreamRecord> for StreamElement {
    fn from(rec: StreamRecord) -> (r: Self) {
        StreamElement::Record(rec)
    }
}

impl vstd::std_specs::convert::FromSpecImpl<StreamRecord> for StreamElement {
    open spec fn obeys_from_spec() -> bool {
        true
    }

    open spec fn from_spec(rec: StreamRecord) -> Self {
        StreamElement::Record(rec)
    }
}

/// A record, or a watermark: no event up to its timestamp is still to come.
#[derive(Clone, Debug, PartialEq)]
pub enum StreamEvent<T> {
    Record { value: T, timestamp: i64 },
    Watermark { timestamp: i64 },
}

impl<T> StreamEvent<T> {
    pub open spec fn stamped(&self) -> i64 {
        match self {
            StreamEvent::Record { timestamp, .. } => *timestamp,
            StreamEvent::Watermark { timestamp } => *timestamp,
        }
    }

    pub fn record(value: T, timestamp: i64) -> (r: Self)
        ensures
            r == (StreamEvent::Record { value, timestamp }),
    {
        StreamEvent::Record { value, timestamp }
    }

    pub fn watermark(timestamp: i64) -> (r: Self)
        ensures
            r == (StreamEvent::<T>::Watermark { timestamp }),
    {
        StreamEvent::Watermark { timestamp }
    }

    pub fn timestamp(&self) -> (r: i64)
        ensures
            r == self.stamped(),
    {
        match self {
            StreamEvent::Record { timestamp, .. } => *timestamp,
            StreamEvent::Watermark { timestamp } => *timestamp,
        }
    }

    /// The text of an event whose value, if it is a record, has the given text.
    pub open spec fn rendered(&self, value: Seq<char>) -> Seq<char> {
        match self {
            StreamEvent::Record { timestamp, .. } => "Record[ts="@ + decimal_text(*timestamp as int) + ", value="@
                + value + "]"@,
            StreamEvent::Watermark { timestamp } => "Watermark[ts="@ + decimal_text(*timestamp as int) + "]"@,
        }
    }

    pub fn to_text(&self, value: &str) -> (r: String)
        ensures
            r@ == self.rendered(value@),
    {
        match self {
            StreamEvent::Record { timestamp, .. } => {
                let mut r = "Record[ts=".to_string();
                append_text(&mut r, decimal(*timestamp).as_str());
                append_text(&mut r, ", value=");
                append_text(&mut r, value);
                append_text(&mut r, "]");
                r
            },
            StreamEvent::Watermark { timestamp } => {
                let mut r = "Watermark[ts=".to_string();
                append_text(&mut r, decimal(*timestamp).as_str());
                append_text(&mut r, "]");
                r
            },
        }
    }

    pub fn is_watermark(&self) -> (r: bool)
        ensures
            r == (*self is Watermark),
    {
        match self {
            StreamEvent::Record { .. } => false,
            StreamEvent::Watermark { .. } => true,
        }
    }

    pub fn is_record(&self) -> (r: bool)
        ensures
            r == (*self is Record),
    {
        match self {
            StreamEvent::Record { .. } => true,
            StreamEvent::Watermark { .. } => false,
        }
    }

    /// The value of a record.
    pub fn value(&self) -> (r: Option<&T>)
        ensures
            r == match self {
                StreamEvent::Record { value, .. } => Some(value),
                StreamEvent::Watermark { .. } => None,
            },
    {
        match self {
            StreamEvent::Record { value, .. } => Some(value),
            StreamEvent::Watermark { .. } => None,
        }
    }

    /// Maps the value of a record; a watermark stays as it is.
    pub fn map<U, F: FnOnce(&T) -> U>(&self, f: F) -> (r: StreamEvent<U>)
        requires
            self matches StreamEvent::Record { value, .. } ==> call_requires(f, (&value,)),
        ensures
            match self {
                StreamEvent::Record { value, timestamp } => r matches StreamEvent::Record { value: v, timestamp: t }
                    && t == *timestamp && call_ensures(f, (value,), v),
                StreamEvent::Watermark { timestamp } => r == (StreamEvent::<U>::Watermark { timestamp: *timestamp }),
            },
    {
        match self {
            StreamEvent::Record { value, timestamp } => StreamEvent::Record { value: f(value), timestamp: *timestamp },
            StreamEvent::Watermark { timestamp } => StreamEvent::Watermark { timestamp: *timestamp },
        }
    }
}

impl<T> Timestamped for StreamEvent<T> {
    open spec fn stamp(&self) -> i64 {
        self.stamped()
    }

    fn timestamp(&self) -> i64 {
        self.timestamp()
    }
}

/// A value with a timestamp.
#[derive(Clone, Debug, PartialEq)]
pub struct TimestampedValue<T> {
    pub value: T,
    pub timestamp: i64,
}

impl<T> TimestampedValue<T> {
    pub fn new(value: T, timestamp: i64) -> (r: Self)
        ensures
            r == (TimestampedValue { value, timestamp }),
    {
        TimestampedValue { value, timestamp }
    }
}

impl<T> Timestamped for TimestampedValue<T> {
    open spec fn stamp(&self) -> i64 {
        self.timestamp
    }

    fn timestamp(&self) -> i64 {
        self.timestamp
    }
}

} // verus!
