//! What can be wrong with a query.
use vstd::prelude::*;

use crate::text::append_text;

verus! {

/// Kinds of errors in queries.
#[derive(Clone, Copy, Debug, PartialEq, Eq, Structural)]
#[non_exhaustive]
pub enum ParseErrorKind {
    Syntax,
    Semantic,
    Unsupported,
}

/// An error in a query.
#[derive(Debug)]
pub enum ParseError {
    /// The text is not of the language.
    Syntax(String),
    /// The query does not make sense.
    Semantic(String),
    /// The query asks for what is not supported.
    Unsupported(String),
}

/// The kind of an error and its message.
pub struct ErrorView {
    pub kind: ParseErrorKind,
    pub message: Seq<char>,
}

impl View for ParseError {
    type V = ErrorView;

    open spec fn view(&self) -> ErrorView {
        match self {
            ParseError::Syntax(m) => ErrorView { kind: ParseErrorKind::Syntax, message: m@ },
            ParseError::Semantic(m) => ErrorView { kind: ParseErrorKind::Semantic, message: m@ },
            ParseError::Unsupported(m) => ErrorView { kind: ParseErrorKind::Unsupported, message: m@ },
        }
    }
}

impl ParseError {
    pub fn kind(&self) -> (r: ParseErrorKind)
        ensures
            r == self@.kind,
    {
        match self {
            ParseError::Syntax(_) => ParseErrorKind::Syntax,
            ParseError::Semantic(_) => ParseErrorKind::Semantic,
            ParseError::Unsupported(_) => ParseErrorKind::Unsupported,
        }
    }

    pub fn message(&self) -> (r: &str)
        ensures
            r@ == self@.message,
    {
        match self {
            ParseError::Syntax(m) => m.as_str(),
            ParseError::Semantic(m) => m.as_str(),
            ParseError::Unsupported(m) => m.as_str(),
        }
    }

    /// The kind of the error, and then the message.
    pub open spec fn rendered(&self) -> Seq<char> {
        match self@.kind {
            ParseErrorKind::Syntax => "syntax error: "@ + self@.message,
            ParseErrorKind::Semantic => "semantic error: "@ + self@.message,
            ParseErrorKind::Unsupported => "unsupported: "@ + self@.message,
        }
    }

    pub fn to_text(&self) -> (r: String)
        ensures
            r@ == self.rendered(),
    {
        let mut r: String = match self.kind() {
            ParseErrorKind::Syntax => "syntax error: ".to_string(),
            ParseErrorKind::Semantic => "semantic error: ".to_string(),
            ParseErrorKind::Unsupported => "unsupported: ".to_string(),
        };
        append_text(&mut r, self.message());
        r
    }
}

/// The kind and the message of an error.
#[derive(Clone, Debug, PartialEq, Eq)]
pub struct ParseErrorDetail {
    pub kind: ParseErrorKind,
    pub message: String,
}

impl ParseErrorDetail {
    pub fn new(kind: ParseErrorKind, message: &str) -> (r: Self)
        ensures
            r.kind == kind,
            r.message@ == message@,
    {
        ParseErrorDetail { kind, message: message.to_string() }
    }
}

/// An error of the engine.
#[derive(Clone, Debug, PartialEq, Eq)]
#[non_exhaustive]
pub enum CqelsError {
    /// A query could not be parsed.
    Parse(ParseErrorDetail),
    /// A query could not be evaluated.
    Evaluation { message: String },
}

/// The kind of an error and its message, as a detail.
pub open spec fn detail_of(err: ParseError) -> ParseErrorDetail {
    match err {
        ParseError::Syntax(message) => ParseErrorDetail { kind: ParseErrorKind::Syntax, message },
        ParseError::Semantic(message) => ParseErrorDetail { kind: ParseErrorKind::Semantic, message },
        ParseError::Unsupported(message) => ParseErrorDetail { kind: ParseErrorKind::Unsupported, message },
    }
}

impl From<ParseError> for ParseErrorDetail {
    fn from(err: ParseError) -> (r: Self) {
        match err {
            ParseError::Syntax(message) => ParseErrorDetail { kind: ParseErrorKind::Syntax, message },
            ParseError::Semantic(message) => ParseErrorDetail { kind: ParseErrorKind::Semantic, message },
            ParseError::Unsupported(message) => ParseErrorDetail { kind: ParseErrorKind::Unsupported, message },
        }
    }
}

impl vstd::std_specs::convert::FromSpecImpl<ParseError> for ParseErrorDetail {
    open spec fn obeys_from_spec() -> bool {
        true
    }

    open spec fn from_spec(err: ParseError) -> Self {
        detail_of(err)
    }
}

impl From<ParseError> for CqelsError {
    fn from(err: ParseError) -> (r: Self) {
        CqelsError::Parse(ParseErrorDetail::from(err))
    }
}

impl vstd::std_specs::convert::FromSpecImpl<ParseError> for CqelsError {
    open spec fn obeys_from_spec() -> bool {
        true
    }

    open spec fn from_spec(err: ParseError) -> Self {
        CqelsError::Parse(detail_of(err))
    }
}

pub type ParseResult<T> = Result<T, ParseError>;

/// A syntax error.
pub open spec fn syntax(message: Seq<char>) -> ErrorView {
    ErrorView { kind: ParseErrorKind::Syntax, message }
}

pub fn syntax_error(message: &str) -> (r: ParseError)
    ensures
        r@ == syntax(message@),
{
    ParseError::Syntax(message.to_string())
}

/// A result stands for what is expected.
pub open spec fn agrees<T: View>(r: ParseResult<T>, expected: Result<T::V, ErrorView>) -> bool {
    match (r, expected) {
        (Ok(t), Ok(v)) => t@ == v,
        (Err(e), Err(v)) => e@ == v,
        _ => false,
    }
}

} // verus!
