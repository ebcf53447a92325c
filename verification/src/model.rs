//! RDF terms, statements and variable bindings.
use vstd::prelude::*;

use crate::names::{same_name, NameMap};
use crate::text::append_text;

verus! {

/// An IRI.
#[derive(Clone, Debug, PartialEq, Eq, Hash)]
pub struct IriTerm {
    pub iri: String,
}

impl IriTerm {
    pub fn new(iri: &str) -> (r: Self)
        ensures
            r.iri@ == iri@,
    {
        IriTerm { iri: iri.to_string() }
    }

    /// The IRI in angle brackets.
    pub open spec fn rendered(&self) -> Seq<char> {
        seq!['<'] + self.iri@ + seq!['>']
    }

    pub fn to_text(&self) -> (r: String)
        ensures
            r@ == self.rendered(),
    {
        let mut r = String::new();
        r.push('<');
        append_text(&mut r, self.iri.as_str());
        r.push('>');
        assert(r@ =~= self.rendered());
        r
    }
}

/// A plain literal.
#[derive(Clone, Debug, PartialEq, Eq, Hash)]
pub struct LiteralTerm {
    pub value: String,
}

impl LiteralTerm {
    pub fn new(value: &str) -> (r: Self)
        ensures
            r.value@ == value@,
    {
        LiteralTerm { value: value.to_string() }
    }

    /// The value in quotes.
    pub open spec fn rendered(&self) -> Seq<char> {
        seq!['"'] + self.value@ + seq!['"']
    }

    pub fn to_text(&self) -> (r: String)
        ensures
            r@ == self.rendered(),
    {
        let mut r = String::new();
        r.push('"');
        append_text(&mut r, self.value.as_str());
        r.push('"');
        assert(r@ =~= self.rendered());
        r
    }
}

/// An RDF term: an IRI or a literal.
#[derive(Clone, Debug, PartialEq, Eq, Hash)]
pub enum Term {
    Iri(IriTerm),
    Literal(LiteralTerm),
}

impl Term {
    pub fn iri(iri: &str) -> (r: Self)
        ensures
            r@ == TermView::Iri(iri@),
    {
        Term::Iri(IriTerm::new(iri))
    }

    pub fn literal(value: &str) -> (r: Self)
        ensures
            r@ == TermView::Literal(value@),
    {
        Term::Literal(LiteralTerm::new(value))
    }

    /// The text of the IRI, or the value of the literal.
    pub fn content(&self) -> (r: &str)
        ensures
            r@ == self@.content(),
    {
        match self {
            Term::Iri(iri) => iri.iri.as_str(),
            Term::Literal(literal) => literal.value.as_str(),
        }
    }

    pub fn is_iri(&self) -> (r: bool)
        ensures
            r == (self@ is Iri),
    {
        match self {
            Term::Iri(_) => true,
            Term::Literal(_) => false,
        }
    }

    pub open spec fn rendered(&self) -> Seq<char> {
        match self {
            Term::Iri(iri) => iri.rendered(),
            Term::Literal(literal) => literal.rendered(),
        }
    }

    pub fn to_text(&self) -> (r: String)
        ensures
            r@ == self.rendered(),
    {
        match self {
            Term::Iri(iri) => iri.to_text(),
            Term::Literal(literal) => literal.to_text(),
        }
    }
}

/// What a term is.
pub enum TermView {
    Iri(Seq<char>),
    Literal(Seq<char>),
}

impl TermView {
    /// The text of the IRI, or the value of the literal.
    pub open spec fn content(self) -> Seq<char> {
        match self {
            TermView::Iri(iri) => iri,
            TermView::Literal(value) => value,
        }
    }
}

impl View for Term {
    type V = TermView;

    open spec fn view(&self) -> TermView {
        match self {
            Term::Iri(iri) => TermView::Iri(iri.iri@),
            Term::Literal(literal) => TermView::Literal(literal.value@),
        }
    }
}

/// An RDF statement.
#[derive(Clone, Debug, PartialEq, Eq, Hash)]
pub struct Statement {
    pub subject: Term,
    pub predicate: IriTerm,
    pub object: Term,
}

/// What a statement says.
pub struct StatementView {
    pub subject: TermView,
    pub predicate: Seq<char>,
    pub object: TermView,
}

impl View for Statement {
    type V = StatementView;

    open spec fn view(&self) -> StatementView {
        StatementView { subject: self.subject@, predicate: self.predicate.iri@, object: self.object@ }
    }
}

impl Statement {
    pub fn new(subject: Term, predicate: IriTerm, object: Term) -> (r: Self)
        ensures
            r == (Statement { subject, predicate, object }),
    {
        Statement { subject, predicate, object }
    }

    /// Subject, predicate and object with blanks between them.
    pub open spec fn rendered(&self) -> Seq<char> {
        self.subject.rendered() + seq![' '] + self.predicate.rendered() + seq![' '] + self.object.rendered()
    }

    pub fn to_text(&self) -> (r: String)
        ensures
            r@ == self.rendered(),
    {
        let mut r = self.subject.to_text();
        r.push(' ');
        append_text(&mut r, self.predicate.to_text().as_str());
        r.push(' ');
        append_text(&mut r, self.object.to_text().as_str());
        assert(r@ =~= self.rendered());
        r
    }
}

/// A value that a variable is bound to.
#[derive(Clone, Debug, PartialEq, Eq, Hash)]
pub enum Value {
    Null,
    Boolean(bool),
    Integer(i64),
    String(String),
}

/// What a value is, with strings as sequences of characters.
pub enum ValueView {
    Null,
    Boolean(bool),
    Integer(i64),
    Text(Seq<char>),
}

impl View for Value {
    type V = ValueView;

    open spec fn view(&self) -> ValueView {
        match self {
            Value::Null => ValueView::Null,
            Value::Boolean(b) => ValueView::Boolean(*b),
            Value::Integer(i) => ValueView::Integer(*i),
            Value::String(s) => ValueView::Text(s@),
        }
    }
}

impl Value {
    pub fn is_null(&self) -> (r: bool)
        ensures
            r == (self@ is Null),
    {
        match self {
            Value::Null => true,
            _ => false,
        }
    }

    pub fn as_integer(&self) -> (r: Option<i64>)
        ensures
            r == match self@ {
                ValueView::Integer(i) => Some(i),
                _ => None,
            },
    {
        match self {
            Value::Integer(i) => Some(*i),
            _ => None,
        }
    }

    pub fn as_boolean(&self) -> (r: Option<bool>)
        ensures
            r == match self@ {
                ValueView::Boolean(b) => Some(b),
                _ => None,
            },
    {
        match self {
            Value::Boolean(b) => Some(*b),
            _ => None,
        }
    }

    pub fn as_string(&self) -> (r: Option<&str>)
        ensures
            r is Some <==> self@ is Text,
            r is Some ==> self@ == ValueView::Text(r->0@),
    {
        match self {
            Value::String(s) => Some(s.as_str()),
            _ => None,
        }
    }
}

/// Are two values the same?
pub fn same_value(a: &Value, b: &Value) -> (r: bool)
    ensures
        r == (a@ == b@),
{
    match (a, b) {
        (Value::Null, Value::Null) => true,
        (Value::Boolean(x), Value::Boolean(y)) => *x == *y,
        (Value::Integer(x), Value::Integer(y)) => *x == *y,
        (Value::String(x), Value::String(y)) => same_name(x.as_str(), y.as_str()),
        _ => false,
    }
}

/// A solution: variables with their values, at a time.
#[derive(Clone, Debug)]
pub struct BindingSet {
    bindings: NameMap<Value>,
    timestamp: i64,
}

impl BindingSet {
    pub closed spec fn wf(&self) -> bool {
        self.bindings.wf()
    }

    pub closed spec fn values(&self) -> Map<Seq<char>, Value> {
        self.bindings@
    }

    /// The variables in order.
    pub closed spec fn variables(&self) -> Seq<Seq<char>> {
        self.bindings.keys()
    }

    pub closed spec fn time(&self) -> i64 {
        self.timestamp
    }

    pub proof fn lemma_variables(&self)
        ensures
            forall|v: Seq<char>| #[trigger] self.values().contains_key(v) <==> self.variables().contains(v),
    {
    }

    pub fn new(timestamp: i64) -> (r: Self)
        ensures
            r.wf(),
            r.values() == Map::<Seq<char>, Value>::empty(),
            r.time() == timestamp,
    {
        BindingSet { bindings: NameMap::new(), timestamp }
    }

    /// Binds a variable, in place of what it was bound to.
    pub fn insert(&mut self, variable: &str, value: Value)
        requires
            old(self).wf(),
        ensures
            final(self).wf(),
            final(self).values() == old(self).values().insert(variable@, value),
            final(self).time() == old(self).time(),
    {
        self.bindings.insert(variable, value);
    }

    pub fn get(&self, variable: &str) -> (r: Option<&Value>)
        requires
            self.wf(),
        ensures
            r is Some <==> self.values().contains_key(variable@),
            r is Some ==> *r->0 == self.values()[variable@],
    {
        self.bindings.get(variable)
    }

    pub fn contains(&self, variable: &str) -> (r: bool)
        requires
            self.wf(),
        ensures
            r == self.values().contains_key(variable@),
    {
        self.bindings.contains_key(variable)
    }

    /// Number of bound variables.
    pub fn len(&self) -> (r: usize)
        ensures
            r == self.variables().len(),
    {
        self.bindings.len()
    }

    /// The `i`-th variable in order.
    pub fn variable_at(&self, i: usize) -> (r: &str)
        requires
            i < self.variables().len(),
        ensures
            r@ == self.variables()[i as int],
    {
        self.bindings.key_at(i)
    }

    pub fn timestamp(&self) -> (r: i64)
        ensures
            r == self.time(),
    {
        self.timestamp
    }
}

} // verus!
