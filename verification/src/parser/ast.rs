//! Syntax trees of the query languages.
use vstd::prelude::*;

pub use crate::parser::ast_cypher::{
    CypherPattern, CypherQueryDefinition, CypherQueryDefinitionBuilder, CypherQueryType,
    CypherStreamDefinition, FilterOperator, NodePattern, PathLength, PatternGroup, PatternSource,
    PropertyFilter, RelDirection, RelationshipPattern, ReturnExpression,
};

use crate::names::{same_name, text, NameMap};
use crate::text::{append_text, decimal_digits, digits};

verus! {

/// What the elements of a listing stand for.
pub open spec fn views<T: View>(s: Seq<T>) -> Seq<T::V> {
    s.map_values(|t: T| t@)
}

/// The texts of a listing.
pub open spec fn texts(s: Seq<String>) -> Seq<Seq<char>> {
    s.map_values(text())
}

pub open spec fn opt_text(s: Option<String>) -> Option<Seq<char>> {
    match s {
        Some(t) => Some(t@),
        None => None,
    }
}

/// The texts of a map.
pub open spec fn text_map(m: Map<Seq<char>, String>) -> Map<Seq<char>, Seq<char>> {
    Map::new(|k: Seq<char>| m.contains_key(k), |k: Seq<char>| m[k]@)
}

pub(crate) proof fn lemma_views_push<T: View>(s: Seq<T>, t: T)
    ensures
        views(s.push(t)) == views(s).push(t@),
{
    assert(views(s.push(t)) =~= views(s).push(t@));
}

pub(crate) proof fn lemma_texts_push(s: Seq<String>, t: String)
    ensures
        texts(s.push(t)) == texts(s).push(t@),
{
    assert(texts(s.push(t)) =~= texts(s).push(t@));
}

pub(crate) proof fn lemma_text_map_insert(m: Map<Seq<char>, String>, k: Seq<char>, t: String)
    ensures
        text_map(m.insert(k, t)) == text_map(m).insert(k, t@),
{
    assert(text_map(m.insert(k, t)) =~= text_map(m).insert(k, t@));
}

/// A span of time in whole milliseconds.
#[derive(Clone, Copy, Debug, PartialEq, Eq, Structural)]
pub struct Duration {
    pub secs: u64,
    pub millis: u64,
}

impl Duration {
    pub fn from_secs(secs: u64) -> (r: Self)
        ensures
            r == (Duration { secs, millis: 0 }),
    {
        Duration { secs, millis: 0 }
    }

    pub fn from_millis(millis: u64) -> (r: Self)
        ensures
            r == (Duration { secs: millis / 1000, millis: millis % 1000 }),
    {
        Duration { secs: millis / 1000, millis: millis % 1000 }
    }

    /// The span in days, hours, minutes or seconds where it is a whole number
    /// of them, in milliseconds where it is less than a second.
    pub open spec fn rendered(&self) -> Seq<char> {
        let s = self.secs as nat;
        if s > 0 && s % 86400 == 0 {
            decimal_digits(s / 86400) + "d"@
        } else if s > 0 && s % 3600 == 0 {
            decimal_digits(s / 3600) + "h"@
        } else if s > 0 && s % 60 == 0 {
            decimal_digits(s / 60) + "m"@
        } else if s > 0 {
            decimal_digits(s) + "s"@
        } else {
            decimal_digits(self.millis as nat) + "ms"@
        }
    }

    pub fn to_text(&self) -> (r: String)
        ensures
            r@ == self.rendered(),
    {
        let s: u64 = self.secs;
        let (n, unit): (u64, &str) = if s > 0 && s % 86400 == 0 {
            (s / 86400, "d")
        } else if s > 0 && s % 3600 == 0 {
            (s / 3600, "h")
        } else if s > 0 && s % 60 == 0 {
            (s / 60, "m")
        } else if s > 0 {
            (s, "s")
        } else {
            (self.millis, "ms")
        };
        let mut r = digits(n);
        append_text(&mut r, unit);
        r
    }
}

/// The text of a span, or a question mark where there is none.
pub open spec fn duration_text(d: Option<Duration>) -> Seq<char> {
    match d {
        Some(d) => d.rendered(),
        None => "?"@,
    }
}

pub fn format_duration(d: Option<Duration>) -> (r: String)
    ensures
        r@ == duration_text(d),
{
    match d {
        Some(d) => d.to_text(),
        None => "?".to_string(),
    }
}

/// Kinds of windows over streams.
#[derive(Clone, Copy, Debug, PartialEq, Eq, Structural)]
#[non_exhaustive]
pub enum WindowType {
    /// Each element by itself.
    Now,
    /// A span of time.
    Range,
    /// A span of time that moves in steps.
    Slide,
    /// A number of elements.
    Triples,
    /// A number of elements that moves in steps.
    TriplesSlide,
}

impl WindowType {
    pub open spec fn rendered(&self) -> Seq<char> {
        match self {
            WindowType::Now => "NOW"@,
            WindowType::Range => "RANGE"@,
            WindowType::Slide => "SLIDE"@,
            WindowType::Triples => "TRIPLES"@,
            WindowType::TriplesSlide => "TRIPLES_SLIDE"@,
        }
    }

    pub fn to_text(&self) -> (r: String)
        ensures
            r@ == self.rendered(),
    {
        match self {
            WindowType::Now => "NOW".to_string(),
            WindowType::Range => "RANGE".to_string(),
            WindowType::Slide => "SLIDE".to_string(),
            WindowType::Triples => "TRIPLES".to_string(),
            WindowType::TriplesSlide => "TRIPLES_SLIDE".to_string(),
        }
    }
}

/// A window over a stream.
#[derive(Clone, Copy, Debug, PartialEq, Eq, Structural)]
pub struct WindowSpec {
    pub window_type: WindowType,
    pub duration: Option<Duration>,
    pub step: Option<Duration>,
    pub triple_count: Option<u64>,
    pub triple_slide: Option<u64>,
}

pub open spec fn now_window() -> WindowSpec {
    WindowSpec { window_type: WindowType::Now, duration: None, step: None, triple_count: None, triple_slide: None }
}

pub open spec fn range_window(duration: Duration) -> WindowSpec {
    WindowSpec { window_type: WindowType::Range, duration: Some(duration), ..now_window() }
}

pub open spec fn slide_window(duration: Duration, step: Duration) -> WindowSpec {
    WindowSpec { window_type: WindowType::Slide, duration: Some(duration), step: Some(step), ..now_window() }
}

pub open spec fn triples_window(count: u64) -> WindowSpec {
    WindowSpec { window_type: WindowType::Triples, triple_count: Some(count), ..now_window() }
}

pub open spec fn triples_slide_window(count: u64, slide: u64) -> WindowSpec {
    WindowSpec {
        window_type: WindowType::TriplesSlide,
        triple_count: Some(count),
        triple_slide: Some(slide),
        ..now_window()
    }
}

/// A number, or zero where there is none.
pub open spec fn or_zero(n: Option<u64>) -> nat {
    match n {
        Some(n) => n as nat,
        None => 0,
    }
}

fn unwrap_or_zero(n: Option<u64>) -> (r: u64)
    ensures
        r == or_zero(n),
{
    match n {
        Some(n) => n,
        None => 0,
    }
}

impl WindowSpec {
    pub fn now() -> (r: Self)
        ensures
            r == now_window(),
    {
        WindowSpec { window_type: WindowType::Now, duration: None, step: None, triple_count: None, triple_slide: None }
    }

    pub fn range(duration: Duration) -> (r: Self)
        ensures
            r == range_window(duration),
    {
        WindowSpec {
            window_type: WindowType::Range,
            duration: Some(duration),
            step: None,
            triple_count: None,
            triple_slide: None,
        }
    }

    pub fn slide(duration: Duration, step: Duration) -> (r: Self)
        ensures
            r == slide_window(duration, step),
    {
        WindowSpec {
            window_type: WindowType::Slide,
            duration: Some(duration),
            step: Some(step),
            triple_count: None,
            triple_slide: None,
        }
    }

    pub fn triples(count: u64) -> (r: Self)
        ensures
            r == triples_window(count),
    {
        WindowSpec {
            window_type: WindowType::Triples,
            duration: None,
            step: None,
            triple_count: Some(count),
            triple_slide: None,
        }
    }

    pub fn triples_slide(count: u64, slide: u64) -> (r: Self)
        ensures
            r == triples_slide_window(count, slide),
    {
        WindowSpec {
            window_type: WindowType::TriplesSlide,
            duration: None,
            step: None,
            triple_count: Some(count),
            triple_slide: Some(slide),
        }
    }

    /// The window as it is written in a query.
    pub open spec fn rendered(&self) -> Seq<char> {
        match self.window_type {
            WindowType::Now => "NOW"@,
            WindowType::Range => "RANGE "@ + duration_text(self.duration),
            WindowType::Slide => "SLIDE "@ + duration_text(self.duration) + " STEP "@ + duration_text(self.step),
            WindowType::Triples => "TRIPLES "@ + decimal_digits(or_zero(self.triple_count)),
            WindowType::TriplesSlide => "TRIPLES "@ + decimal_digits(or_zero(self.triple_count)) + " SLIDE "@
                + decimal_digits(or_zero(self.triple_slide)),
        }
    }

    pub fn to_text(&self) -> (r: String)
        ensures
            r@ == self.rendered(),
    {
        match self.window_type {
            WindowType::Now => "NOW".to_string(),
            WindowType::Range => {
                let mut r = "RANGE ".to_string();
                append_text(&mut r, format_duration(self.duration).as_str());
                r
            },
            WindowType::Slide => {
                let mut r = "SLIDE ".to_string();
                append_text(&mut r, format_duration(self.duration).as_str());
                append_text(&mut r, " STEP ");
                append_text(&mut r, format_duration(self.step).as_str());
                r
            },
            WindowType::Triples => {
                let mut r = "TRIPLES ".to_string();
                append_text(&mut r, digits(unwrap_or_zero(self.triple_count)).as_str());
                r
            },
            WindowType::TriplesSlide => {
                let mut r = "TRIPLES ".to_string();
                append_text(&mut r, digits(unwrap_or_zero(self.triple_count)).as_str());
                append_text(&mut r, " SLIDE ");
                append_text(&mut r, digits(unwrap_or_zero(self.triple_slide)).as_str());
                r
            },
        }
    }
}

/// Sort directions.
#[derive(Clone, Copy, Debug, PartialEq, Eq, Structural)]
#[non_exhaustive]
pub enum SortDirection {
    Ascending,
    Descending,
}

/// A sort condition.
#[derive(Clone, Debug, PartialEq)]
pub struct OrderCondition {
    pub expression: String,
    pub direction: SortDirection,
}

pub struct OrderConditionView {
    pub expression: Seq<char>,
    pub direction: SortDirection,
}

impl View for OrderCondition {
    type V = OrderConditionView;

    open spec fn view(&self) -> OrderConditionView {
        OrderConditionView { expression: self.expression@, direction: self.direction }
    }
}

/// A static or named graph.
#[derive(Clone, Debug, PartialEq)]
pub struct GraphDefinition {
    pub uri: String,
    pub depth: Option<u32>,
    pub cache_duration: Option<Duration>,
}

pub struct GraphDefinitionView {
    pub uri: Seq<char>,
    pub depth: Option<u32>,
    pub cache_duration: Option<Duration>,
}

impl View for GraphDefinition {
    type V = GraphDefinitionView;

    open spec fn view(&self) -> GraphDefinitionView {
        GraphDefinitionView { uri: self.uri@, depth: self.depth, cache_duration: self.cache_duration }
    }
}

/// Aggregate functions.
#[derive(Clone, Copy, Debug, PartialEq, Eq, Structural)]
#[non_exhaustive]
pub enum AggregateFunction {
    Count,
    Sum,
    Avg,
    Min,
    Max,
    Collect,
    GroupConcat,
}

impl AggregateFunction {
    pub open spec fn rendered(&self) -> Seq<char> {
        match self {
            AggregateFunction::Count => "COUNT"@,
            AggregateFunction::Sum => "SUM"@,
            AggregateFunction::Avg => "AVG"@,
            AggregateFunction::Min => "MIN"@,
            AggregateFunction::Max => "MAX"@,
            AggregateFunction::Collect => "COLLECT"@,
            AggregateFunction::GroupConcat => "GROUP_CONCAT"@,
        }
    }

    pub fn to_text(&self) -> (r: String)
        ensures
            r@ == self.rendered(),
    {
        match self {
            AggregateFunction::Count => "COUNT".to_string(),
            AggregateFunction::Sum => "SUM".to_string(),
            AggregateFunction::Avg => "AVG".to_string(),
            AggregateFunction::Min => "MIN".to_string(),
            AggregateFunction::Max => "MAX".to_string(),
            AggregateFunction::Collect => "COLLECT".to_string(),
            AggregateFunction::GroupConcat => "GROUP_CONCAT".to_string(),
        }
    }
}

/// Kinds of CQELS-QL queries.
#[derive(Clone, Copy, Debug, PartialEq, Eq, Structural)]
#[non_exhaustive]
pub enum CqelsQueryType {
    Select,
    Construct,
    Ask,
    Describe,
}

/// How results become a stream.
#[derive(Clone, Copy, Debug, PartialEq, Eq, Structural)]
#[non_exhaustive]
pub enum StreamSemantics {
    IStream,
    DStream,
    RStream,
}

/// A stream and its window.
#[derive(Clone, Debug, PartialEq)]
pub struct CqelsStreamDefinition {
    pub name: String,
    pub window: WindowSpec,
}

/// What a stream definition says, for either language.
pub struct StreamView {
    pub name: Seq<char>,
    pub window: WindowSpec,
}

impl View for CqelsStreamDefinition {
    type V = StreamView;

    open spec fn view(&self) -> StreamView {
        StreamView { name: self.name@, window: self.window }
    }
}

impl CqelsStreamDefinition {
    pub fn root(name: String, window: WindowSpec) -> (r: Self)
        ensures
            r == (CqelsStreamDefinition { name, window }),
    {
        CqelsStreamDefinition { name, window }
    }
}

/// A window over a stream that patterns refer to by name.
#[derive(Clone, Debug, PartialEq)]
pub struct NamedWindowDefinition {
    pub iri: String,
    pub stream: String,
    pub window: WindowSpec,
}

pub struct NamedWindowView {
    pub iri: Seq<char>,
    pub stream: Seq<char>,
    pub window: WindowSpec,
}

impl View for NamedWindowDefinition {
    type V = NamedWindowView;

    open spec fn view(&self) -> NamedWindowView {
        NamedWindowView { iri: self.iri@, stream: self.stream@, window: self.window }
    }
}

/// An aggregate of the SELECT clause.
#[derive(Clone, Debug, PartialEq)]
pub struct AggregateSpec {
    pub function: AggregateFunction,
    pub argument: String,
    pub alias: String,
}

pub struct AggregateSpecView {
    pub function: AggregateFunction,
    pub argument: Seq<char>,
    pub alias: Seq<char>,
}

impl View for AggregateSpec {
    type V = AggregateSpecView;

    open spec fn view(&self) -> AggregateSpecView {
        AggregateSpecView { function: self.function, argument: self.argument@, alias: self.alias@ }
    }
}

impl AggregateSpec {
    /// Is this COUNT(*)?
    pub fn is_count_star(&self) -> (r: bool)
        ensures
            r == (self.function == AggregateFunction::Count && self.argument@ == "*"@),
    {
        self.function == AggregateFunction::Count && same_name(self.argument.as_str(), "*")
    }

    pub open spec fn rendered(&self) -> Seq<char> {
        self.function.rendered() + "("@ + self.argument@ + ") AS "@ + self.alias@
    }

    pub fn to_text(&self) -> (r: String)
        ensures
            r@ == self.rendered(),
    {
        let mut r = self.function.to_text();
        append_text(&mut r, "(");
        append_text(&mut r, self.argument.as_str());
        append_text(&mut r, ") AS ");
        append_text(&mut r, self.alias.as_str());
        r
    }
}

/// A triple pattern.
#[derive(Clone, Debug, PartialEq)]
pub struct TriplePattern {
    pub subject: String,
    pub predicate: String,
    pub object: String,
}

pub struct TripleView {
    pub subject: Seq<char>,
    pub predicate: Seq<char>,
    pub object: Seq<char>,
}

impl View for TriplePattern {
    type V = TripleView;

    open spec fn view(&self) -> TripleView {
        TripleView { subject: self.subject@, predicate: self.predicate@, object: self.object@ }
    }
}

/// A term that starts like a variable.
pub open spec fn variable_term(term: Seq<char>) -> bool {
    term.len() > 0 && (term[0] == '?' || term[0] == '$')
}

impl TriplePattern {
    pub fn is_variable(term: &str) -> (r: bool)
        ensures
            r == variable_term(term@),
    {
        for c in iter: term.chars()
            invariant
                iter.seq() == term@,
                iter.index() == 0,
        {
            return c == '?' || c == '$';
        }
        false
    }

    pub fn has_variable_subject(&self) -> (r: bool)
        ensures
            r == variable_term(self.subject@),
    {
        Self::is_variable(self.subject.as_str())
    }

    pub fn has_variable_predicate(&self) -> (r: bool)
        ensures
            r == variable_term(self.predicate@),
    {
        Self::is_variable(self.predicate.as_str())
    }

    pub fn has_variable_object(&self) -> (r: bool)
        ensures
            r == variable_term(self.object@),
    {
        Self::is_variable(self.object.as_str())
    }

    pub open spec fn rendered(&self) -> Seq<char> {
        self.subject@ + " "@ + self.predicate@ + " "@ + self.object@
    }

    pub fn to_text(&self) -> (r: String)
        ensures
            r@ == self.rendered(),
    {
        let mut r = self.subject.clone();
        append_text(&mut r, " ");
        append_text(&mut r, self.predicate.as_str());
        append_text(&mut r, " ");
        append_text(&mut r, self.object.as_str());
        r
    }
}

/// No bound on the occurrences of an event.
pub const SEQ_UNBOUNDED: u32 = u32::MAX;

/// One event of a sequence.
#[derive(Clone, Debug, PartialEq)]
pub struct SeqArg {
    pub variable: String,
    pub negated: bool,
    pub min_occurrences: u32,
    pub max_occurrences: u32,
    pub alias: Option<String>,
}

pub struct SeqArgView {
    pub variable: Seq<char>,
    pub negated: bool,
    pub min_occurrences: u32,
    pub max_occurrences: u32,
    pub alias: Option<Seq<char>>,
}

impl View for SeqArg {
    type V = SeqArgView;

    open spec fn view(&self) -> SeqArgView {
        SeqArgView {
            variable: self.variable@,
            negated: self.negated,
            min_occurrences: self.min_occurrences,
            max_occurrences: self.max_occurrences,
            alias: opt_text(self.alias),
        }
    }
}

impl SeqArg {
    /// Exactly once.
    pub fn is_single(&self) -> (r: bool)
        ensures
            r == (self.min_occurrences == 1 && self.max_occurrences == 1),
    {
        self.min_occurrences == 1 && self.max_occurrences == 1
    }

    pub fn is_one_or_more(&self) -> (r: bool)
        ensures
            r == (self.min_occurrences == 1 && self.max_occurrences == SEQ_UNBOUNDED),
    {
        self.min_occurrences == 1 && self.max_occurrences == SEQ_UNBOUNDED
    }

    pub fn is_zero_or_more(&self) -> (r: bool)
        ensures
            r == (self.min_occurrences == 0 && self.max_occurrences == SEQ_UNBOUNDED),
    {
        self.min_occurrences == 0 && self.max_occurrences == SEQ_UNBOUNDED
    }

    /// At most once.
    pub fn is_optional(&self) -> (r: bool)
        ensures
            r == (self.min_occurrences == 0 && self.max_occurrences == 1),
    {
        self.min_occurrences == 0 && self.max_occurrences == 1
    }
}

/// Events that occur one after the other.
#[derive(Clone, Debug, PartialEq)]
pub struct SeqConstraint {
    pub args: Vec<SeqArg>,
}

impl View for SeqConstraint {
    type V = Seq<SeqArgView>;

    open spec fn view(&self) -> Seq<SeqArgView> {
        views(self.args@)
    }
}

/// The variables of the events that are to occur.
pub open spec fn positive_variables(args: Seq<SeqArgView>) -> Seq<Seq<char>>
    decreases args.len(),
{
    if args.len() == 0 {
        Seq::empty()
    } else if args.last().negated {
        positive_variables(args.drop_last())
    } else {
        positive_variables(args.drop_last()).push(args.last().variable)
    }
}

impl SeqConstraint {
    /// The variables of the events that are to occur, in order.
    pub fn event_variables(&self) -> (r: Vec<&str>)
        ensures
            r@.map_values(|s: &str| s@) == positive_variables(self@),
    {
        let ghost args = self@;
        let mut r: Vec<&str> = Vec::new();
        let mut i: usize = 0;
        assert(r@.map_values(|s: &str| s@) =~= positive_variables(args.take(0)));
        while i < self.args.len()
            invariant
                args == views(self.args@),
                i <= self.args@.len(),
                r@.map_values(|s: &str| s@) == positive_variables(args.take(i as int)),
            decreases self.args@.len() - i,
        {
            let arg = &self.args[i];
            let ghost before = r@;
            proof {
                assert(args[i as int] == arg@);
                assert(args.take(i + 1).drop_last() =~= args.take(i as int));
            }
            if !arg.negated {
                r.push(arg.variable.as_str());
                assert(r@.map_values(|s: &str| s@) =~= before.map_values(|s: &str| s@).push(arg.variable@));
            }
            i += 1;
        }
        assert(args.take(i as int) =~= args);
        r
    }
}

/// A group of patterns in the WHERE clause.
#[derive(Debug, PartialEq)]
#[non_exhaustive]
pub enum CqelsPatternGroup {
    /// Patterns over a stream.
    Stream { source: String, patterns: Vec<TriplePattern> },
    /// Patterns over a named window.
    Window { window_iri: String, patterns: Vec<TriplePattern> },
    /// Patterns over static data.
    Static { patterns: Vec<TriplePattern> },
    /// Patterns over a named graph.
    NamedGraph { graph_uri: String, patterns: Vec<TriplePattern> },
    /// Patterns without a scope.
    Default { patterns: Vec<TriplePattern> },
    Filter { expression: String },
    Bind { expression: String, variable: String },
    Optional { groups: Vec<CqelsPatternGroup> },
    Union { left: Vec<CqelsPatternGroup>, right: Vec<CqelsPatternGroup> },
    Minus { patterns: Vec<TriplePattern> },
    /// Events that occur one after the other.
    Sequence(SeqConstraint),
}

pub enum GroupView {
    Stream { source: Seq<char>, patterns: Seq<TripleView> },
    Window { window_iri: Seq<char>, patterns: Seq<TripleView> },
    Static { patterns: Seq<TripleView> },
    NamedGraph { graph_uri: Seq<char>, patterns: Seq<TripleView> },
    Default { patterns: Seq<TripleView> },
    Filter { expression: Seq<char> },
    Bind { expression: Seq<char>, variable: Seq<char> },
    Optional { groups: Seq<GroupView> },
    Union { left: Seq<GroupView>, right: Seq<GroupView> },
    Minus { patterns: Seq<TripleView> },
    Sequence { args: Seq<SeqArgView> },
}

pub open spec fn group_view(g: CqelsPatternGroup) -> GroupView
    decreases g,
{
    match g {
        CqelsPatternGroup::Stream { source, patterns } => GroupView::Stream {
            source: source@,
            patterns: views(patterns@),
        },
        CqelsPatternGroup::Window { window_iri, patterns } => GroupView::Window {
            window_iri: window_iri@,
            patterns: views(patterns@),
        },
        CqelsPatternGroup::Static { patterns } => GroupView::Static { patterns: views(patterns@) },
        CqelsPatternGroup::NamedGraph { graph_uri, patterns } => GroupView::NamedGraph {
            graph_uri: graph_uri@,
            patterns: views(patterns@),
        },
        CqelsPatternGroup::Default { patterns } => GroupView::Default { patterns: views(patterns@) },
        CqelsPatternGroup::Filter { expression } => GroupView::Filter { expression: expression@ },
        CqelsPatternGroup::Bind { expression, variable } => GroupView::Bind {
            expression: expression@,
            variable: variable@,
        },
        CqelsPatternGroup::Optional { groups } => GroupView::Optional { groups: group_views(groups@) },
        CqelsPatternGroup::Union { left, right } => GroupView::Union {
            left: group_views(left@),
            right: group_views(right@),
        },
        CqelsPatternGroup::Minus { patterns } => GroupView::Minus { patterns: views(patterns@) },
        CqelsPatternGroup::Sequence(seq) => GroupView::Sequence { args: seq@ },
    }
}

pub open spec fn group_views(s: Seq<CqelsPatternGroup>) -> Seq<GroupView>
    decreases s,
{
    if s.len() == 0 {
        Seq::empty()
    } else {
        group_views(s.drop_last()).push(group_view(s.last()))
    }
}

pub(crate) proof fn lemma_group_views_push(s: Seq<CqelsPatternGroup>, g: CqelsPatternGroup)
    ensures
        group_views(s.push(g)) == group_views(s).push(group_view(g)),
{
    assert(s.push(g).drop_last() =~= s);
}

pub(crate) proof fn lemma_group_views_index(s: Seq<CqelsPatternGroup>, i: int)
    requires
        0 <= i < s.len(),
    ensures
        group_views(s).len() == s.len(),
        group_views(s)[i] == group_view(s[i]),
    decreases s.len(),
{
    lemma_group_views_len(s);
    if i < s.len() - 1 {
        lemma_group_views_index(s.drop_last(), i);
    } else {
        lemma_group_views_len(s.drop_last());
    }
}

pub(crate) proof fn lemma_group_views_len(s: Seq<CqelsPatternGroup>)
    ensures
        group_views(s).len() == s.len(),
    decreases s.len(),
{
    if s.len() > 0 {
        lemma_group_views_len(s.drop_last());
    }
}

impl Clone for CqelsPatternGroup {
    fn clone(&self) -> (r: Self)
        ensures
            group_view(r) == group_view(*self),
    {
        copy_group(self)
    }
}

fn copy_triples(patterns: &Vec<TriplePattern>) -> (r: Vec<TriplePattern>)
    ensures
        views(r@) == views(patterns@),
{
    let mut r: Vec<TriplePattern> = Vec::new();
    let mut i: usize = 0;
    while i < patterns.len()
        invariant
            i <= patterns@.len(),
            r@.len() == i,
            forall|j: int| 0 <= j < i ==> (#[trigger] r@[j])@ == patterns@[j]@,
        decreases patterns@.len() - i,
    {
        let p = &patterns[i];
        r.push(
            TriplePattern { subject: p.subject.clone(), predicate: p.predicate.clone(), object: p.object.clone() },
        );
        i += 1;
    }
    assert(views(r@) =~= views(patterns@));
    r
}

fn copy_args(seq: &SeqConstraint) -> (r: SeqConstraint)
    ensures
        r@ == seq@,
{
    let mut args: Vec<SeqArg> = Vec::new();
    let mut i: usize = 0;
    while i < seq.args.len()
        invariant
            i <= seq.args@.len(),
            args@.len() == i,
            forall|j: int| 0 <= j < i ==> (#[trigger] args@[j])@ == seq.args@[j]@,
        decreases seq.args@.len() - i,
    {
        let a = &seq.args[i];
        let alias: Option<String> = match &a.alias {
            Some(t) => Some(t.clone()),
            None => None,
        };
        args.push(
            SeqArg {
                variable: a.variable.clone(),
                negated: a.negated,
                min_occurrences: a.min_occurrences,
                max_occurrences: a.max_occurrences,
                alias,
            },
        );
        i += 1;
    }
    assert(views(args@) =~= views(seq.args@));
    SeqConstraint { args }
}

fn copy_groups(groups: &Vec<CqelsPatternGroup>) -> (r: Vec<CqelsPatternGroup>)
    ensures
        group_views(r@) == group_views(groups@),
    decreases groups,
{
    let mut r: Vec<CqelsPatternGroup> = Vec::new();
    let mut i: usize = 0;
    while i < groups.len()
        invariant
            i <= groups@.len(),
            group_views(r@) == group_views(groups@.take(i as int)),
        decreases groups@.len() - i,
    {
        let g = copy_group(&groups[i]);
        proof {
            lemma_group_views_push(r@, g);
            lemma_group_views_push(groups@.take(i as int), groups@[i as int]);
            assert(groups@.take(i as int).push(groups@[i as int]) =~= groups@.take(i + 1));
        }
        r.push(g);
        i += 1;
    }
    assert(groups@.take(i as int) =~= groups@);
    r
}

/// Copies a group.
pub fn copy_group(g: &CqelsPatternGroup) -> (r: CqelsPatternGroup)
    ensures
        group_view(r) == group_view(*g),
    decreases g,
{
    match g {
        CqelsPatternGroup::Stream { source, patterns } => CqelsPatternGroup::Stream {
            source: source.clone(),
            patterns: copy_triples(patterns),
        },
        CqelsPatternGroup::Window { window_iri, patterns } => CqelsPatternGroup::Window {
            window_iri: window_iri.clone(),
            patterns: copy_triples(patterns),
        },
        CqelsPatternGroup::Static { patterns } => CqelsPatternGroup::Static { patterns: copy_triples(patterns) },
        CqelsPatternGroup::NamedGraph { graph_uri, patterns } => CqelsPatternGroup::NamedGraph {
            graph_uri: graph_uri.clone(),
            patterns: copy_triples(patterns),
        },
        CqelsPatternGroup::Default { patterns } => CqelsPatternGroup::Default { patterns: copy_triples(patterns) },
        CqelsPatternGroup::Filter { expression } => CqelsPatternGroup::Filter { expression: expression.clone() },
        CqelsPatternGroup::Bind { expression, variable } => CqelsPatternGroup::Bind {
            expression: expression.clone(),
            variable: variable.clone(),
        },
        CqelsPatternGroup::Optional { groups } => CqelsPatternGroup::Optional { groups: copy_groups(groups) },
        CqelsPatternGroup::Union { left, right } => CqelsPatternGroup::Union {
            left: copy_groups(left),
            right: copy_groups(right),
        },
        CqelsPatternGroup::Minus { patterns } => CqelsPatternGroup::Minus { patterns: copy_triples(patterns) },
        CqelsPatternGroup::Sequence(seq) => CqelsPatternGroup::Sequence(copy_args(seq)),
    }
}

/// Hints for lookups.
#[derive(Clone, Debug, PartialEq)]
pub struct OperatorHints {
    pub lookup_cache: Duration,
    pub lookup_max_hops: u32,
    pub lookup_join_mode: String,
    pub lookup_join_key_variable: Option<String>,
}

pub struct OperatorHintsView {
    pub lookup_cache: Duration,
    pub lookup_max_hops: u32,
    pub lookup_join_mode: Seq<char>,
    pub lookup_join_key_variable: Option<Seq<char>>,
}

impl View for OperatorHints {
    type V = OperatorHintsView;

    open spec fn view(&self) -> OperatorHintsView {
        OperatorHintsView {
            lookup_cache: self.lookup_cache,
            lookup_max_hops: self.lookup_max_hops,
            lookup_join_mode: self.lookup_join_mode@,
            lookup_join_key_variable: opt_text(self.lookup_join_key_variable),
        }
    }
}

/// Five minutes of caching, two hops, an inner join.
pub open spec fn default_hints() -> OperatorHintsView {
    OperatorHintsView {
        lookup_cache: Duration { secs: 300, millis: 0 },
        lookup_max_hops: 2,
        lookup_join_mode: "INNER"@,
        lookup_join_key_variable: None,
    }
}

impl Default for OperatorHints {
    fn default() -> (r: Self)
        ensures
            r@ == default_hints(),
    {
        OperatorHints {
            lookup_cache: Duration::from_secs(300),
            lookup_max_hops: 2,
            lookup_join_mode: "INNER".to_string(),
            lookup_join_key_variable: None,
        }
    }
}

/// An element of the SELECT clause.
#[derive(Clone, Debug, PartialEq)]
#[non_exhaustive]
pub enum SelectElement {
    Variable(String),
    /// An expression and the variable that it is bound to.
    Expression { expression: String, alias: String },
}

pub enum SelectView {
    Variable(Seq<char>),
    Expression { expression: Seq<char>, alias: Seq<char> },
}

impl View for SelectElement {
    type V = SelectView;

    open spec fn view(&self) -> SelectView {
        match self {
            SelectElement::Variable(v) => SelectView::Variable(v@),
            SelectElement::Expression { expression, alias } => SelectView::Expression {
                expression: expression@,
                alias: alias@,
            },
        }
    }
}

/// A CQELS-QL query.
#[derive(Clone, Debug, PartialEq)]
pub struct CqelsQueryDefinition {
    pub name: Option<String>,
    pub description: Option<String>,
    pub query_type: CqelsQueryType,
    pub stream_semantics: Option<StreamSemantics>,
    pub prefixes: NameMap<String>,
    pub streams: Vec<CqelsStreamDefinition>,
    pub named_windows: Vec<NamedWindowDefinition>,
    pub static_graphs: Vec<GraphDefinition>,
    pub named_graphs: Vec<GraphDefinition>,
    pub select_elements: Vec<SelectElement>,
    pub construct_template: Vec<TriplePattern>,
    pub distinct: bool,
    pub pattern_groups: Vec<CqelsPatternGroup>,
    pub seq_constraint: Option<SeqConstraint>,
    pub aggregates: Vec<AggregateSpec>,
    pub group_by_variables: Vec<String>,
    pub order_by_conditions: Vec<OrderCondition>,
    pub limit: Option<u64>,
    pub operator_hints: OperatorHints,
}

pub struct CqelsQueryView {
    pub name: Option<Seq<char>>,
    pub description: Option<Seq<char>>,
    pub query_type: CqelsQueryType,
    pub stream_semantics: Option<StreamSemantics>,
    pub prefixes: Map<Seq<char>, Seq<char>>,
    pub streams: Seq<StreamView>,
    pub named_windows: Seq<NamedWindowView>,
    pub static_graphs: Seq<GraphDefinitionView>,
    pub named_graphs: Seq<GraphDefinitionView>,
    pub select_elements: Seq<SelectView>,
    pub construct_template: Seq<TripleView>,
    pub distinct: bool,
    pub pattern_groups: Seq<GroupView>,
    pub seq_constraint: Option<Seq<SeqArgView>>,
    pub aggregates: Seq<AggregateSpecView>,
    pub group_by_variables: Seq<Seq<char>>,
    pub order_by_conditions: Seq<OrderConditionView>,
    pub limit: Option<u64>,
    pub operator_hints: OperatorHintsView,
}

impl View for CqelsQueryDefinition {
    type V = CqelsQueryView;

    open spec fn view(&self) -> CqelsQueryView {
        CqelsQueryView {
            name: opt_text(self.name),
            description: opt_text(self.description),
            query_type: self.query_type,
            stream_semantics: self.stream_semantics,
            prefixes: text_map(self.prefixes@),
            streams: views(self.streams@),
            named_windows: views(self.named_windows@),
            static_graphs: views(self.static_graphs@),
            named_graphs: views(self.named_graphs@),
            select_elements: views(self.select_elements@),
            construct_template: views(self.construct_template@),
            distinct: self.distinct,
            pattern_groups: group_views(self.pattern_groups@),
            seq_constraint: match self.seq_constraint {
                Some(s) => Some(s@),
                None => None,
            },
            aggregates: views(self.aggregates@),
            group_by_variables: texts(self.group_by_variables@),
            order_by_conditions: views(self.order_by_conditions@),
            limit: self.limit,
            operator_hints: self.operator_hints@,
        }
    }
}

/// A SELECT query that says nothing.
pub open spec fn blank_query() -> CqelsQueryView {
    CqelsQueryView {
        name: None,
        description: None,
        query_type: CqelsQueryType::Select,
        stream_semantics: None,
        prefixes: Map::empty(),
        streams: Seq::empty(),
        named_windows: Seq::empty(),
        static_graphs: Seq::empty(),
        named_graphs: Seq::empty(),
        select_elements: Seq::empty(),
        construct_template: Seq::empty(),
        distinct: false,
        pattern_groups: Seq::empty(),
        seq_constraint: None,
        aggregates: Seq::empty(),
        group_by_variables: Seq::empty(),
        order_by_conditions: Seq::empty(),
        limit: None,
        operator_hints: default_hints(),
    }
}

impl CqelsQueryDefinition {
    pub open spec fn wf(&self) -> bool {
        self.prefixes.wf()
    }

    /// A builder that starts from a SELECT query that says nothing.
    pub fn builder() -> (r: CqelsQueryDefinitionBuilder)
        ensures
            r.wf(),
            r@ == blank_query(),
    {
        CqelsQueryDefinitionBuilder::default()
    }

    pub fn has_group_by(&self) -> (r: bool)
        ensures
            r == (self@.group_by_variables.len() > 0),
    {
        self.group_by_variables.len() > 0
    }

    pub fn has_order_by(&self) -> (r: bool)
        ensures
            r == (self@.order_by_conditions.len() > 0),
    {
        self.order_by_conditions.len() > 0
    }

    pub fn has_limit(&self) -> (r: bool)
        ensures
            r == (self@.limit is Some),
    {
        self.limit.is_some()
    }

    pub fn has_aggregates(&self) -> (r: bool)
        ensures
            r == (self@.aggregates.len() > 0),
    {
        self.aggregates.len() > 0
    }
}

/// Builds a CQELS-QL query step by step.
#[derive(Clone, Debug)]
pub struct CqelsQueryDefinitionBuilder {
    definition: CqelsQueryDefinition,
}

impl View for CqelsQueryDefinitionBuilder {
    type V = CqelsQueryView;

    closed spec fn view(&self) -> CqelsQueryView {
        self.definition@
    }
}

impl Default for CqelsQueryDefinitionBuilder {
    fn default() -> (r: Self)
        ensures
            r.wf(),
            r@ == blank_query(),
    {
        let definition = CqelsQueryDefinition {
            name: None,
            description: None,
            query_type: CqelsQueryType::Select,
            stream_semantics: None,
            prefixes: NameMap::new(),
            streams: Vec::new(),
            named_windows: Vec::new(),
            static_graphs: Vec::new(),
            named_graphs: Vec::new(),
            select_elements: Vec::new(),
            construct_template: Vec::new(),
            distinct: false,
            pattern_groups: Vec::new(),
            seq_constraint: None,
            aggregates: Vec::new(),
            group_by_variables: Vec::new(),
            order_by_conditions: Vec::new(),
            limit: None,
            operator_hints: OperatorHints::default(),
        };
        proof {
            let v = definition@;
            assert(v.prefixes =~= Map::<Seq<char>, Seq<char>>::empty());
            assert(v.streams =~= Seq::<StreamView>::empty());
            assert(v.named_windows =~= Seq::<NamedWindowView>::empty());
            assert(v.static_graphs =~= Seq::<GraphDefinitionView>::empty());
            assert(v.named_graphs =~= Seq::<GraphDefinitionView>::empty());
            assert(v.select_elements =~= Seq::<SelectView>::empty());
            assert(v.construct_template =~= Seq::<TripleView>::empty());
            assert(v.pattern_groups =~= Seq::<GroupView>::empty());
            assert(v.aggregates =~= Seq::<AggregateSpecView>::empty());
            assert(v.group_by_variables =~= Seq::<Seq<char>>::empty());
            assert(v.order_by_conditions =~= Seq::<OrderConditionView>::empty());
        }
        CqelsQueryDefinitionBuilder { definition }
    }
}

impl CqelsQueryDefinitionBuilder {
    pub closed spec fn wf(&self) -> bool {
        self.definition.wf()
    }

    /// The streams so far.
    pub fn streams(&self) -> (r: &Vec<CqelsStreamDefinition>)
        ensures
            views(r@) == self@.streams,
    {
        &self.definition.streams
    }

    pub fn static_graphs(&self) -> (r: &Vec<GraphDefinition>)
        ensures
            views(r@) == self@.static_graphs,
    {
        &self.definition.static_graphs
    }

    pub fn named_graphs(&self) -> (r: &Vec<GraphDefinition>)
        ensures
            views(r@) == self@.named_graphs,
    {
        &self.definition.named_graphs
    }

    pub fn name(self, name: &str) -> (r: Self)
        ensures
            self.wf() ==> r.wf(),
            r@ == (CqelsQueryView { name: Some(name@), ..self@ }),
    {
        let mut definition = self.definition;
        definition.name = Some(name.to_string());
        CqelsQueryDefinitionBuilder { definition }
    }

    pub fn description(self, desc: &str) -> (r: Self)
        ensures
            self.wf() ==> r.wf(),
            r@ == (CqelsQueryView { description: Some(desc@), ..self@ }),
    {
        let mut definition = self.definition;
        definition.description = Some(desc.to_string());
        CqelsQueryDefinitionBuilder { definition }
    }

    pub fn query_type(self, qt: CqelsQueryType) -> (r: Self)
        ensures
            self.wf() ==> r.wf(),
            r@ == (CqelsQueryView { query_type: qt, ..self@ }),
    {
        let mut definition = self.definition;
        definition.query_type = qt;
        CqelsQueryDefinitionBuilder { definition }
    }

    pub fn stream_semantics(self, semantics: StreamSemantics) -> (r: Self)
        ensures
            self.wf() ==> r.wf(),
            r@ == (CqelsQueryView { stream_semantics: Some(semantics), ..self@ }),
    {
        let mut definition = self.definition;
        definition.stream_semantics = Some(semantics);
        CqelsQueryDefinitionBuilder { definition }
    }

    /// Declares a prefix, in place of an earlier declaration.
    pub fn add_prefix(self, prefix: &str, uri: &str) -> (r: Self)
        requires
            self.wf(),
        ensures
            r.wf(),
            r@ == (CqelsQueryView { prefixes: self@.prefixes.insert(prefix@, uri@), ..self@ }),
    {
        let mut definition = self.definition;
        let ghost before = definition.prefixes@;
        let value = uri.to_string();
        definition.prefixes.insert(prefix, value);
        proof {
            lemma_text_map_insert(before, prefix@, value);
        }
        CqelsQueryDefinitionBuilder { definition }
    }

    pub fn add_stream(self, stream: CqelsStreamDefinition) -> (r: Self)
        ensures
            self.wf() ==> r.wf(),
            r@ == (CqelsQueryView { streams: self@.streams.push(stream@), ..self@ }),
    {
        let mut definition = self.definition;
        proof {
            lemma_views_push(definition.streams@, stream);
        }
        definition.streams.push(stream);
        CqelsQueryDefinitionBuilder { definition }
    }

    pub fn add_named_window(self, window: NamedWindowDefinition) -> (r: Self)
        ensures
            self.wf() ==> r.wf(),
            r@ == (CqelsQueryView { named_windows: self@.named_windows.push(window@), ..self@ }),
    {
        let mut definition = self.definition;
        proof {
            lemma_views_push(definition.named_windows@, window);
        }
        definition.named_windows.push(window);
        CqelsQueryDefinitionBuilder { definition }
    }

    pub fn add_static_graph(self, graph: GraphDefinition) -> (r: Self)
        ensures
            self.wf() ==> r.wf(),
            r@ == (CqelsQueryView { static_graphs: self@.static_graphs.push(graph@), ..self@ }),
    {
        let mut definition = self.definition;
        proof {
            lemma_views_push(definition.static_graphs@, graph);
        }
        definition.static_graphs.push(graph);
        CqelsQueryDefinitionBuilder { definition }
    }

    pub fn add_named_graph(self, graph: GraphDefinition) -> (r: Self)
        ensures
            self.wf() ==> r.wf(),
            r@ == (CqelsQueryView { named_graphs: self@.named_graphs.push(graph@), ..self@ }),
    {
        let mut definition = self.definition;
        proof {
            lemma_views_push(definition.named_graphs@, graph);
        }
        definition.named_graphs.push(graph);
        CqelsQueryDefinitionBuilder { definition }
    }

    pub fn add_select_element(self, elem: SelectElement) -> (r: Self)
        ensures
            self.wf() ==> r.wf(),
            r@ == (CqelsQueryView { select_elements: self@.select_elements.push(elem@), ..self@ }),
    {
        let mut definition = self.definition;
        proof {
            lemma_views_push(definition.select_elements@, elem);
        }
        definition.select_elements.push(elem);
        CqelsQueryDefinitionBuilder { definition }
    }

    pub fn add_construct_template(self, pattern: TriplePattern) -> (r: Self)
        ensures
            self.wf() ==> r.wf(),
            r@ == (CqelsQueryView { construct_template: self@.construct_template.push(pattern@), ..self@ }),
    {
        let mut definition = self.definition;
        proof {
            lemma_views_push(definition.construct_template@, pattern);
        }
        definition.construct_template.push(pattern);
        CqelsQueryDefinitionBuilder { definition }
    }

    pub fn add_aggregate(self, agg: AggregateSpec) -> (r: Self)
        ensures
            self.wf() ==> r.wf(),
            r@ == (CqelsQueryView { aggregates: self@.aggregates.push(agg@), ..self@ }),
    {
        let mut definition = self.definition;
        proof {
            lemma_views_push(definition.aggregates@, agg);
        }
        definition.aggregates.push(agg);
        CqelsQueryDefinitionBuilder { definition }
    }

    pub fn add_order_by(self, cond: OrderCondition) -> (r: Self)
        ensures
            self.wf() ==> r.wf(),
            r@ == (CqelsQueryView { order_by_conditions: self@.order_by_conditions.push(cond@), ..self@ }),
    {
        let mut definition = self.definition;
        proof {
            lemma_views_push(definition.order_by_conditions@, cond);
        }
        definition.order_by_conditions.push(cond);
        CqelsQueryDefinitionBuilder { definition }
    }

    pub fn distinct(self, d: bool) -> (r: Self)
        ensures
            self.wf() ==> r.wf(),
            r@ == (CqelsQueryView { distinct: d, ..self@ }),
    {
        let mut definition = self.definition;
        definition.distinct = d;
        CqelsQueryDefinitionBuilder { definition }
    }

    pub fn add_pattern_group(self, group: CqelsPatternGroup) -> (r: Self)
        ensures
            self.wf() ==> r.wf(),
            r@ == (CqelsQueryView { pattern_groups: self@.pattern_groups.push(group_view(group)), ..self@ }),
    {
        let mut definition = self.definition;
        proof {
            lemma_group_views_push(definition.pattern_groups@, group);
        }
        definition.pattern_groups.push(group);
        CqelsQueryDefinitionBuilder { definition }
    }

    pub fn seq_constraint(self, seq: SeqConstraint) -> (r: Self)
        ensures
            self.wf() ==> r.wf(),
            r@ == (CqelsQueryView { seq_constraint: Some(seq@), ..self@ }),
    {
        let mut definition = self.definition;
        definition.seq_constraint = Some(seq);
        CqelsQueryDefinitionBuilder { definition }
    }

    pub fn add_group_by(self, var: &str) -> (r: Self)
        ensures
            self.wf() ==> r.wf(),
            r@ == (CqelsQueryView { group_by_variables: self@.group_by_variables.push(var@), ..self@ }),
    {
        let mut definition = self.definition;
        let t = var.to_string();
        proof {
            lemma_texts_push(definition.group_by_variables@, t);
        }
        definition.group_by_variables.push(t);
        CqelsQueryDefinitionBuilder { definition }
    }

    pub fn limit(self, limit: u64) -> (r: Self)
        ensures
            self.wf() ==> r.wf(),
            r@ == (CqelsQueryView { limit: Some(limit), ..self@ }),
    {
        let mut definition = self.definition;
        definition.limit = Some(limit);
        CqelsQueryDefinitionBuilder { definition }
    }

    pub fn operator_hints(self, hints: OperatorHints) -> (r: Self)
        ensures
            self.wf() ==> r.wf(),
            r@ == (CqelsQueryView { operator_hints: hints@, ..self@ }),
    {
        let mut definition = self.definition;
        definition.operator_hints = hints;
        CqelsQueryDefinitionBuilder { definition }
    }

    pub fn build(self) -> (r: CqelsQueryDefinition)
        ensures
            self.wf() ==> r.wf(),
            r@ == self@,
    {
        self.definition
    }
}

} // verus!
