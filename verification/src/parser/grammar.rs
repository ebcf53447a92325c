//! The grammars of the two query languages.
use vstd::prelude::*;

use crate::parser::peg::{any_case, call, end, gap, never, one, text, word, Class, Peg};

verus! {

/// The rules of both grammars.
#[derive(Clone, Copy, Debug, PartialEq, Eq, Structural)]
pub enum Rule {
    Query,
    PrefixDecl,
    RegisterQuery,
    SelectQuery,
    ConstructQuery,
    AskQuery,
    DescribeQuery,
    ConstructTemplate,
    DescribeTarget,
    StreamSemantics,
    IstreamKw,
    DstreamKw,
    RstreamKw,
    SelectList,
    SelectElement,
    ExpressionAlias,
    FromClauses,
    FromClause,
    FromStream,
    FromNamedWindow,
    FromStatic,
    FromNamed,
    WhereClause,
    PatternGroup,
    StreamPatternGroup,
    WindowPatternGroup,
    StaticPatternGroup,
    NamedGraphPatternGroup,
    FilterConstraint,
    BindPattern,
    OptionalPattern,
    UnionPattern,
    MinusPattern,
    SeqCall,
    SeqArg,
    SeqNotKw,
    SeqQuantifier,
    TriplePattern,
    PredicateObjectList,
    ObjectList,
    Subject,
    Predicate,
    Object,
    GroupByClause,
    OrderByClause,
    OrderCondition,
    OrderFunc,
    Expression,
    Conjunction,
    Comparison,
    Sum,
    Product,
    Unary,
    Primary,
    FunctionCall,
    PrefixName,
    PrefixedName,
    IriRef,
    BlankNode,
    Variable,
    Literal,
    TimeUnit,
    Integer,
    ContinuousQuery,
    FromGraph,
    MatchClause,
    GraphPatternGroup,
    Pattern,
    PatternPart,
    AnonymousPatternPart,
    PatternElement,
    PatternElementChain,
    NodePattern,
    NodeLabels,
    NodeLabel,
    Properties,
    PropertyKeyValue,
    RelationshipPattern,
    IncomingRel,
    OutgoingRel,
    UndirectedRel,
    RelationshipDetail,
    RelationshipTypes,
    PathLength,
    GroupItem,
    HavingClause,
    PostReturnHavingClause,
    ReturnClause,
    ReturnItems,
    ReturnItem,
    OrderItem,
    Negation,
    ComparisonTail,
    WindowSpec,
    WindowNow,
    WindowRange,
    WindowTriples,
    WindowSlide,
    Duration,
    CacheSpec,
    LimitClause,
    DistinctKw,
    AscKw,
    DescKw,
    Star,
    Identifier,
    Arguments,
    StringLiteral,
    NumberLiteral,
}

/// The two query languages.
#[derive(Clone, Copy, Debug, PartialEq, Eq, Structural)]
pub enum Language {
    CqelsQl,
    CypherQl,
}

/// More rule calls than this at one place go in a circle.
pub const RULE_LIMIT: usize = 109;

/// What a rule matches.
pub open spec fn body(language: Language, rule: Rule) -> Peg {
    match language {
        Language::CqelsQl => cqels_body(rule),
        Language::CypherQl => cypher_body(rule),
    }
}

/// Rules that leave no node in the tree.
pub open spec fn silent(rule: Rule) -> bool {
    match rule {
        Rule::Conjunction
        | Rule::Negation
        | Rule::Comparison
        | Rule::ComparisonTail
        | Rule::Sum
        | Rule::Product
        | Rule::Unary
        | Rule::Primary
        | Rule::FunctionCall
        | Rule::Arguments
        | Rule::NumberLiteral => true,
        _ => false,
    }
}

/// The rules that both languages share.
pub open spec fn shared_body(rule: Rule) -> Peg {
    match rule {
        Rule::WindowSpec => call(Rule::WindowNow)
            .or(call(Rule::WindowRange))
            .or(call(Rule::WindowTriples))
            .or(call(Rule::WindowSlide)),
        Rule::WindowNow => word("NOW"),
        Rule::WindowRange => word("RANGE").lay(call(Rule::Duration)).lay_maybe(word("STEP").lay(call(Rule::Duration))),
        Rule::WindowTriples => word("TRIPLES").lay(call(Rule::Integer)).lay_maybe(word("SLIDE").lay(call(Rule::Integer))),
        Rule::WindowSlide => word("SLIDE").lay(call(Rule::Duration)).lay(word("STEP")).lay(call(Rule::Duration)),
        Rule::Duration => call(Rule::Integer).lay(call(Rule::TimeUnit)),
        Rule::CacheSpec => word("CACHE").lay(call(Rule::Duration)),
        Rule::LimitClause => word("LIMIT").lay(call(Rule::Integer)),
        Rule::DistinctKw => word("DISTINCT"),
        Rule::AscKw => word("ASC"),
        Rule::DescKw => word("DESC"),
        Rule::Star => text("*"),
        Rule::Identifier => one(Class::NameStart).chain(one(Class::NamePart).many()),
        Rule::Arguments => call(Rule::Expression).lay_many(text(",").lay(call(Rule::Expression))),
        Rule::StringLiteral => text("\"")
            .chain(text("\\").chain(one(Class::Any)).or(one(Class::NotDoubleQuote)).many())
            .chain(text("\""))
            .or(text("'").chain(text("\\").chain(one(Class::Any)).or(one(Class::NotSingleQuote)).many()).chain(text("'"))),
        Rule::NumberLiteral => one(Class::Digit)
            .chain(one(Class::Digit).many())
            .chain(text(".").chain(one(Class::Digit)).chain(one(Class::Digit).many()).maybe())
            .chain(any_case("e").chain(text("+").or(text("-")).maybe()).chain(one(Class::Digit)).chain(one(Class::Digit).many()).maybe()),
        _ => never(),
    }
}

/// The rules of CQELS-QL.
pub open spec fn cqels_body(rule: Rule) -> Peg {
    match rule {
        Rule::Query => gap()
            .chain(call(Rule::PrefixDecl).chain(gap()).many())
            .chain(call(Rule::RegisterQuery).or(call(Rule::SelectQuery)).or(call(Rule::ConstructQuery)).or(call(Rule::AskQuery)).or(call(Rule::DescribeQuery)))
            .lay(end()),
        Rule::PrefixDecl => word("PREFIX").lay(call(Rule::PrefixName)).lay(call(Rule::IriRef)),
        Rule::RegisterQuery => word("REGISTER")
            .lay(word("QUERY"))
            .lay(call(Rule::Identifier))
            .lay(word("AS"))
            .lay(call(Rule::SelectQuery)),
        Rule::SelectQuery => word("SELECT")
            .lay_maybe(call(Rule::StreamSemantics))
            .lay(call(Rule::SelectList))
            .lay(call(Rule::FromClauses))
            .lay(call(Rule::WhereClause))
            .lay_maybe(call(Rule::GroupByClause))
            .lay_maybe(call(Rule::OrderByClause))
            .lay_maybe(call(Rule::LimitClause)),
        Rule::ConstructQuery => word("CONSTRUCT")
            .lay(call(Rule::ConstructTemplate))
            .lay(call(Rule::FromClauses))
            .lay(call(Rule::WhereClause)),
        Rule::AskQuery => word("ASK").lay(call(Rule::FromClauses)).lay(call(Rule::WhereClause)),
        Rule::DescribeQuery => word("DESCRIBE")
            .lay(call(Rule::DescribeTarget))
            .lay(call(Rule::FromClauses))
            .lay(call(Rule::WhereClause)),
        Rule::ConstructTemplate => text("{").lay_many(call(Rule::TriplePattern)).lay(text("}")),
        Rule::DescribeTarget => call(Rule::Star).or(call(Rule::Variable).lay_many(call(Rule::Variable))),
        Rule::StreamSemantics => call(Rule::IstreamKw).or(call(Rule::DstreamKw)).or(call(Rule::RstreamKw)),
        Rule::IstreamKw => word("ISTREAM"),
        Rule::DstreamKw => word("DSTREAM"),
        Rule::RstreamKw => word("RSTREAM"),
        Rule::SelectList => call(Rule::DistinctKw)
            .chain(gap())
            .maybe()
            .chain(call(Rule::Star).or(call(Rule::SelectElement).lay_many(call(Rule::SelectElement)))),
        Rule::SelectElement => call(Rule::Variable).or(call(Rule::ExpressionAlias)),
        Rule::ExpressionAlias => text("(").lay(call(Rule::Expression)).lay(word("AS")).lay(call(Rule::Variable)).lay(text(")")),
        Rule::FromClauses => call(Rule::FromClause).lay_many(call(Rule::FromClause)),
        Rule::FromClause => call(Rule::FromStream)
            .or(call(Rule::FromNamedWindow))
            .or(call(Rule::FromStatic))
            .or(call(Rule::FromNamed)),
        Rule::FromStream => word("FROM")
            .lay(word("STREAM"))
            .lay(call(Rule::Identifier))
            .lay(text("["))
            .lay(call(Rule::WindowSpec))
            .lay(text("]")),
        Rule::FromNamedWindow => word("FROM")
            .lay(word("NAMED"))
            .lay(word("WINDOW"))
            .lay(call(Rule::IriRef))
            .lay(word("ON"))
            .lay(word("STREAM"))
            .lay(call(Rule::Identifier))
            .lay(text("["))
            .lay(call(Rule::WindowSpec))
            .lay(text("]")),
        Rule::FromStatic => word("FROM")
            .lay_maybe(word("STATIC"))
            .lay(call(Rule::IriRef))
            .lay_maybe(word("WITH").lay(word("DEPTH")).lay(call(Rule::Integer)))
            .lay_maybe(call(Rule::CacheSpec)),
        Rule::FromNamed => word("FROM")
            .lay(word("NAMED"))
            .lay(call(Rule::IriRef))
            .lay_maybe(word("WITH").lay(word("DEPTH")).lay(call(Rule::Integer)))
            .lay_maybe(call(Rule::CacheSpec)),
        Rule::WhereClause => word("WHERE").lay(text("{")).lay_many(call(Rule::PatternGroup)).lay(text("}")),
        Rule::PatternGroup => call(Rule::StreamPatternGroup)
            .or(call(Rule::WindowPatternGroup))
            .or(call(Rule::StaticPatternGroup))
            .or(call(Rule::NamedGraphPatternGroup))
            .or(call(Rule::FilterConstraint))
            .or(call(Rule::BindPattern))
            .or(call(Rule::OptionalPattern))
            .or(call(Rule::UnionPattern))
            .or(call(Rule::MinusPattern))
            .or(call(Rule::TriplePattern)),
        Rule::StreamPatternGroup => word("STREAM")
            .lay(call(Rule::Identifier))
            .lay(text("{"))
            .lay_many(call(Rule::OptionalPattern).or(call(Rule::UnionPattern)).or(call(Rule::TriplePattern)))
            .lay(text("}")),
        Rule::WindowPatternGroup => word("WINDOW")
            .lay(call(Rule::IriRef))
            .lay(text("{"))
            .lay_many(call(Rule::TriplePattern))
            .lay(text("}")),
        Rule::StaticPatternGroup => word("STATIC").lay(text("{")).lay_many(call(Rule::TriplePattern)).lay(text("}")),
        Rule::NamedGraphPatternGroup => word("GRAPH")
            .lay(call(Rule::IriRef))
            .lay(text("{"))
            .lay_many(call(Rule::TriplePattern))
            .lay(text("}")),
        Rule::FilterConstraint => word("FILTER").lay(text("(")).lay(call(Rule::SeqCall).or(call(Rule::Expression))).lay(text(")")),
        Rule::BindPattern => word("BIND")
            .lay(text("(")).lay(call(Rule::Expression)).lay(word("AS")).lay(call(Rule::Variable)).lay(text(")")),
        Rule::OptionalPattern => word("OPTIONAL").lay(text("{")).lay_many(call(Rule::PatternGroup)).lay(text("}")),
        Rule::UnionPattern => text("{")
            .lay(call(Rule::PatternGroup))
            .lay_many(call(Rule::PatternGroup))
            .lay(text("}"))
            .lay(word("UNION"))
            .lay(text("{"))
            .lay(call(Rule::PatternGroup))
            .lay_many(call(Rule::PatternGroup))
            .lay(text("}"))
            .lay_many(word("UNION").lay(text("{")).lay(call(Rule::PatternGroup)).lay_many(call(Rule::PatternGroup)).lay(text("}"))),
        Rule::MinusPattern => word("MINUS").lay(text("{")).lay_many(call(Rule::TriplePattern)).lay(text("}")),
        Rule::SeqCall => word("SEQ")
            .lay(text("(")).lay(call(Rule::SeqArg)).lay(text(";").lay(call(Rule::SeqArg))).lay_many(text(";").lay(call(Rule::SeqArg))).lay(text(")")),
        Rule::SeqArg => call(Rule::SeqNotKw)
            .chain(gap())
            .maybe()
            .chain(call(Rule::Variable))
            .lay_maybe(call(Rule::SeqQuantifier))
            .lay_maybe(word("AS").lay(call(Rule::Identifier))),
        Rule::SeqNotKw => word("NOT"),
        Rule::SeqQuantifier => text("{")
            .lay(call(Rule::Integer))
            .lay_maybe(text(",").lay(call(Rule::Integer)))
            .lay(text("}"))
            .or(text("+"))
            .or(text("*"))
            .or(text("?")),
        Rule::TriplePattern => call(Rule::Subject)
            .lay(call(Rule::PredicateObjectList))
            .lay_many(text(";").lay_maybe(call(Rule::PredicateObjectList)))
            .lay_maybe(text(".")),
        Rule::PredicateObjectList => call(Rule::Predicate).lay(call(Rule::ObjectList)),
        Rule::ObjectList => call(Rule::Object).lay_many(text(",").lay(call(Rule::Object))),
        Rule::Subject => call(Rule::Variable)
            .or(call(Rule::IriRef))
            .or(call(Rule::BlankNode))
            .or(call(Rule::PrefixedName)),
        Rule::Predicate => call(Rule::Variable)
            .or(call(Rule::IriRef))
            .or(call(Rule::PrefixedName))
            .or(text("a").chain(one(Class::NamePart).not())),
        Rule::Object => call(Rule::Variable)
            .or(call(Rule::IriRef))
            .or(call(Rule::BlankNode))
            .or(call(Rule::PrefixedName))
            .or(call(Rule::Literal)),
        Rule::GroupByClause => word("GROUP")
            .lay(word("BY"))
            .lay(call(Rule::Variable))
            .lay_many(text(",").chain(gap()).maybe().chain(call(Rule::Variable))),
        Rule::OrderByClause => word("ORDER")
            .lay(word("BY"))
            .lay(call(Rule::OrderCondition))
            .lay_many(text(",").chain(gap()).maybe().chain(call(Rule::OrderCondition))),
        Rule::OrderCondition => call(Rule::OrderFunc)
            .or(call(Rule::Variable).lay_maybe(call(Rule::AscKw).or(call(Rule::DescKw)))),
        Rule::OrderFunc => call(Rule::AscKw).or(call(Rule::DescKw)).lay(text("(")).lay(call(Rule::Variable)).lay(text(")")),
        Rule::Expression => call(Rule::Conjunction).lay_many(text("||").lay(call(Rule::Conjunction))),
        Rule::Conjunction => call(Rule::Comparison).lay_many(text("&&").lay(call(Rule::Comparison))),
        Rule::Comparison => call(Rule::Sum)
            .lay_maybe(text("!=").or(text("<=")).or(text(">=")).or(text("=")).or(text("<")).or(text(">")).lay(call(Rule::Sum)).or(word("NOT").chain(gap()).maybe().chain(word("IN")).lay(text("(")).lay_maybe(call(Rule::Arguments)).lay(text(")")))),
        Rule::Sum => call(Rule::Product).lay_many(text("+").or(text("-")).lay(call(Rule::Product))),
        Rule::Product => call(Rule::Unary).lay_many(text("*").or(text("/")).lay(call(Rule::Unary))),
        Rule::Unary => text("!").or(text("-")).or(text("+")).lay(call(Rule::Unary)).or(call(Rule::Primary)),
        Rule::Primary => text("(").lay(call(Rule::Expression)).lay(text(")"))
            .or(call(Rule::FunctionCall))
            .or(call(Rule::Variable))
            .or(call(Rule::IriRef))
            .or(call(Rule::PrefixedName))
            .or(call(Rule::Literal)),
        Rule::FunctionCall => call(Rule::IriRef)
            .or(call(Rule::PrefixedName))
            .or(call(Rule::Identifier))
            .lay(text("(")).lay_maybe(word("DISTINCT")).lay_maybe(text("*").or(call(Rule::Arguments))).lay_maybe(text(";").lay(word("SEPARATOR")).lay(text("=")).lay(call(Rule::StringLiteral))).lay(text(")")),
        Rule::PrefixName => one(Class::NameStart).chain(one(Class::NameInner).many()).maybe().chain(text(":")),
        Rule::PrefixedName => one(Class::NameStart)
            .chain(one(Class::NameInner).many())
            .maybe()
            .chain(text(":"))
            .chain(one(Class::NamePart).chain(text(".").many().chain(one(Class::NameInner)).many()).maybe()),
        Rule::IriRef => text("<").chain(one(Class::IriInner).many()).chain(text(">")),
        Rule::BlankNode => text("_:")
            .chain(one(Class::NamePart))
            .chain(one(Class::NameInner).many())
            .or(text("[").lay(text("]"))),
        Rule::Variable => text("?").or(text("$")).chain(one(Class::NamePart)).chain(one(Class::NamePart).many()),
        Rule::Literal => call(Rule::StringLiteral)
            .chain(text("^^").chain(call(Rule::IriRef).or(call(Rule::PrefixedName))).or(text("@").chain(one(Class::NamePart)).chain(one(Class::NameInner).many())).maybe())
            .or(text("+").or(text("-")).maybe().chain(call(Rule::NumberLiteral)))
            .or(word("true"))
            .or(word("false")),
        Rule::TimeUnit => text("ms").or(text("s")).or(text("m")).or(text("h")).or(text("d")),
        Rule::Integer => one(Class::Digit).chain(one(Class::Digit).many()),
        _ => shared_body(rule),
    }
}

/// The rules of CypherQL.
pub open spec fn cypher_body(rule: Rule) -> Peg {
    match rule {
        Rule::Query => gap().chain(call(Rule::RegisterQuery).or(call(Rule::ContinuousQuery))).lay(end()),
        Rule::RegisterQuery => word("REGISTER")
            .lay(word("QUERY"))
            .lay(call(Rule::Identifier))
            .lay(word("AS"))
            .lay(call(Rule::ContinuousQuery)),
        Rule::ContinuousQuery => call(Rule::FromClauses)
            .lay(call(Rule::MatchClause))
            .lay_maybe(call(Rule::WhereClause))
            .lay_maybe(call(Rule::GroupByClause))
            .lay_maybe(call(Rule::HavingClause))
            .lay(call(Rule::ReturnClause))
            .lay_maybe(call(Rule::PostReturnHavingClause))
            .lay_maybe(call(Rule::OrderByClause))
            .lay_maybe(call(Rule::LimitClause)),
        Rule::FromClauses => call(Rule::FromClause).lay_many(call(Rule::FromClause)),
        Rule::FromClause => call(Rule::FromStream).or(call(Rule::FromStatic)).or(call(Rule::FromGraph)),
        Rule::FromStream => word("FROM")
            .lay(word("STREAM"))
            .lay(call(Rule::Identifier))
            .lay(text("["))
            .lay(call(Rule::WindowSpec))
            .lay(text("]")),
        Rule::FromStatic => word("FROM")
            .lay(word("STATIC"))
            .lay(call(Rule::StringLiteral))
            .lay_maybe(word("WITH").lay(word("DEPTH")).lay(call(Rule::Integer)))
            .lay_maybe(call(Rule::CacheSpec)),
        Rule::FromGraph => word("FROM")
            .lay(word("GRAPH"))
            .lay(call(Rule::StringLiteral))
            .lay_maybe(word("WITH").lay(word("DEPTH")).lay(call(Rule::Integer)))
            .lay_maybe(call(Rule::CacheSpec)),
        Rule::MatchClause => word("MATCH").lay(call(Rule::PatternGroup)).lay_many(text(",").lay(call(Rule::PatternGroup))),
        Rule::PatternGroup => call(Rule::StreamPatternGroup)
            .or(call(Rule::StaticPatternGroup))
            .or(call(Rule::GraphPatternGroup))
            .or(call(Rule::Pattern)),
        Rule::StreamPatternGroup => word("STREAM")
            .lay(call(Rule::Identifier))
            .lay(text("{"))
            .lay(call(Rule::Pattern))
            .lay(text("}")),
        Rule::StaticPatternGroup => word("STATIC").lay(text("{")).lay(call(Rule::Pattern)).lay(text("}")),
        Rule::GraphPatternGroup => word("GRAPH")
            .lay(call(Rule::StringLiteral))
            .lay(text("{"))
            .lay(call(Rule::Pattern))
            .lay(text("}")),
        Rule::Pattern => call(Rule::PatternPart).lay_many(text(",").lay(call(Rule::PatternPart))),
        Rule::PatternPart => call(Rule::Identifier)
            .lay(text("="))
            .chain(gap())
            .maybe()
            .chain(call(Rule::AnonymousPatternPart)),
        Rule::AnonymousPatternPart => call(Rule::PatternElement),
        Rule::PatternElement => call(Rule::NodePattern)
            .lay_many(call(Rule::PatternElementChain))
            .or(text("(").lay(call(Rule::PatternElement)).lay(text(")"))),
        Rule::PatternElementChain => call(Rule::RelationshipPattern).lay(call(Rule::NodePattern)),
        Rule::NodePattern => text("(").lay_maybe(call(Rule::Identifier)).lay_maybe(call(Rule::NodeLabels)).lay_maybe(call(Rule::Properties)).lay(text(")")),
        Rule::NodeLabels => call(Rule::NodeLabel).lay_many(call(Rule::NodeLabel)),
        Rule::NodeLabel => text(":").lay(call(Rule::Identifier)),
        Rule::Properties => text("{")
            .lay_maybe(call(Rule::PropertyKeyValue).lay_many(text(",").lay(call(Rule::PropertyKeyValue))))
            .lay(text("}")),
        Rule::PropertyKeyValue => call(Rule::Identifier).lay(text(":")).lay(call(Rule::Expression)),
        Rule::RelationshipPattern => call(Rule::IncomingRel).or(call(Rule::OutgoingRel)).or(call(Rule::UndirectedRel)),
        Rule::IncomingRel => text("<").lay(text("-")).lay_maybe(call(Rule::RelationshipDetail)).lay(text("-")),
        Rule::OutgoingRel => text("-").lay_maybe(call(Rule::RelationshipDetail)).lay(text("-")).lay(text(">")),
        Rule::UndirectedRel => text("-").lay_maybe(call(Rule::RelationshipDetail)).lay(text("-")),
        Rule::RelationshipDetail => text("[")
            .lay_maybe(call(Rule::Identifier))
            .lay_maybe(call(Rule::RelationshipTypes))
            .lay_maybe(call(Rule::PathLength))
            .lay_maybe(call(Rule::Properties))
            .lay(text("]")),
        Rule::RelationshipTypes => text(":")
            .lay(call(Rule::Identifier))
            .lay_many(text("|").lay_maybe(text(":")).lay(call(Rule::Identifier))),
        Rule::PathLength => text("*")
            .lay_maybe(call(Rule::Integer).lay_maybe(text("..").lay_maybe(call(Rule::Integer))).or(text("..").lay_maybe(call(Rule::Integer)))),
        Rule::WhereClause => word("WHERE").lay(call(Rule::Expression)),
        Rule::GroupByClause => word("GROUP")
            .lay(word("BY"))
            .lay(call(Rule::GroupItem))
            .lay_many(text(",").lay(call(Rule::GroupItem))),
        Rule::GroupItem => call(Rule::Expression),
        Rule::HavingClause => word("HAVING").lay(call(Rule::Expression)),
        Rule::PostReturnHavingClause => word("HAVING").lay(call(Rule::Expression)),
        Rule::ReturnClause => word("RETURN").lay_maybe(call(Rule::DistinctKw)).lay(call(Rule::ReturnItems)),
        Rule::ReturnItems => call(Rule::ReturnItem).lay_many(text(",").lay(call(Rule::ReturnItem))),
        Rule::ReturnItem => call(Rule::Expression).or(call(Rule::Star)).lay_maybe(word("AS").lay(call(Rule::Identifier))),
        Rule::OrderByClause => word("ORDER")
            .lay(word("BY"))
            .lay(call(Rule::OrderItem))
            .lay_many(text(",").lay(call(Rule::OrderItem))),
        Rule::OrderItem => call(Rule::Expression).lay_maybe(call(Rule::AscKw).or(call(Rule::DescKw))),
        Rule::Expression => call(Rule::Conjunction).lay_many(word("OR").or(word("XOR")).lay(call(Rule::Conjunction))),
        Rule::Conjunction => call(Rule::Negation).lay_many(word("AND").lay(call(Rule::Negation))),
        Rule::Negation => word("NOT").lay(call(Rule::Negation)).or(call(Rule::Comparison)),
        Rule::Comparison => call(Rule::Sum).lay_many(call(Rule::ComparisonTail)),
        Rule::ComparisonTail => text("<>")
            .or(text("<="))
            .or(text(">="))
            .or(text("="))
            .or(text("<"))
            .or(text(">"))
            .or(word("CONTAINS"))
            .or(word("STARTS").lay(word("WITH")))
            .or(word("ENDS").lay(word("WITH")))
            .or(word("IN"))
            .lay(call(Rule::Sum))
            .or(word("IS").lay_maybe(word("NOT")).lay(word("NULL"))),
        Rule::Sum => call(Rule::Product).lay_many(text("+").or(text("-")).lay(call(Rule::Product))),
        Rule::Product => call(Rule::Unary).lay_many(text("*").or(text("/")).or(text("%")).lay(call(Rule::Unary))),
        Rule::Unary => text("-")
            .or(text("+"))
            .lay(call(Rule::Unary))
            .or(call(Rule::Primary).lay_many(text(".").lay(call(Rule::Identifier)))),
        Rule::Primary => text("(").lay(call(Rule::Expression)).lay(text(")"))
            .or(text("[").lay_maybe(call(Rule::Arguments)).lay(text("]")))
            .or(call(Rule::StringLiteral))
            .or(call(Rule::NumberLiteral))
            .or(call(Rule::FunctionCall))
            .or(text("$").chain(call(Rule::Identifier)))
            .or(call(Rule::Identifier)),
        Rule::FunctionCall => call(Rule::Identifier)
            .lay(text("(")).lay_maybe(word("DISTINCT")).lay_maybe(text("*").or(call(Rule::Arguments))).lay(text(")")),
        Rule::TimeUnit => any_case("ms").or(any_case("s")).or(any_case("m")).or(any_case("h")).or(any_case("d")),
        Rule::Integer => one(Class::Digit).chain(one(Class::Digit).many()),
        _ => shared_body(rule),
    }
}

/// Builds what a rule matches.
pub fn build(language: Language, rule: Rule) -> (r: Peg)
    ensures
        r == body(language, rule),
{
    match language {
        Language::CqelsQl => build_cqels(rule),
        Language::CypherQl => build_cypher(rule),
    }
}

pub fn is_silent(rule: Rule) -> (r: bool)
    ensures
        r == silent(rule),
{
    match rule {
        Rule::Conjunction
        | Rule::Negation
        | Rule::Comparison
        | Rule::ComparisonTail
        | Rule::Sum
        | Rule::Product
        | Rule::Unary
        | Rule::Primary
        | Rule::FunctionCall
        | Rule::Arguments
        | Rule::NumberLiteral => true,
        _ => false,
    }
}

fn build_shared(rule: Rule) -> (r: Peg)
    ensures
        r == shared_body(rule),
{
    match rule {
        Rule::WindowSpec => call(Rule::WindowNow)
            .or(call(Rule::WindowRange))
            .or(call(Rule::WindowTriples))
            .or(call(Rule::WindowSlide)),
        Rule::WindowNow => word("NOW"),
        Rule::WindowRange => word("RANGE").lay(call(Rule::Duration)).lay_maybe(word("STEP").lay(call(Rule::Duration))),
        Rule::WindowTriples => word("TRIPLES").lay(call(Rule::Integer)).lay_maybe(word("SLIDE").lay(call(Rule::Integer))),
        Rule::WindowSlide => word("SLIDE").lay(call(Rule::Duration)).lay(word("STEP")).lay(call(Rule::Duration)),
        Rule::Duration => call(Rule::Integer).lay(call(Rule::TimeUnit)),
        Rule::CacheSpec => word("CACHE").lay(call(Rule::Duration)),
        Rule::LimitClause => word("LIMIT").lay(call(Rule::Integer)),
        Rule::DistinctKw => word("DISTINCT"),
        Rule::AscKw => word("ASC"),
        Rule::DescKw => word("DESC"),
        Rule::Star => text("*"),
        Rule::Identifier => one(Class::NameStart).chain(one(Class::NamePart).many()),
        Rule::Arguments => call(Rule::Expression).lay_many(text(",").lay(call(Rule::Expression))),
        Rule::StringLiteral => text("\"")
            .chain(text("\\").chain(one(Class::Any)).or(one(Class::NotDoubleQuote)).many())
            .chain(text("\""))
            .or(text("'").chain(text("\\").chain(one(Class::Any)).or(one(Class::NotSingleQuote)).many()).chain(text("'"))),
        Rule::NumberLiteral => one(Class::Digit)
            .chain(one(Class::Digit).many())
            .chain(text(".").chain(one(Class::Digit)).chain(one(Class::Digit).many()).maybe())
            .chain(any_case("e").chain(text("+").or(text("-")).maybe()).chain(one(Class::Digit)).chain(one(Class::Digit).many()).maybe()),
        _ => never(),
    }
}

fn build_cqels(rule: Rule) -> (r: Peg)
    ensures
        r == cqels_body(rule),
{
    match rule {
        Rule::Query => gap()
            .chain(call(Rule::PrefixDecl).chain(gap()).many())
            .chain(call(Rule::RegisterQuery).or(call(Rule::SelectQuery)).or(call(Rule::ConstructQuery)).or(call(Rule::AskQuery)).or(call(Rule::DescribeQuery)))
            .lay(end()),
        Rule::PrefixDecl => word("PREFIX").lay(call(Rule::PrefixName)).lay(call(Rule::IriRef)),
        Rule::RegisterQuery => word("REGISTER")
            .lay(word("QUERY"))
            .lay(call(Rule::Identifier))
            .lay(word("AS"))
            .lay(call(Rule::SelectQuery)),
        Rule::SelectQuery => word("SELECT")
            .lay_maybe(call(Rule::StreamSemantics))
            .lay(call(Rule::SelectList))
            .lay(call(Rule::FromClauses))
            .lay(call(Rule::WhereClause))
            .lay_maybe(call(Rule::GroupByClause))
            .lay_maybe(call(Rule::OrderByClause))
            .lay_maybe(call(Rule::LimitClause)),
        Rule::ConstructQuery => word("CONSTRUCT")
            .lay(call(Rule::ConstructTemplate))
            .lay(call(Rule::FromClauses))
            .lay(call(Rule::WhereClause)),
        Rule::AskQuery => word("ASK").lay(call(Rule::FromClauses)).lay(call(Rule::WhereClause)),
        Rule::DescribeQuery => word("DESCRIBE")
            .lay(call(Rule::DescribeTarget))
            .lay(call(Rule::FromClauses))
            .lay(call(Rule::WhereClause)),
        Rule::ConstructTemplate => text("{").lay_many(call(Rule::TriplePattern)).lay(text("}")),
        Rule::DescribeTarget => call(Rule::Star).or(call(Rule::Variable).lay_many(call(Rule::Variable))),
        Rule::StreamSemantics => call(Rule::IstreamKw).or(call(Rule::DstreamKw)).or(call(Rule::RstreamKw)),
        Rule::IstreamKw => word("ISTREAM"),
        Rule::DstreamKw => word("DSTREAM"),
        Rule::RstreamKw => word("RSTREAM"),
        Rule::SelectList => call(Rule::DistinctKw)
            .chain(gap())
            .maybe()
            .chain(call(Rule::Star).or(call(Rule::SelectElement).lay_many(call(Rule::SelectElement)))),
        Rule::SelectElement => call(Rule::Variable).or(call(Rule::ExpressionAlias)),
        Rule::ExpressionAlias => text("(").lay(call(Rule::Expression)).lay(word("AS")).lay(call(Rule::Variable)).lay(text(")")),
        Rule::FromClauses => call(Rule::FromClause).lay_many(call(Rule::FromClause)),
        Rule::FromClause => call(Rule::FromStream)
            .or(call(Rule::FromNamedWindow))
            .or(call(Rule::FromStatic))
            .or(call(Rule::FromNamed)),
        Rule::FromStream => word("FROM")
            .lay(word("STREAM"))
            .lay(call(Rule::Identifier))
            .lay(text("["))
            .lay(call(Rule::WindowSpec))
            .lay(text("]")),
        Rule::FromNamedWindow => word("FROM")
            .lay(word("NAMED"))
            .lay(word("WINDOW"))
            .lay(call(Rule::IriRef))
            .lay(word("ON"))
            .lay(word("STREAM"))
            .lay(call(Rule::Identifier))
            .lay(text("["))
            .lay(call(Rule::WindowSpec))
            .lay(text("]")),
        Rule::FromStatic => word("FROM")
            .lay_maybe(word("STATIC"))
            .lay(call(Rule::IriRef))
            .lay_maybe(word("WITH").lay(word("DEPTH")).lay(call(Rule::Integer)))
            .lay_maybe(call(Rule::CacheSpec)),
        Rule::FromNamed => word("FROM")
            .lay(word("NAMED"))
            .lay(call(Rule::IriRef))
            .lay_maybe(word("WITH").lay(word("DEPTH")).lay(call(Rule::Integer)))
            .lay_maybe(call(Rule::CacheSpec)),
        Rule::WhereClause => word("WHERE").lay(text("{")).lay_many(call(Rule::PatternGroup)).lay(text("}")),
        Rule::PatternGroup => call(Rule::StreamPatternGroup)
            .or(call(Rule::WindowPatternGroup))
            .or(call(Rule::StaticPatternGroup))
            .or(call(Rule::NamedGraphPatternGroup))
            .or(call(Rule::FilterConstraint))
            .or(call(Rule::BindPattern))
            .or(call(Rule::OptionalPattern))
            .or(call(Rule::UnionPattern))
            .or(call(Rule::MinusPattern))
            .or(call(Rule::TriplePattern)),
        Rule::StreamPatternGroup => word("STREAM")
            .lay(call(Rule::Identifier))
            .lay(text("{"))
            .lay_many(call(Rule::OptionalPattern).or(call(Rule::UnionPattern)).or(call(Rule::TriplePattern)))
            .lay(text("}")),
        Rule::WindowPatternGroup => word("WINDOW")
            .lay(call(Rule::IriRef))
            .lay(text("{"))
            .lay_many(call(Rule::TriplePattern))
            .lay(text("}")),
        Rule::StaticPatternGroup => word("STATIC").lay(text("{")).lay_many(call(Rule::TriplePattern)).lay(text("}")),
        Rule::NamedGraphPatternGroup => word("GRAPH")
            .lay(call(Rule::IriRef))
            .lay(text("{"))
            .lay_many(call(Rule::TriplePattern))
            .lay(text("}")),
        Rule::FilterConstraint => word("FILTER").lay(text("(")).lay(call(Rule::SeqCall).or(call(Rule::Expression))).lay(text(")")),
        Rule::BindPattern => word("BIND")
            .lay(text("(")).lay(call(Rule::Expression)).lay(word("AS")).lay(call(Rule::Variable)).lay(text(")")),
        Rule::OptionalPattern => word("OPTIONAL").lay(text("{")).lay_many(call(Rule::PatternGroup)).lay(text("}")),
        Rule::UnionPattern => text("{")
            .lay(call(Rule::PatternGroup))
            .lay_many(call(Rule::PatternGroup))
            .lay(text("}"))
            .lay(word("UNION"))
            .lay(text("{"))
            .lay(call(Rule::PatternGroup))
            .lay_many(call(Rule::PatternGroup))
            .lay(text("}"))
            .lay_many(word("UNION").lay(text("{")).lay(call(Rule::PatternGroup)).lay_many(call(Rule::PatternGroup)).lay(text("}"))),
        Rule::MinusPattern => word("MINUS").lay(text("{")).lay_many(call(Rule::TriplePattern)).lay(text("}")),
        Rule::SeqCall => word("SEQ")
            .lay(text("(")).lay(call(Rule::SeqArg)).lay(text(";").lay(call(Rule::SeqArg))).lay_many(text(";").lay(call(Rule::SeqArg))).lay(text(")")),
        Rule::SeqArg => call(Rule::SeqNotKw)
            .chain(gap())
            .maybe()
            .chain(call(Rule::Variable))
            .lay_maybe(call(Rule::SeqQuantifier))
            .lay_maybe(word("AS").lay(call(Rule::Identifier))),
        Rule::SeqNotKw => word("NOT"),
        Rule::SeqQuantifier => text("{")
            .lay(call(Rule::Integer))
            .lay_maybe(text(",").lay(call(Rule::Integer)))
            .lay(text("}"))
            .or(text("+"))
            .or(text("*"))
            .or(text("?")),
        Rule::TriplePattern => call(Rule::Subject)
            .lay(call(Rule::PredicateObjectList))
            .lay_many(text(";").lay_maybe(call(Rule::PredicateObjectList)))
            .lay_maybe(text(".")),
        Rule::PredicateObjectList => call(Rule::Predicate).lay(call(Rule::ObjectList)),
        Rule::ObjectList => call(Rule::Object).lay_many(text(",").lay(call(Rule::Object))),
        Rule::Subject => call(Rule::Variable)
            .or(call(Rule::IriRef))
            .or(call(Rule::BlankNode))
            .or(call(Rule::PrefixedName)),
        Rule::Predicate => call(Rule::Variable)
            .or(call(Rule::IriRef))
            .or(call(Rule::PrefixedName))
            .or(text("a").chain(one(Class::NamePart).not())),
        Rule::Object => call(Rule::Variable)
            .or(call(Rule::IriRef))
            .or(call(Rule::BlankNode))
            .or(call(Rule::PrefixedName))
            .or(call(Rule::Literal)),
        Rule::GroupByClause => word("GROUP")
            .lay(word("BY"))
            .lay(call(Rule::Variable))
            .lay_many(text(",").chain(gap()).maybe().chain(call(Rule::Variable))),
        Rule::OrderByClause => word("ORDER")
            .lay(word("BY"))
            .lay(call(Rule::OrderCondition))
            .lay_many(text(",").chain(gap()).maybe().chain(call(Rule::OrderCondition))),
        Rule::OrderCondition => call(Rule::OrderFunc)
            .or(call(Rule::Variable).lay_maybe(call(Rule::AscKw).or(call(Rule::DescKw)))),
        Rule::OrderFunc => call(Rule::AscKw).or(call(Rule::DescKw)).lay(text("(")).lay(call(Rule::Variable)).lay(text(")")),
        Rule::Expression => call(Rule::Conjunction).lay_many(text("||").lay(call(Rule::Conjunction))),
        Rule::Conjunction => call(Rule::Comparison).lay_many(text("&&").lay(call(Rule::Comparison))),
        Rule::Comparison => call(Rule::Sum)
            .lay_maybe(text("!=").or(text("<=")).or(text(">=")).or(text("=")).or(text("<")).or(text(">")).lay(call(Rule::Sum)).or(word("NOT").chain(gap()).maybe().chain(word("IN")).lay(text("(")).lay_maybe(call(Rule::Arguments)).lay(text(")")))),
        Rule::Sum => call(Rule::Product).lay_many(text("+").or(text("-")).lay(call(Rule::Product))),
        Rule::Product => call(Rule::Unary).lay_many(text("*").or(text("/")).lay(call(Rule::Unary))),
        Rule::Unary => text("!").or(text("-")).or(text("+")).lay(call(Rule::Unary)).or(call(Rule::Primary)),
        Rule::Primary => text("(").lay(call(Rule::Expression)).lay(text(")"))
            .or(call(Rule::FunctionCall))
            .or(call(Rule::Variable))
            .or(call(Rule::IriRef))
            .or(call(Rule::PrefixedName))
            .or(call(Rule::Literal)),
        Rule::FunctionCall => call(Rule::IriRef)
            .or(call(Rule::PrefixedName))
            .or(call(Rule::Identifier))
            .lay(text("(")).lay_maybe(word("DISTINCT")).lay_maybe(text("*").or(call(Rule::Arguments))).lay_maybe(text(";").lay(word("SEPARATOR")).lay(text("=")).lay(call(Rule::StringLiteral))).lay(text(")")),
        Rule::PrefixName => one(Class::NameStart).chain(one(Class::NameInner).many()).maybe().chain(text(":")),
        Rule::PrefixedName => one(Class::NameStart)
            .chain(one(Class::NameInner).many())
            .maybe()
            .chain(text(":"))
            .chain(one(Class::NamePart).chain(text(".").many().chain(one(Class::NameInner)).many()).maybe()),
        Rule::IriRef => text("<").chain(one(Class::IriInner).many()).chain(text(">")),
        Rule::BlankNode => text("_:")
            .chain(one(Class::NamePart))
            .chain(one(Class::NameInner).many())
            .or(text("[").lay(text("]"))),
        Rule::Variable => text("?").or(text("$")).chain(one(Class::NamePart)).chain(one(Class::NamePart).many()),
        Rule::Literal => call(Rule::StringLiteral)
            .chain(text("^^").chain(call(Rule::IriRef).or(call(Rule::PrefixedName))).or(text("@").chain(one(Class::NamePart)).chain(one(Class::NameInner).many())).maybe())
            .or(text("+").or(text("-")).maybe().chain(call(Rule::NumberLiteral)))
            .or(word("true"))
            .or(word("false")),
        Rule::TimeUnit => text("ms").or(text("s")).or(text("m")).or(text("h")).or(text("d")),
        Rule::Integer => one(Class::Digit).chain(one(Class::Digit).many()),
        _ => build_shared(rule),
    }
}

fn build_cypher(rule: Rule) -> (r: Peg)
    ensures
        r == cypher_body(rule),
{
    match rule {
        Rule::Query => gap().chain(call(Rule::RegisterQuery).or(call(Rule::ContinuousQuery))).lay(end()),
        Rule::RegisterQuery => word("REGISTER")
            .lay(word("QUERY"))
            .lay(call(Rule::Identifier))
            .lay(word("AS"))
            .lay(call(Rule::ContinuousQuery)),
        Rule::ContinuousQuery => call(Rule::FromClauses)
            .lay(call(Rule::MatchClause))
            .lay_maybe(call(Rule::WhereClause))
            .lay_maybe(call(Rule::GroupByClause))
            .lay_maybe(call(Rule::HavingClause))
            .lay(call(Rule::ReturnClause))
            .lay_maybe(call(Rule::PostReturnHavingClause))
            .lay_maybe(call(Rule::OrderByClause))
            .lay_maybe(call(Rule::LimitClause)),
        Rule::FromClauses => call(Rule::FromClause).lay_many(call(Rule::FromClause)),
        Rule::FromClause => call(Rule::FromStream).or(call(Rule::FromStatic)).or(call(Rule::FromGraph)),
        Rule::FromStream => word("FROM")
            .lay(word("STREAM"))
            .lay(call(Rule::Identifier))
            .lay(text("["))
            .lay(call(Rule::WindowSpec))
            .lay(text("]")),
        Rule::FromStatic => word("FROM")
            .lay(word("STATIC"))
            .lay(call(Rule::StringLiteral))
            .lay_maybe(word("WITH").lay(word("DEPTH")).lay(call(Rule::Integer)))
            .lay_maybe(call(Rule::CacheSpec)),
        Rule::FromGraph => word("FROM")
            .lay(word("GRAPH"))
            .lay(call(Rule::StringLiteral))
            .lay_maybe(word("WITH").lay(word("DEPTH")).lay(call(Rule::Integer)))
            .lay_maybe(call(Rule::CacheSpec)),
        Rule::MatchClause => word("MATCH").lay(call(Rule::PatternGroup)).lay_many(text(",").lay(call(Rule::PatternGroup))),
        Rule::PatternGroup => call(Rule::StreamPatternGroup)
            .or(call(Rule::StaticPatternGroup))
            .or(call(Rule::GraphPatternGroup))
            .or(call(Rule::Pattern)),
        Rule::StreamPatternGroup => word("STREAM")
            .lay(call(Rule::Identifier))
            .lay(text("{"))
            .lay(call(Rule::Pattern))
            .lay(text("}")),
        Rule::StaticPatternGroup => word("STATIC").lay(text("{")).lay(call(Rule::Pattern)).lay(text("}")),
        Rule::GraphPatternGroup => word("GRAPH")
            .lay(call(Rule::StringLiteral))
            .lay(text("{"))
            .lay(call(Rule::Pattern))
            .lay(text("}")),
        Rule::Pattern => call(Rule::PatternPart).lay_many(text(",").lay(call(Rule::PatternPart))),
        Rule::PatternPart => call(Rule::Identifier)
            .lay(text("="))
            .chain(gap())
            .maybe()
            .chain(call(Rule::AnonymousPatternPart)),
        Rule::AnonymousPatternPart => call(Rule::PatternElement),
        Rule::PatternElement => call(Rule::NodePattern)
            .lay_many(call(Rule::PatternElementChain))
            .or(text("(").lay(call(Rule::PatternElement)).lay(text(")"))),
        Rule::PatternElementChain => call(Rule::RelationshipPattern).lay(call(Rule::NodePattern)),
        Rule::NodePattern => text("(").lay_maybe(call(Rule::Identifier)).lay_maybe(call(Rule::NodeLabels)).lay_maybe(call(Rule::Properties)).lay(text(")")),
        Rule::NodeLabels => call(Rule::NodeLabel).lay_many(call(Rule::NodeLabel)),
        Rule::NodeLabel => text(":").lay(call(Rule::Identifier)),
        Rule::Properties => text("{")
            .lay_maybe(call(Rule::PropertyKeyValue).lay_many(text(",").lay(call(Rule::PropertyKeyValue))))
            .lay(text("}")),
        Rule::PropertyKeyValue => call(Rule::Identifier).lay(text(":")).lay(call(Rule::Expression)),
        Rule::RelationshipPattern => call(Rule::IncomingRel).or(call(Rule::OutgoingRel)).or(call(Rule::UndirectedRel)),
        Rule::IncomingRel => text("<").lay(text("-")).lay_maybe(call(Rule::RelationshipDetail)).lay(text("-")),
        Rule::OutgoingRel => text("-").lay_maybe(call(Rule::RelationshipDetail)).lay(text("-")).lay(text(">")),
        Rule::UndirectedRel => text("-").lay_maybe(call(Rule::RelationshipDetail)).lay(text("-")),
        Rule::RelationshipDetail => text("[")
            .lay_maybe(call(Rule::Identifier))
            .lay_maybe(call(Rule::RelationshipTypes))
            .lay_maybe(call(Rule::PathLength))
            .lay_maybe(call(Rule::Properties))
            .lay(text("]")),
        Rule::RelationshipTypes => text(":")
            .lay(call(Rule::Identifier))
            .lay_many(text("|").lay_maybe(text(":")).lay(call(Rule::Identifier))),
        Rule::PathLength => text("*")
            .lay_maybe(call(Rule::Integer).lay_maybe(text("..").lay_maybe(call(Rule::Integer))).or(text("..").lay_maybe(call(Rule::Integer)))),
        Rule::WhereClause => word("WHERE").lay(call(Rule::Expression)),
        Rule::GroupByClause => word("GROUP")
            .lay(word("BY"))
            .lay(call(Rule::GroupItem))
            .lay_many(text(",").lay(call(Rule::GroupItem))),
        Rule::GroupItem => call(Rule::Expression),
        Rule::HavingClause => word("HAVING").lay(call(Rule::Expression)),
        Rule::PostReturnHavingClause => word("HAVING").lay(call(Rule::Expression)),
        Rule::ReturnClause => word("RETURN").lay_maybe(call(Rule::DistinctKw)).lay(call(Rule::ReturnItems)),
        Rule::ReturnItems => call(Rule::ReturnItem).lay_many(text(",").lay(call(Rule::ReturnItem))),
        Rule::ReturnItem => call(Rule::Expression).or(call(Rule::Star)).lay_maybe(word("AS").lay(call(Rule::Identifier))),
        Rule::OrderByClause => word("ORDER")
            .lay(word("BY"))
            .lay(call(Rule::OrderItem))
            .lay_many(text(",").lay(call(Rule::OrderItem))),
        Rule::OrderItem => call(Rule::Expression).lay_maybe(call(Rule::AscKw).or(call(Rule::DescKw))),
        Rule::Expression => call(Rule::Conjunction).lay_many(word("OR").or(word("XOR")).lay(call(Rule::Conjunction))),
        Rule::Conjunction => call(Rule::Negation).lay_many(word("AND").lay(call(Rule::Negation))),
        Rule::Negation => word("NOT").lay(call(Rule::Negation)).or(call(Rule::Comparison)),
        Rule::Comparison => call(Rule::Sum).lay_many(call(Rule::ComparisonTail)),
        Rule::ComparisonTail => text("<>")
            .or(text("<="))
            .or(text(">="))
            .or(text("="))
            .or(text("<"))
            .or(text(">"))
            .or(word("CONTAINS"))
            .or(word("STARTS").lay(word("WITH")))
            .or(word("ENDS").lay(word("WITH")))
            .or(word("IN"))
            .lay(call(Rule::Sum))
            .or(word("IS").lay_maybe(word("NOT")).lay(word("NULL"))),
        Rule::Sum => call(Rule::Product).lay_many(text("+").or(text("-")).lay(call(Rule::Product))),
        Rule::Product => call(Rule::Unary).lay_many(text("*").or(text("/")).or(text("%")).lay(call(Rule::Unary))),
        Rule::Unary => text("-")
            .or(text("+"))
            .lay(call(Rule::Unary))
            .or(call(Rule::Primary).lay_many(text(".").lay(call(Rule::Identifier)))),
        Rule::Primary => text("(").lay(call(Rule::Expression)).lay(text(")"))
            .or(text("[").lay_maybe(call(Rule::Arguments)).lay(text("]")))
            .or(call(Rule::StringLiteral))
            .or(call(Rule::NumberLiteral))
            .or(call(Rule::FunctionCall))
            .or(text("$").chain(call(Rule::Identifier)))
            .or(call(Rule::Identifier)),
        Rule::FunctionCall => call(Rule::Identifier)
            .lay(text("(")).lay_maybe(word("DISTINCT")).lay_maybe(text("*").or(call(Rule::Arguments))).lay(text(")")),
        Rule::TimeUnit => any_case("ms").or(any_case("s")).or(any_case("m")).or(any_case("h")).or(any_case("d")),
        Rule::Integer => one(Class::Digit).chain(one(Class::Digit).many()),
        _ => build_shared(rule),
    }
}

} // verus!
