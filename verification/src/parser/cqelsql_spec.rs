//! What the nodes of a CQELS-QL query say.
use vstd::prelude::*;

use crate::listing::concat;
use crate::parser::ast::{
    blank_query, AggregateFunction, AggregateSpecView, CqelsQueryType, CqelsQueryView, GroupView, NamedWindowView,
    OrderConditionView, SelectView, SeqArgView, SortDirection, StreamSemantics, StreamView, TripleView, SEQ_UNBOUNDED,
};
use crate::parser::capitals::{byte_slice, bytes_in, capitals, has_within};
use crate::parser::error::{syntax, ErrorView};
use crate::parser::grammar::{Language, Rule};
use crate::parser::peg::{parsed, text_at};
use crate::parser::tree::{
    collected, found_before, found_from, graph_at, led, number_at, trimmed, unbracketed, window_at,
    without_trailing, Parsed,
};
use crate::text::number_upto;

verus! {

/// What is said of a text that the grammar does not match.
pub open spec fn no_match() -> Seq<char> {
    "the text does not match the query grammar"@
}

/// What a text stands for as a CQELS-QL query.
pub open spec fn cqels_parsed(input: Seq<char>) -> Result<CqelsQueryView, ErrorView> {
    match parsed(Language::CqelsQl, input) {
        None => Err(syntax(no_match())),
        Some(nodes) => if nodes.len() == 0 {
            Ok(blank_query())
        } else {
            let t = Parsed { language: Language::CqelsQl, input, nodes };
            led(t.children(0), blank_query(), query_step(t))
        },
    }
}

pub open spec fn query_step(t: Parsed) -> spec_fn(CqelsQueryView, usize) -> Result<CqelsQueryView, ErrorView> {
    |q: CqelsQueryView, c: usize|
        match t.rule(c) {
            Rule::PrefixDecl => match prefix_at(t, c) {
                Err(e) => Err(e),
                Ok((prefix, uri)) => Ok(CqelsQueryView { prefixes: q.prefixes.insert(prefix, uri), ..q }),
            },
            Rule::RegisterQuery => register_at(t, c, q),
            Rule::SelectQuery => select_at(t, c, q),
            Rule::ConstructQuery => construct_at(t, c, q),
            Rule::AskQuery => ask_at(t, c, q),
            Rule::DescribeQuery => describe_at(t, c, q),
            _ => Ok(q),
        }
}

pub open spec fn prefix_at(t: Parsed, i: usize) -> Result<(Seq<char>, Seq<char>), ErrorView> {
    match (t.child(i, 0), t.child(i, 1)) {
        (None, _) => Err(syntax("expected prefix name"@)),
        (_, None) => Err(syntax("expected IRI"@)),
        (Some(p), Some(u)) => Ok((without_trailing(t.text(p), ':'), unbracketed(t.text(u)))),
    }
}

pub open spec fn register_at(t: Parsed, i: usize, q: CqelsQueryView) -> Result<CqelsQueryView, ErrorView> {
    match t.child(i, 0) {
        None => Err(syntax("expected query name"@)),
        Some(n) => {
            let named = CqelsQueryView { name: Some(t.text(n)), ..q };
            match t.child(i, 1) {
                None => Ok(named),
                Some(s) => select_at(t, s, named),
            }
        },
    }
}

pub open spec fn select_at(t: Parsed, i: usize, q: CqelsQueryView) -> Result<CqelsQueryView, ErrorView> {
    led(t.children(i), CqelsQueryView { query_type: CqelsQueryType::Select, ..q }, select_step(t))
}

pub open spec fn select_step(t: Parsed) -> spec_fn(CqelsQueryView, usize) -> Result<CqelsQueryView, ErrorView> {
    |q: CqelsQueryView, c: usize|
        match t.rule(c) {
            Rule::StreamSemantics => Ok(semantics_at(t, c, q)),
            Rule::SelectList => select_list_at(t, c, q),
            Rule::FromClauses => from_clauses_at(t, c, q),
            Rule::WhereClause => where_at(t, c, q),
            Rule::GroupByClause => Ok(group_by_at(t, c, q)),
            Rule::OrderByClause => order_by_at(t, c, q),
            Rule::LimitClause => limit_at(t, c, q),
            _ => Ok(q),
        }
}

pub open spec fn construct_at(t: Parsed, i: usize, q: CqelsQueryView) -> Result<CqelsQueryView, ErrorView> {
    led(t.children(i), CqelsQueryView { query_type: CqelsQueryType::Construct, ..q }, construct_step(t))
}

pub open spec fn construct_step(t: Parsed) -> spec_fn(CqelsQueryView, usize) -> Result<CqelsQueryView, ErrorView> {
    |q: CqelsQueryView, c: usize|
        match t.rule(c) {
            Rule::ConstructTemplate => Ok(
                CqelsQueryView { construct_template: q.construct_template + triples_in(t, c), ..q },
            ),
            Rule::FromClauses => from_clauses_at(t, c, q),
            Rule::WhereClause => where_at(t, c, q),
            _ => Ok(q),
        }
}

pub open spec fn ask_at(t: Parsed, i: usize, q: CqelsQueryView) -> Result<CqelsQueryView, ErrorView> {
    led(t.children(i), CqelsQueryView { query_type: CqelsQueryType::Ask, ..q }, ask_step(t))
}

pub open spec fn ask_step(t: Parsed) -> spec_fn(CqelsQueryView, usize) -> Result<CqelsQueryView, ErrorView> {
    |q: CqelsQueryView, c: usize|
        match t.rule(c) {
            Rule::FromClauses => from_clauses_at(t, c, q),
            Rule::WhereClause => where_at(t, c, q),
            _ => Ok(q),
        }
}

pub open spec fn describe_at(t: Parsed, i: usize, q: CqelsQueryView) -> Result<CqelsQueryView, ErrorView> {
    led(t.children(i), CqelsQueryView { query_type: CqelsQueryType::Describe, ..q }, describe_step(t))
}

pub open spec fn describe_step(t: Parsed) -> spec_fn(CqelsQueryView, usize) -> Result<CqelsQueryView, ErrorView> {
    |q: CqelsQueryView, c: usize|
        match t.rule(c) {
            Rule::DescribeTarget => Ok(described(t, t.children_of(c, Rule::Variable), q)),
            Rule::FromClauses => from_clauses_at(t, c, q),
            Rule::WhereClause => where_at(t, c, q),
            _ => Ok(q),
        }
}

/// The variables that are described; a star stands for all and leaves none.
pub open spec fn described(t: Parsed, cs: Seq<usize>, q: CqelsQueryView) -> CqelsQueryView {
    CqelsQueryView { select_elements: q.select_elements + cs.map_values(variable_element(t)), ..q }
}

pub open spec fn variable_element(t: Parsed) -> spec_fn(usize) -> SelectView {
    |c: usize| SelectView::Variable(t.text(c))
}

pub open spec fn semantics_at(t: Parsed, i: usize, q: CqelsQueryView) -> CqelsQueryView {
    match t.child(i, 0) {
        None => q,
        Some(c) => match t.rule(c) {
            Rule::IstreamKw => CqelsQueryView { stream_semantics: Some(StreamSemantics::IStream), ..q },
            Rule::DstreamKw => CqelsQueryView { stream_semantics: Some(StreamSemantics::DStream), ..q },
            Rule::RstreamKw => CqelsQueryView { stream_semantics: Some(StreamSemantics::RStream), ..q },
            _ => q,
        },
    }
}

pub open spec fn select_list_at(t: Parsed, i: usize, q: CqelsQueryView) -> Result<CqelsQueryView, ErrorView> {
    led(t.children(i), q, select_element_step(t))
}

pub open spec fn select_element_step(t: Parsed) -> spec_fn(CqelsQueryView, usize) -> Result<CqelsQueryView, ErrorView> {
    |q: CqelsQueryView, c: usize|
        match t.rule(c) {
            Rule::DistinctKw => Ok(CqelsQueryView { distinct: true, ..q }),
            Rule::SelectElement => Ok(select_element_at(t, c, q)),
            _ => Ok(q),
        }
}

pub open spec fn select_element_at(t: Parsed, i: usize, q: CqelsQueryView) -> CqelsQueryView {
    match t.child(i, 0) {
        None => q,
        Some(c) => match t.rule(c) {
            Rule::Variable => CqelsQueryView {
                select_elements: q.select_elements.push(SelectView::Variable(t.text(c))),
                ..q
            },
            Rule::ExpressionAlias => {
                let expression = t.text_or_empty(t.child(c, 0));
                let alias = t.text_or_empty(t.child(c, 1));
                CqelsQueryView {
                    aggregates: match aggregate_of(expression, alias) {
                        Some(a) => q.aggregates.push(a),
                        None => q.aggregates,
                    },
                    select_elements: q.select_elements.push(SelectView::Expression { expression, alias }),
                    ..q
                }
            },
            _ => q,
        },
    }
}

/// The aggregate function whose name a text in capitals starts with.
pub open spec fn function_of(upper: Seq<char>) -> Option<AggregateFunction> {
    if text_at(upper, 0, "GROUP_CONCAT"@) {
        Some(AggregateFunction::GroupConcat)
    } else if text_at(upper, 0, "COUNT"@) {
        Some(AggregateFunction::Count)
    } else if text_at(upper, 0, "AVG"@) {
        Some(AggregateFunction::Avg)
    } else if text_at(upper, 0, "SUM"@) {
        Some(AggregateFunction::Sum)
    } else if text_at(upper, 0, "MIN"@) {
        Some(AggregateFunction::Min)
    } else if text_at(upper, 0, "MAX"@) {
        Some(AggregateFunction::Max)
    } else {
        None
    }
}

/// The aggregate that an expression is: a function, and what stands between
/// the first opening and the last closing bracket.
pub open spec fn aggregate_of(expression: Seq<char>, alias: Seq<char>) -> Option<AggregateSpecView> {
    aggregate_cut(expression, capitals(trimmed(expression)), alias)
}

/// The aggregate that an expression is by its text in capitals, without white
/// space around it. The argument is cut from the expression as given, from
/// behind the byte at which the capitals have the first opening bracket to the
/// byte at which they have the last closing one.
pub open spec fn aggregate_cut(expression: Seq<char>, upper: Seq<char>, alias: Seq<char>) -> Option<AggregateSpecView> {
    match (function_of(upper), found_from(upper, '(', 0), found_before(upper, ')', upper.len() as int)) {
        (Some(function), Some(open), Some(close)) => match byte_slice(
            expression,
            bytes_in(upper.take(open)) + 1,
            bytes_in(upper.take(close)),
        ) {
            Some(argument) => Some(AggregateSpecView { function, argument: trimmed(argument), alias }),
            None => None,
        },
        _ => None,
    }
}

pub open spec fn from_clauses_at(t: Parsed, i: usize, q: CqelsQueryView) -> Result<CqelsQueryView, ErrorView> {
    led(t.children_of(i, Rule::FromClause), q, from_clause_step(t))
}

pub open spec fn from_clause_step(t: Parsed) -> spec_fn(CqelsQueryView, usize) -> Result<CqelsQueryView, ErrorView> {
    |q: CqelsQueryView, i: usize|
        match t.child(i, 0) {
            None => Ok(q),
            Some(c) => match t.rule(c) {
                Rule::FromStream => match stream_at(t, c) {
                    Err(e) => Err(e),
                    Ok(s) => Ok(CqelsQueryView { streams: q.streams.push(s), ..q }),
                },
                Rule::FromNamedWindow => match named_window_at(t, c) {
                    Err(e) => Err(e),
                    Ok(w) => Ok(CqelsQueryView { named_windows: q.named_windows.push(w), ..q }),
                },
                Rule::FromStatic => match graph_at(t, c, iri_at(t, c)) {
                    Err(e) => Err(e),
                    Ok(g) => Ok(CqelsQueryView { static_graphs: q.static_graphs.push(g), ..q }),
                },
                Rule::FromNamed => match graph_at(t, c, iri_at(t, c)) {
                    Err(e) => Err(e),
                    Ok(g) => Ok(CqelsQueryView { named_graphs: q.named_graphs.push(g), ..q }),
                },
                _ => Ok(q),
            },
        }
}

/// The IRI below a node, without its brackets.
pub open spec fn iri_at(t: Parsed, i: usize) -> Seq<char> {
    unbracketed(t.text_or_empty(t.child_of(i, Rule::IriRef)))
}

pub open spec fn stream_at(t: Parsed, i: usize) -> Result<StreamView, ErrorView> {
    match (t.child(i, 0), t.child(i, 1)) {
        (None, _) => Err(syntax("expected stream name"@)),
        (_, None) => Err(syntax("expected window spec"@)),
        (Some(n), Some(w)) => match window_at(t, w) {
            Err(e) => Err(e),
            Ok(window) => Ok(StreamView { name: t.text(n), window }),
        },
    }
}

pub open spec fn named_window_at(t: Parsed, i: usize) -> Result<NamedWindowView, ErrorView> {
    match (t.child_of(i, Rule::IriRef), t.child_of(i, Rule::Identifier), t.child_of(i, Rule::WindowSpec)) {
        (None, _, _) => Err(syntax("expected window IRI"@)),
        (_, None, _) => Err(syntax("expected stream name"@)),
        (_, _, None) => Err(syntax("expected window spec"@)),
        (Some(u), Some(s), Some(w)) => match window_at(t, w) {
            Err(e) => Err(e),
            Ok(window) => Ok(NamedWindowView { iri: unbracketed(t.text(u)), stream: t.text(s), window }),
        },
    }
}

/// The patterns of the WHERE clause: bare patterns belong to the stream where
/// there is only one source, and a sequence of events is set apart.
pub open spec fn where_at(t: Parsed, i: usize, q: CqelsQueryView) -> Result<CqelsQueryView, ErrorView> {
    match led(t.children_of(i, Rule::PatternGroup), Seq::empty(), group_step(t)) {
        Err(e) => Err(e),
        Ok(groups) => Ok(hoisted(implicitly_bound(groups, q), q)),
    }
}

pub open spec fn group_step(t: Parsed) -> spec_fn(Seq<GroupView>, usize) -> Result<Seq<GroupView>, ErrorView> {
    |groups: Seq<GroupView>, c: usize|
        match top_groups_at(t, c) {
            Err(e) => Err(e),
            Ok(more) => Ok(groups + more),
        }
}

pub open spec fn any_stream(groups: Seq<GroupView>) -> bool {
    exists|i: int| 0 <= i < groups.len() && #[trigger] groups[i] is Stream
}

/// Bare patterns belong to the only stream, where no graph is declared and no
/// group names a stream.
pub open spec fn implicitly_bound(groups: Seq<GroupView>, q: CqelsQueryView) -> Seq<GroupView> {
    if !any_stream(groups) && q.streams.len() == 1 && q.static_graphs.len() == 0 && q.named_graphs.len() == 0 {
        groups.map_values(scope_one(q.streams[0].name))
    } else {
        groups
    }
}

/// A bare group belongs to a stream; others stay as they are.
pub open spec fn scope_one(source: Seq<char>) -> spec_fn(GroupView) -> GroupView {
    |g: GroupView|
        match g {
            GroupView::Default { patterns } => GroupView::Stream { source, patterns },
            _ => g,
        }
}

/// Adds groups to a query, a sequence of events as its constraint.
pub open spec fn hoisted(groups: Seq<GroupView>, q: CqelsQueryView) -> CqelsQueryView
    decreases groups.len(),
{
    if groups.len() == 0 {
        q
    } else {
        let before = hoisted(groups.drop_last(), q);
        match groups.last() {
            GroupView::Sequence { args } => CqelsQueryView { seq_constraint: Some(args), ..before },
            g => CqelsQueryView { pattern_groups: before.pattern_groups.push(g), ..before },
        }
    }
}

/// The groups of a pattern of the WHERE clause: OPTIONAL and UNION inside a
/// STREAM block stand beside the block.
pub open spec fn top_groups_at(t: Parsed, i: usize) -> Result<Seq<GroupView>, ErrorView> {
    match t.child(i, 0) {
        None => Err(syntax("invalid pattern group"@)),
        Some(g) => if t.rule(g) == Rule::StreamPatternGroup {
            match t.child(g, 0) {
                None => Err(syntax("expected stream name"@)),
                Some(n) => {
                    let source = t.text(n);
                    match led(t.children(g), Seq::empty(), lift_step(t, source)) {
                        Err(e) => Err(e),
                        Ok(lifted) => Ok(
                            seq![GroupView::Stream { source, patterns: triples_in(t, g) }] + lifted,
                        ),
                    }
                },
            }
        } else {
            match group_at(t, i) {
                Err(e) => Err(e),
                Ok(group) => Ok(seq![group]),
            }
        },
    }
}

pub open spec fn lift_step(t: Parsed, source: Seq<char>) -> spec_fn(Seq<GroupView>, usize) -> Result<
    Seq<GroupView>,
    ErrorView,
> {
    |lifted: Seq<GroupView>, c: usize|
        match t.rule(c) {
            Rule::OptionalPattern => match optional_at(t, c) {
                Err(e) => Err(e),
                Ok(g) => Ok(lifted.push(scoped(g, source))),
            },
            Rule::UnionPattern => match union_at(t, c) {
                Err(e) => Err(e),
                Ok(g) => Ok(lifted.push(scoped(g, source))),
            },
            _ => Ok(lifted),
        }
}

/// The bare groups inside an OPTIONAL or a UNION belong to a stream.
pub open spec fn scoped(g: GroupView, source: Seq<char>) -> GroupView {
    match g {
        GroupView::Optional { groups } => GroupView::Optional { groups: groups.map_values(scope_one(source)) },
        GroupView::Union { left, right } => GroupView::Union {
            left: left.map_values(scope_one(source)),
            right: right.map_values(scope_one(source)),
        },
        _ => g,
    }
}

/// What is said of OPTIONAL or UNION too deep inside.
pub open spec fn nested_block() -> Seq<char> {
    "OPTIONAL/UNION nested inside a STREAM block is only supported at the top level of the WHERE clause"@
}

/// The group that a node stands for.
pub open spec fn group_at(t: Parsed, i: usize) -> Result<GroupView, ErrorView>
    decreases t.nodes.len() - i, 0nat, 0nat,
{
    match t.child(i, 0) {
        None => Err(syntax("invalid pattern group"@)),
        Some(c) => if c <= i || c >= t.nodes.len() {
            Err(syntax("invalid pattern group"@))
        } else {
            match t.rule(c) {
                Rule::StreamPatternGroup => match t.child(c, 0) {
                    None => Err(syntax("expected stream name"@)),
                    Some(n) => if t.child_of(c, Rule::OptionalPattern) is Some || t.child_of(
                        c,
                        Rule::UnionPattern,
                    ) is Some {
                        Err(syntax(nested_block()))
                    } else {
                        Ok(GroupView::Stream { source: t.text(n), patterns: triples_in(t, c) })
                    },
                },
                Rule::WindowPatternGroup => match t.child(c, 0) {
                    None => Err(syntax("expected window IRI"@)),
                    Some(n) => Ok(
                        GroupView::Window { window_iri: unbracketed(t.text(n)), patterns: triples_in(t, c) },
                    ),
                },
                Rule::StaticPatternGroup => Ok(GroupView::Static { patterns: triples_in(t, c) }),
                Rule::NamedGraphPatternGroup => match t.child(c, 0) {
                    None => Err(syntax("expected graph IRI"@)),
                    Some(n) => Ok(
                        GroupView::NamedGraph { graph_uri: unbracketed(t.text(n)), patterns: triples_in(t, c) },
                    ),
                },
                Rule::FilterConstraint => match t.child(c, 0) {
                    None => Err(syntax("filter constraint missing content"@)),
                    Some(n) => if t.rule(n) == Rule::SeqCall {
                        match sequence_at(t, n) {
                            Err(e) => Err(e),
                            Ok(args) => Ok(GroupView::Sequence { args }),
                        }
                    } else {
                        Ok(GroupView::Filter { expression: t.text(n) })
                    },
                },
                Rule::BindPattern => Ok(
                    GroupView::Bind {
                        expression: t.text_or_empty(t.child(c, 0)),
                        variable: t.text_or_empty(t.child(c, 1)),
                    },
                ),
                Rule::OptionalPattern => optional_at(t, c),
                Rule::UnionPattern => union_at(t, c),
                Rule::MinusPattern => Ok(GroupView::Minus { patterns: triples_in(t, c) }),
                Rule::TriplePattern => Ok(GroupView::Default { patterns: triples_of(t, c) }),
                _ => Err(syntax("invalid pattern group"@)),
            }
        },
    }
}

pub open spec fn optional_at(t: Parsed, i: usize) -> Result<GroupView, ErrorView>
    decreases t.nodes.len() - i, 2nat, 0nat,
{
    match groups_in(t, i, t.children_of(i, Rule::PatternGroup)) {
        Err(e) => Err(e),
        Ok(groups) => Ok(GroupView::Optional { groups }),
    }
}

/// The arms of a UNION: the first up to the first UNION keyword between two
/// groups, or half of the groups where there is none.
pub open spec fn union_at(t: Parsed, i: usize) -> Result<GroupView, ErrorView>
    decreases t.nodes.len() - i, 2nat, 0nat,
{
    let cs = t.children_of(i, Rule::PatternGroup);
    if cs.len() == 0 {
        Err(syntax("empty UNION pattern"@))
    } else {
        match groups_in(t, i, cs) {
            Err(e) => Err(e),
            Ok(groups) => {
                let at = union_split(t, cs);
                Ok(GroupView::Union { left: groups.take(at), right: groups.skip(at) })
            },
        }
    }
}

/// The groups that some nodes stand for.
pub open spec fn groups_in(t: Parsed, i: usize, cs: Seq<usize>) -> Result<Seq<GroupView>, ErrorView>
    decreases t.nodes.len() - i, 1nat, cs.len(),
{
    if cs.len() == 0 {
        Ok(Seq::empty())
    } else {
        match groups_in(t, i, cs.drop_last()) {
            Err(e) => Err(e),
            Ok(groups) => {
                let c = cs.last();
                if c <= i || c >= t.nodes.len() {
                    Err(syntax("invalid pattern group"@))
                } else {
                    match group_at(t, c) {
                        Err(e) => Err(e),
                        Ok(g) => Ok(groups.push(g)),
                    }
                }
            },
        }
    }
}

/// What stands between two nodes.
pub open spec fn between_nodes(t: Parsed, a: usize, b: usize) -> Seq<char> {
    let from = t.nodes[a as int].end as int;
    let to = t.nodes[b as int].start as int;
    if from <= to <= t.input.len() {
        t.input.subrange(from, to)
    } else {
        Seq::empty()
    }
}

/// The keyword UNION occurs in a text, in any case.
pub open spec fn mentions_union(s: Seq<char>) -> bool {
    has_within(capitals(s), "UNION"@)
}

/// The first group, from `k` on, that stands behind a UNION keyword.
pub open spec fn first_behind_union(t: Parsed, cs: Seq<usize>, k: int) -> Option<int>
    decreases cs.len() - k,
{
    if k < 1 || k >= cs.len() {
        None
    } else if mentions_union(between_nodes(t, cs[k - 1], cs[k])) {
        Some(k)
    } else {
        first_behind_union(t, cs, k + 1)
    }
}

/// How many groups belong to the first arm.
pub open spec fn union_split(t: Parsed, cs: Seq<usize>) -> int {
    match first_behind_union(t, cs, 1) {
        Some(k) => k,
        None => if cs.len() >= 2 {
            cs.len() as int / 2
        } else {
            cs.len() as int
        },
    }
}

/// The triple patterns directly below a node.
pub open spec fn triples_in(t: Parsed, i: usize) -> Seq<TripleView> {
    concat(t.children_of(i, Rule::TriplePattern), triples(t))
}

pub open spec fn triples(t: Parsed) -> spec_fn(usize) -> Seq<TripleView> {
    |c: usize| triples_of(t, c)
}

/// The triple patterns that share a subject.
pub open spec fn triples_of(t: Parsed, i: usize) -> Seq<TripleView> {
    concat(
        t.children_of(i, Rule::PredicateObjectList),
        predicate_triples(t, t.text_or_empty(t.child_of(i, Rule::Subject))),
    )
}

/// The triple patterns that share a subject and a predicate.
pub open spec fn predicate_triples(t: Parsed, subject: Seq<char>) -> spec_fn(usize) -> Seq<TripleView> {
    |p: usize| object_nodes(t, p).map_values(triple_with(t, subject, predicate_at(t, p)))
}

pub open spec fn object_nodes(t: Parsed, p: usize) -> Seq<usize> {
    match t.child_of(p, Rule::ObjectList) {
        None => Seq::empty(),
        Some(l) => t.children_of(l, Rule::Object),
    }
}

pub open spec fn triple_with(t: Parsed, subject: Seq<char>, predicate: Seq<char>) -> spec_fn(usize) -> TripleView {
    |o: usize| TripleView { subject, predicate, object: t.text(o) }
}

/// The predicate of a list; `a` stands for `rdf:type`.
pub open spec fn predicate_at(t: Parsed, p: usize) -> Seq<char> {
    let text = t.text_or_empty(t.child_of(p, Rule::Predicate));
    if text == "a"@ {
        "<http://www.w3.org/1999/02/22-rdf-syntax-ns#type>"@
    } else {
        text
    }
}

/// The events of a SEQ call.
pub open spec fn sequence_at(t: Parsed, i: usize) -> Result<Seq<SeqArgView>, ErrorView> {
    match collected(t.children_of(i, Rule::SeqArg), sequence_args(t)) {
        Err(e) => Err(e),
        Ok(args) => if args.len() < 2 {
            Err(syntax("SEQ requires at least 2 event arguments"@))
        } else {
            Ok(args)
        },
    }
}

pub open spec fn sequence_args(t: Parsed) -> spec_fn(usize) -> Result<SeqArgView, ErrorView> {
    |c: usize| sequence_arg_at(t, c)
}

/// The numbers that fit.
pub open spec fn fitting(t: Parsed, cs: Seq<usize>) -> Seq<u32>
    decreases cs.len(),
{
    if cs.len() == 0 {
        Seq::empty()
    } else {
        let before = fitting(t, cs.drop_last());
        match number_upto(t.text(cs.last()), u32::MAX as nat) {
            Some(n) => before.push(n as u32),
            None => before,
        }
    }
}

/// How often an event is to occur.
pub open spec fn occurrences_at(t: Parsed, i: usize) -> Result<(u32, u32), ErrorView> {
    match t.child_of(i, Rule::SeqQuantifier) {
        None => Ok((1, 1)),
        Some(c) => {
            let ns = fitting(t, t.children_of(c, Rule::Integer));
            if ns.len() == 0 {
                if t.text(c) == "+"@ {
                    Ok((1, SEQ_UNBOUNDED))
                } else if t.text(c) == "*"@ {
                    Ok((0, SEQ_UNBOUNDED))
                } else if t.text(c) == "?"@ {
                    Ok((0, 1))
                } else {
                    Err(syntax("unrecognized SEQ quantifier `"@ + t.text(c) + "`"@))
                }
            } else if ns.len() == 1 {
                Ok((ns[0], ns[0]))
            } else {
                Ok((ns[0], ns[1]))
            }
        },
    }
}

/// A variable without its sign.
pub open spec fn bare_variable(s: Seq<char>) -> Seq<char>
    decreases s.len(),
{
    if s.len() > 0 && (s[0] == '?' || s[0] == '$') {
        bare_variable(s.skip(1))
    } else {
        s
    }
}

pub open spec fn sequence_arg_at(t: Parsed, i: usize) -> Result<SeqArgView, ErrorView> {
    match occurrences_at(t, i) {
        Err(e) => Err(e),
        Ok((min_occurrences, max_occurrences)) => match t.child_of(i, Rule::Variable) {
            None => Err(syntax("SEQ arg missing variable"@)),
            Some(v) => Ok(
                SeqArgView {
                    variable: bare_variable(t.text(v)),
                    negated: t.child_of(i, Rule::SeqNotKw) is Some,
                    min_occurrences,
                    max_occurrences,
                    alias: match t.child_of(i, Rule::Identifier) {
                        Some(a) => Some(t.text(a)),
                        None => None,
                    },
                },
            ),
        },
    }
}

pub open spec fn node_text(t: Parsed) -> spec_fn(usize) -> Seq<char> {
    |c: usize| t.text(c)
}

pub open spec fn group_by_at(t: Parsed, i: usize, q: CqelsQueryView) -> CqelsQueryView {
    CqelsQueryView {
        group_by_variables: q.group_by_variables + t.children_of(i, Rule::Variable).map_values(node_text(t)),
        ..q
    }
}

pub open spec fn order_by_at(t: Parsed, i: usize, q: CqelsQueryView) -> Result<CqelsQueryView, ErrorView> {
    led(t.children_of(i, Rule::OrderCondition), q, order_step(t))
}

pub open spec fn order_step(t: Parsed) -> spec_fn(CqelsQueryView, usize) -> Result<CqelsQueryView, ErrorView> {
    |q: CqelsQueryView, c: usize|
        Ok(CqelsQueryView { order_by_conditions: q.order_by_conditions.push(order_at(t, c)), ..q })
}

/// A sort condition: a variable and a direction, behind it or around it.
pub open spec fn order_at(t: Parsed, i: usize) -> OrderConditionView {
    let at = match t.child_of(i, Rule::OrderFunc) {
        Some(f) => f,
        None => i,
    };
    OrderConditionView {
        expression: t.text_or_empty(t.child_of(at, Rule::Variable)),
        direction: if t.child_of(at, Rule::DescKw) is Some {
            SortDirection::Descending
        } else {
            SortDirection::Ascending
        },
    }
}

pub open spec fn limit_at(t: Parsed, i: usize, q: CqelsQueryView) -> Result<CqelsQueryView, ErrorView> {
    match t.child_of(i, Rule::Integer) {
        None => Err(syntax("expected limit value"@)),
        Some(c) => match number_at(t, c, "invalid limit: "@) {
            Err(e) => Err(e),
            Ok(n) => Ok(CqelsQueryView { limit: Some(n), ..q }),
        },
    }
}

} // verus!
