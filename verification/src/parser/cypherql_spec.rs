//! What the nodes of a CypherQL query say.
use vstd::prelude::*;

use crate::parser::ast::{AggregateFunction, OrderConditionView, SortDirection};
use crate::parser::ast_cypher::{
    blank_cypher, CypherPatternView, CypherQueryView, NodePatternView, PathLength, PatternGroupView, PatternSource,
    RelDirection, RelationshipView, ReturnView,
};
use crate::parser::cqelsql_spec::{fitting, no_match, node_text, stream_at};
use crate::parser::capitals::capitals;
use crate::parser::error::{syntax, ErrorView};
use crate::parser::grammar::{Language, Rule};
use crate::parser::peg::{parsed, text_at};
use crate::parser::tree::{collected, graph_at, led, number_at, trimmed, Parsed};

verus! {

/// What a text stands for as a CypherQL query.
pub open spec fn cypher_parsed(input: Seq<char>) -> Result<CypherQueryView, ErrorView> {
    match parsed(Language::CypherQl, input) {
        None => Err(syntax(no_match())),
        Some(nodes) => if nodes.len() == 0 {
            Ok(blank_cypher())
        } else {
            let t = Parsed { language: Language::CypherQl, input, nodes };
            led(t.children(0), blank_cypher(), query_step(t))
        },
    }
}

pub open spec fn query_step(t: Parsed) -> spec_fn(CypherQueryView, usize) -> Result<CypherQueryView, ErrorView> {
    |q: CypherQueryView, c: usize|
        match t.rule(c) {
            Rule::RegisterQuery => register_at(t, c, q),
            Rule::ContinuousQuery => continuous_at(t, c, q),
            _ => Ok(q),
        }
}

pub open spec fn register_at(t: Parsed, i: usize, q: CypherQueryView) -> Result<CypherQueryView, ErrorView> {
    match t.child(i, 0) {
        None => Err(syntax("expected query name"@)),
        Some(n) => {
            let named = CypherQueryView { name: Some(t.text(n)), ..q };
            match t.child(i, 1) {
                None => Ok(named),
                Some(s) => continuous_at(t, s, named),
            }
        },
    }
}

pub open spec fn continuous_at(t: Parsed, i: usize, q: CypherQueryView) -> Result<CypherQueryView, ErrorView> {
    led(t.children(i), q, clause_step(t))
}

pub open spec fn clause_step(t: Parsed) -> spec_fn(CypherQueryView, usize) -> Result<CypherQueryView, ErrorView> {
    |q: CypherQueryView, c: usize|
        match t.rule(c) {
            Rule::FromClauses => led(t.children_of(c, Rule::FromClause), q, from_clause_step(t)),
            Rule::MatchClause => led(t.children_of(c, Rule::PatternGroup), q, match_step(t)),
            Rule::WhereClause => Ok(
                CypherQueryView { where_expression: Some(t.text_or_empty(t.child(c, 0))), ..q },
            ),
            Rule::GroupByClause => Ok(group_by_at(t, c, q)),
            Rule::HavingClause => Ok(having_at(t, c, q)),
            Rule::PostReturnHavingClause => Ok(having_at(t, c, q)),
            Rule::ReturnClause => led(t.children(c), q, return_step(t)),
            Rule::OrderByClause => led(t.children_of(c, Rule::OrderItem), q, order_step(t)),
            Rule::LimitClause => limit_at(t, c, q),
            _ => Ok(q),
        }
}

pub open spec fn having_at(t: Parsed, i: usize, q: CypherQueryView) -> CypherQueryView {
    CypherQueryView { having_filters: q.having_filters.push(t.text_or_empty(t.child(i, 0))), ..q }
}

pub open spec fn group_by_at(t: Parsed, i: usize, q: CypherQueryView) -> CypherQueryView {
    CypherQueryView {
        group_by_expressions: q.group_by_expressions + t.children_of(i, Rule::GroupItem).map_values(node_text(t)),
        ..q
    }
}

/// A text without the quotes around it.
pub open spec fn unquoted(s: Seq<char>) -> Seq<char> {
    if s.len() >= 2 && (s[0] == '\'' && s.last() == '\'' || s[0] == '"' && s.last() == '"') {
        s.subrange(1, s.len() - 1)
    } else {
        s
    }
}

/// The text in quotes below a node.
pub open spec fn quoted_at(t: Parsed, i: usize) -> Seq<char> {
    unquoted(t.text_or_empty(t.child_of(i, Rule::StringLiteral)))
}

pub open spec fn from_clause_step(t: Parsed) -> spec_fn(CypherQueryView, usize) -> Result<CypherQueryView, ErrorView> {
    |q: CypherQueryView, i: usize|
        match t.child(i, 0) {
            None => Ok(q),
            Some(c) => match t.rule(c) {
                Rule::FromStream => match stream_at(t, c) {
                    Err(e) => Err(e),
                    Ok(s) => Ok(CypherQueryView { streams: q.streams.push(s), ..q }),
                },
                Rule::FromStatic => match graph_at(t, c, quoted_at(t, c)) {
                    Err(e) => Err(e),
                    Ok(g) => Ok(CypherQueryView { static_graphs: q.static_graphs.push(g), ..q }),
                },
                Rule::FromGraph => match graph_at(t, c, quoted_at(t, c)) {
                    Err(e) => Err(e),
                    Ok(g) => Ok(CypherQueryView { named_graphs: q.named_graphs.push(g), ..q }),
                },
                _ => Ok(q),
            },
        }
}

pub open spec fn match_step(t: Parsed) -> spec_fn(CypherQueryView, usize) -> Result<CypherQueryView, ErrorView> {
    |q: CypherQueryView, c: usize|
        match pattern_group_at(t, c) {
            Err(e) => Err(e),
            Ok(g) => Ok(CypherQueryView { pattern_groups: q.pattern_groups.push(g), ..q }),
        }
}

/// The group of patterns that a node stands for.
pub open spec fn pattern_group_at(t: Parsed, i: usize) -> Result<PatternGroupView, ErrorView> {
    match t.child(i, 0) {
        None => Err(syntax("invalid pattern group"@)),
        Some(c) => match t.rule(c) {
            Rule::StreamPatternGroup => match t.child(c, 0) {
                None => Err(syntax("expected stream name"@)),
                Some(n) => group_with(PatternSource::Stream, Some(t.text(n)), patterns_in(t, c)),
            },
            Rule::StaticPatternGroup => group_with(PatternSource::Static, None, patterns_in(t, c)),
            Rule::GraphPatternGroup => group_with(
                PatternSource::Graph,
                Some(unquoted(t.text_or_empty(t.child(c, 0)))),
                patterns_in(t, c),
            ),
            Rule::Pattern => group_with(PatternSource::Default, None, patterns_of(t, c)),
            _ => Err(syntax("invalid pattern group"@)),
        },
    }
}

pub open spec fn group_with(
    source: PatternSource,
    source_name: Option<Seq<char>>,
    patterns: Result<Seq<CypherPatternView>, ErrorView>,
) -> Result<PatternGroupView, ErrorView> {
    match patterns {
        Err(e) => Err(e),
        Ok(patterns) => Ok(PatternGroupView { source, source_name, patterns }),
    }
}

pub open spec fn patterns_in(t: Parsed, i: usize) -> Result<Seq<CypherPatternView>, ErrorView> {
    match t.child_of(i, Rule::Pattern) {
        None => Ok(Seq::empty()),
        Some(p) => patterns_of(t, p),
    }
}

pub open spec fn patterns_of(t: Parsed, i: usize) -> Result<Seq<CypherPatternView>, ErrorView> {
    collected(t.children_of(i, Rule::PatternPart), pattern_parts(t))
}

pub open spec fn pattern_parts(t: Parsed) -> spec_fn(usize) -> Result<CypherPatternView, ErrorView> {
    |c: usize| pattern_part_at(t, c)
}

/// A pattern without nodes.
pub open spec fn no_pattern() -> CypherPatternView {
    CypherPatternView { nodes: Seq::empty(), relationships: Seq::empty() }
}

/// One pattern; a name that it is given is not kept.
pub open spec fn pattern_part_at(t: Parsed, i: usize) -> Result<CypherPatternView, ErrorView> {
    match t.child_of(i, Rule::AnonymousPatternPart) {
        None => Ok(no_pattern()),
        Some(a) => match t.child(a, 0) {
            None => Err(syntax("expected pattern element in anonymous pattern part"@)),
            Some(e) => Ok(element_at(t, e, no_pattern())),
        },
    }
}

/// A pattern with the nodes and relationships below a node added.
pub open spec fn element_at(t: Parsed, i: usize, p: CypherPatternView) -> CypherPatternView
    decreases t.nodes.len() - i, 1nat, 0nat,
{
    elements_in(t, i, t.children(i), p)
}

pub open spec fn elements_in(t: Parsed, i: usize, cs: Seq<usize>, p: CypherPatternView) -> CypherPatternView
    decreases t.nodes.len() - i, 0nat, cs.len(),
{
    if cs.len() == 0 {
        p
    } else {
        let before = elements_in(t, i, cs.drop_last(), p);
        let c = cs.last();
        match t.rule(c) {
            Rule::NodePattern => CypherPatternView { nodes: before.nodes.push(node_at(t, c)), ..before },
            Rule::PatternElementChain => chain_in(t, t.children(c), before),
            Rule::PatternElement => if c <= i || c >= t.nodes.len() {
                before
            } else {
                element_at(t, c, before)
            },
            _ => before,
        }
    }
}

/// A pattern with a chain of relationships and nodes added: a relationship
/// starts at the last node, and ends at the node that comes next.
pub open spec fn chain_in(t: Parsed, cs: Seq<usize>, p: CypherPatternView) -> CypherPatternView
    decreases cs.len(),
{
    if cs.len() == 0 {
        p
    } else {
        let before = chain_in(t, cs.drop_last(), p);
        chain_step(t, cs.last(), before)
    }
}

pub open spec fn chain_step(t: Parsed, c: usize, p: CypherPatternView) -> CypherPatternView {
    match t.rule(c) {
        Rule::RelationshipPattern => CypherPatternView {
            relationships: p.relationships.push(relationship_at(t, c, last_variable(p.nodes))),
            ..p
        },
        Rule::NodePattern => CypherPatternView {
            nodes: p.nodes.push(node_at(t, c)),
            relationships: ending_at(p.relationships, node_at(t, c).variable),
        },
        _ => p,
    }
}

pub open spec fn last_variable(nodes: Seq<NodePatternView>) -> Option<Seq<char>> {
    if nodes.len() > 0 {
        nodes.last().variable
    } else {
        None
    }
}

/// The last relationship ends at a node.
pub open spec fn ending_at(relationships: Seq<RelationshipView>, node: Option<Seq<char>>) -> Seq<RelationshipView> {
    if relationships.len() > 0 {
        relationships.update(
            relationships.len() - 1,
            RelationshipView { end_node: node, ..relationships.last() },
        )
    } else {
        relationships
    }
}

pub open spec fn optional_text(t: Parsed, c: Option<usize>) -> Option<Seq<char>> {
    match c {
        Some(c) => Some(t.text(c)),
        None => None,
    }
}

pub open spec fn node_at(t: Parsed, i: usize) -> NodePatternView {
    NodePatternView {
        variable: optional_text(t, t.child_of(i, Rule::Identifier)),
        labels: match t.child_of(i, Rule::NodeLabels) {
            None => Seq::empty(),
            Some(l) => t.children_of(l, Rule::NodeLabel).map_values(label_text(t)),
        },
        properties: properties_below(t, i),
    }
}

pub open spec fn label_text(t: Parsed) -> spec_fn(usize) -> Seq<char> {
    |c: usize| t.text_or_empty(t.child_of(c, Rule::Identifier))
}

pub open spec fn properties_below(t: Parsed, i: usize) -> Map<Seq<char>, Seq<char>> {
    match t.child_of(i, Rule::Properties) {
        None => Map::empty(),
        Some(p) => properties_in(t, t.children_of(p, Rule::PropertyKeyValue)),
    }
}

/// Properties with their values; where one comes twice, the last counts.
pub open spec fn properties_in(t: Parsed, cs: Seq<usize>) -> Map<Seq<char>, Seq<char>>
    decreases cs.len(),
{
    if cs.len() == 0 {
        Map::empty()
    } else {
        properties_in(t, cs.drop_last()).insert(
            t.text_or_empty(t.child(cs.last(), 0)),
            t.text_or_empty(t.child(cs.last(), 1)),
        )
    }
}

/// A relationship that starts at a node.
pub open spec fn relationship_at(t: Parsed, i: usize, start_node: Option<Seq<char>>) -> RelationshipView {
    let arrow = t.child(i, 0);
    let direction = match arrow {
        None => RelDirection::Undirected,
        Some(c) => match t.rule(c) {
            Rule::IncomingRel => RelDirection::Incoming,
            Rule::OutgoingRel => RelDirection::Outgoing,
            _ => RelDirection::Undirected,
        },
    };
    let plain = RelationshipView {
        variable: None,
        types: Seq::empty(),
        direction,
        properties: Map::empty(),
        start_node,
        end_node: None,
        path_length: None,
    };
    match arrow {
        None => plain,
        Some(c) => match t.child_of(c, Rule::RelationshipDetail) {
            None => plain,
            Some(d) => RelationshipView {
                variable: optional_text(t, t.child_of(d, Rule::Identifier)),
                types: match t.child_of(d, Rule::RelationshipTypes) {
                    None => Seq::empty(),
                    Some(l) => t.children_of(l, Rule::Identifier).map_values(node_text(t)),
                },
                properties: properties_below(t, d),
                path_length: match t.child_of(d, Rule::PathLength) {
                    None => None,
                    Some(l) => Some(path_length_at(t, l)),
                },
                ..plain
            },
        },
    }
}

pub open spec fn has_dots(s: Seq<char>) -> bool {
    exists|p: int| 0 <= p <= s.len() && #[trigger] text_at(s, p, ".."@)
}

/// The bounds on the length of a path.
pub open spec fn path_length_at(t: Parsed, i: usize) -> PathLength {
    let ns = fitting(t, t.children_of(i, Rule::Integer));
    let s = t.text(i);
    if ns.len() == 0 {
        PathLength { min_length: None, max_length: None }
    } else if ns.len() >= 2 {
        PathLength { min_length: Some(ns[0]), max_length: Some(ns[1]) }
    } else if !has_dots(s) {
        PathLength { min_length: Some(ns[0]), max_length: Some(ns[0]) }
    } else if text_at(s, 0, "*.."@) || text_at(s, 0, "* .."@) {
        PathLength { min_length: None, max_length: Some(ns[0]) }
    } else {
        PathLength { min_length: Some(ns[0]), max_length: None }
    }
}

pub open spec fn return_step(t: Parsed) -> spec_fn(CypherQueryView, usize) -> Result<CypherQueryView, ErrorView> {
    |q: CypherQueryView, c: usize|
        match t.rule(c) {
            Rule::DistinctKw => Ok(CypherQueryView { distinct: true, ..q }),
            Rule::ReturnItems => led(t.children_of(c, Rule::ReturnItem), q, return_item_step(t)),
            _ => Ok(q),
        }
}

pub open spec fn return_item_step(t: Parsed) -> spec_fn(CypherQueryView, usize) -> Result<CypherQueryView, ErrorView> {
    |q: CypherQueryView, c: usize|
        Ok(CypherQueryView { return_expressions: q.return_expressions.push(return_item_at(t, c)), ..q })
}

/// An element of the RETURN clause; a name behind it is its alias.
pub open spec fn return_item_at(t: Parsed, i: usize) -> ReturnView {
    let cs = t.children(i);
    let expression = t.text_or_empty(t.child(i, 0));
    ReturnView {
        expression,
        alias: if cs.len() >= 2 && t.rule(cs.last()) == Rule::Identifier {
            Some(t.text(cs.last()))
        } else {
            None
        },
        aggregate_function: aggregate_in(expression),
        distinct: false,
    }
}

/// The aggregate function that an expression calls; white space around it does
/// not count.
pub open spec fn aggregate_in(expression: Seq<char>) -> Option<AggregateFunction> {
    aggregate_called(capitals(trimmed(expression)))
}

/// The aggregate function whose call a text in capitals starts with.
pub open spec fn aggregate_called(upper: Seq<char>) -> Option<AggregateFunction> {
    if text_at(upper, 0, "COUNT("@) {
        Some(AggregateFunction::Count)
    } else if text_at(upper, 0, "SUM("@) {
        Some(AggregateFunction::Sum)
    } else if text_at(upper, 0, "AVG("@) {
        Some(AggregateFunction::Avg)
    } else if text_at(upper, 0, "MIN("@) {
        Some(AggregateFunction::Min)
    } else if text_at(upper, 0, "MAX("@) {
        Some(AggregateFunction::Max)
    } else if text_at(upper, 0, "COLLECT("@) {
        Some(AggregateFunction::Collect)
    } else {
        None
    }
}

pub open spec fn order_step(t: Parsed) -> spec_fn(CypherQueryView, usize) -> Result<CypherQueryView, ErrorView> {
    |q: CypherQueryView, c: usize|
        Ok(CypherQueryView { order_by_conditions: q.order_by_conditions.push(order_at(t, c)), ..q })
}

pub open spec fn order_at(t: Parsed, i: usize) -> OrderConditionView {
    OrderConditionView {
        expression: t.text_or_empty(t.child_of(i, Rule::Expression)),
        direction: if t.child_of(i, Rule::DescKw) is Some {
            SortDirection::Descending
        } else {
            SortDirection::Ascending
        },
    }
}

pub open spec fn limit_at(t: Parsed, i: usize, q: CypherQueryView) -> Result<CypherQueryView, ErrorView> {
    match t.child_of(i, Rule::Integer) {
        None => Err(syntax("expected limit value"@)),
        Some(c) => match number_at(t, c, "invalid limit: "@) {
            Err(e) => Err(e),
            Ok(n) => Ok(CypherQueryView { limit: Some(n), ..q }),
        },
    }
}

} // verus!
