//! The CypherQL parser.
use vstd::prelude::*;

use crate::names::NameMap;
use crate::parser::ast::{
    lemma_text_map_insert, lemma_texts_push, lemma_views_push, opt_text, text_map, texts, views, AggregateFunction,
    OrderCondition, SortDirection,
};
use crate::parser::ast_cypher::{
    CypherPattern, CypherPatternView, CypherQueryDefinition, CypherQueryDefinitionBuilder, CypherQueryView,
    CypherStreamDefinition, NodePattern, NodePatternView, PathLength, PatternGroup, PatternSource, RelDirection,
    RelationshipPattern, RelationshipView, ReturnExpression,
};
use crate::parser::cqelsql::parse_fitting;
use crate::parser::cqelsql_spec::{node_text, stream_at};
use crate::parser::cypherql_spec::{
    aggregate_called, aggregate_in, chain_in, clause_step, continuous_at, cypher_parsed, element_at, elements_in, ending_at,
    from_clause_step, group_by_at, group_with, has_dots, label_text, last_variable, limit_at, match_step, no_pattern,
    node_at, optional_text, order_at, order_step, path_length_at, pattern_group_at, pattern_part_at, pattern_parts,
    patterns_in, patterns_of, properties_below, properties_in, query_step, quoted_at, register_at, relationship_at,
    return_item_at, return_item_step, return_step, unquoted,
};
use crate::parser::capitals::{is_at, uppercase};
use crate::parser::cypher_laws::{all_linked, groups_linked, law_relationships_link_neighbours, linked};
use crate::parser::error::{agrees, syntax_error, ErrorView, ParseResult};
use crate::parser::grammar::{Language, Rule};
use crate::parser::peg::text_at;
use crate::parser::tree::{
    collected, lead, led, lemma_collected_fails, nodes_after, parse_tree, trim, Tree,
};
use crate::text::{slice_text, to_chars};

verus! {

/// Parses CypherQL queries.
pub struct CypherQlParser;

pub open spec fn any_builder() -> spec_fn(CypherQueryDefinitionBuilder) -> bool {
    |b: CypherQueryDefinitionBuilder| true
}

impl CypherQlParser {
    /// Parses a query.
    pub fn parse(input: &str) -> (r: ParseResult<CypherQueryDefinition>)
        ensures
            agrees(r, cypher_parsed(input@)),
            r matches Ok(q) ==> groups_linked(q@.pattern_groups),
    {
        let tree = match parse_tree(Language::CypherQl, input) {
            None => {
                return Err(syntax_error("the text does not match the query grammar"));
            },
            Some(tree) => tree,
        };
        let t = &tree;
        proof {
            assert(t.nodes@.len() == t.nodes.len());
            assert(t.source.input@.len() == t.source.input.len());
            if cypher_parsed(input@) is Ok {
                law_relationships_link_neighbours(input@);
                let q = cypher_parsed(input@)->Ok_0;
                assert forall|g: int| 0 <= g < q.pattern_groups.len() implies all_linked(
                    (#[trigger] q.pattern_groups[g]).patterns,
                ) by {
                    let patterns = q.pattern_groups[g].patterns;
                    assert forall|p: int| 0 <= p < patterns.len() implies linked(#[trigger] patterns[p]) by {
                        assert(patterns[p] == q.pattern_groups[g].patterns[p]);
                    }
                }
            }
        }
        let builder = CypherQueryDefinition::builder();
        if t.nodes.len() == 0 {
            return Ok(builder.build());
        }
        let cs = t.children(0);
        let step = |b: CypherQueryDefinitionBuilder, c: usize| -> (out: ParseResult<CypherQueryDefinitionBuilder>)
            requires
                c < t@.nodes.len(),
            ensures
                agrees(out, query_step(t@)(b@, c)),
            {
                match t.rule(c) {
                    Rule::RegisterQuery => parse_register_query(t, c, b),
                    Rule::ContinuousQuery => parse_continuous_query(t, c, b),
                    _ => Ok(b),
                }
            };
        match lead(&cs, builder, step, Ghost(query_step(t@)), Ghost(any_builder())) {
            Err(e) => Err(e),
            Ok(b) => Ok(b.build()),
        }
    }
}

fn parse_register_query(t: &Tree, i: usize, builder: CypherQueryDefinitionBuilder) -> (r: ParseResult<
    CypherQueryDefinitionBuilder,
>)
    requires
        i < t@.nodes.len(),
    ensures
        agrees(r, register_at(t@, i, builder@)),
{
    match t.child(i, 0) {
        None => Err(syntax_error("expected query name")),
        Some(n) => {
            let named = builder.name(t.text(n).as_str());
            match t.child(i, 1) {
                None => Ok(named),
                Some(s) => parse_continuous_query(t, s, named),
            }
        },
    }
}

fn parse_continuous_query(t: &Tree, i: usize, builder: CypherQueryDefinitionBuilder) -> (r: ParseResult<
    CypherQueryDefinitionBuilder,
>)
    requires
        i < t@.nodes.len(),
    ensures
        agrees(r, continuous_at(t@, i, builder@)),
{
    let cs = t.children(i);
    let step = |b: CypherQueryDefinitionBuilder, c: usize| -> (out: ParseResult<CypherQueryDefinitionBuilder>)
        requires
            c < t@.nodes.len(),
        ensures
            agrees(out, clause_step(t@)(b@, c)),
        {
            match t.rule(c) {
                Rule::FromClauses => parse_from_clauses(t, c, b),
                Rule::MatchClause => parse_match_clause(t, c, b),
                Rule::WhereClause => Ok(b.where_expression(t.text_or_empty(t.child(c, 0)).as_str())),
                Rule::GroupByClause => Ok(parse_group_by(t, c, b)),
                Rule::HavingClause => Ok(b.add_having_filter(t.text_or_empty(t.child(c, 0)).as_str())),
                Rule::PostReturnHavingClause => Ok(b.add_having_filter(t.text_or_empty(t.child(c, 0)).as_str())),
                Rule::ReturnClause => parse_return_clause(t, c, b),
                Rule::OrderByClause => parse_order_by(t, c, b),
                Rule::LimitClause => parse_limit(t, c, b),
                _ => Ok(b),
            }
        };
    lead(&cs, builder, step, Ghost(clause_step(t@)), Ghost(any_builder()))
}

fn parse_from_clauses(t: &Tree, i: usize, builder: CypherQueryDefinitionBuilder) -> (r: ParseResult<
    CypherQueryDefinitionBuilder,
>)
    requires
        i < t@.nodes.len(),
    ensures
        agrees(r, led(t@.children_of(i, Rule::FromClause), builder@, from_clause_step(t@))),
{
    let cs = t.children_of(i, Rule::FromClause);
    let step = |b: CypherQueryDefinitionBuilder, c: usize| -> (out: ParseResult<CypherQueryDefinitionBuilder>)
        requires
            c < t@.nodes.len(),
        ensures
            agrees(out, from_clause_step(t@)(b@, c)),
        { parse_from_clause(t, c, b) };
    lead(&cs, builder, step, Ghost(from_clause_step(t@)), Ghost(any_builder()))
}

fn parse_from_clause(t: &Tree, i: usize, builder: CypherQueryDefinitionBuilder) -> (r: ParseResult<
    CypherQueryDefinitionBuilder,
>)
    requires
        i < t@.nodes.len(),
    ensures
        agrees(r, from_clause_step(t@)(builder@, i)),
{
    match t.child(i, 0) {
        None => Ok(builder),
        Some(c) => match t.rule(c) {
            Rule::FromStream => match parse_from_stream(t, c) {
                Err(e) => Err(e),
                Ok(s) => Ok(builder.add_stream(s)),
            },
            Rule::FromStatic => match t.parse_graph(c, parse_quoted(t, c)) {
                Err(e) => Err(e),
                Ok(g) => Ok(builder.add_static_graph(g)),
            },
            Rule::FromGraph => match t.parse_graph(c, parse_quoted(t, c)) {
                Err(e) => Err(e),
                Ok(g) => Ok(builder.add_named_graph(g)),
            },
            _ => Ok(builder),
        },
    }
}

fn parse_from_stream(t: &Tree, i: usize) -> (r: ParseResult<CypherStreamDefinition>)
    requires
        i < t@.nodes.len(),
    ensures
        agrees(r, stream_at(t@, i)),
{
    match (t.child(i, 0), t.child(i, 1)) {
        (None, _) => Err(syntax_error("expected stream name")),
        (_, None) => Err(syntax_error("expected window spec")),
        (Some(n), Some(w)) => match t.parse_window_spec(w) {
            Err(e) => Err(e),
            Ok(window) => Ok(CypherStreamDefinition { name: t.text(n), window }),
        },
    }
}

fn unquote_string(s: &str) -> (r: String)
    ensures
        r@ == unquoted(s@),
{
    let chars = to_chars(s);
    let n: usize = chars.len();
    if n >= 2 && (chars[0] == '\'' && chars[n - 1] == '\'' || chars[0] == '"' && chars[n - 1] == '"') {
        slice_text(chars.as_slice(), 1, n - 1)
    } else {
        s.to_string()
    }
}

fn parse_quoted(t: &Tree, i: usize) -> (r: String)
    requires
        i < t@.nodes.len(),
    ensures
        r@ == quoted_at(t@, i),
{
    unquote_string(t.text_or_empty(t.child_of(i, Rule::StringLiteral)).as_str())
}

fn parse_match_clause(t: &Tree, i: usize, builder: CypherQueryDefinitionBuilder) -> (r: ParseResult<
    CypherQueryDefinitionBuilder,
>)
    requires
        i < t@.nodes.len(),
    ensures
        agrees(r, led(t@.children_of(i, Rule::PatternGroup), builder@, match_step(t@))),
{
    let cs = t.children_of(i, Rule::PatternGroup);
    let step = |b: CypherQueryDefinitionBuilder, c: usize| -> (out: ParseResult<CypherQueryDefinitionBuilder>)
        requires
            c < t@.nodes.len(),
        ensures
            agrees(out, match_step(t@)(b@, c)),
        {
            match parse_pattern_group(t, c) {
                Err(e) => Err(e),
                Ok(g) => Ok(b.add_pattern_group(g)),
            }
        };
    lead(&cs, builder, step, Ghost(match_step(t@)), Ghost(any_builder()))
}

/// Patterns are as expected.
spec fn patterns_agree(
    r: ParseResult<Vec<CypherPattern>>,
    expected: Result<Seq<CypherPatternView>, ErrorView>,
) -> bool {
    match (r, expected) {
        (Ok(p), Ok(v)) => views(p@) == v,
        (Err(e), Err(v)) => e@ == v,
        _ => false,
    }
}

fn make_group(source: PatternSource, source_name: Option<String>, patterns: ParseResult<Vec<CypherPattern>>) -> (r:
    ParseResult<PatternGroup>)
    ensures
        forall|expected: Result<Seq<CypherPatternView>, ErrorView>| #[trigger]
            patterns_agree(patterns, expected) ==> agrees(r, group_with(source, opt_text(source_name), expected)),
{
    match patterns {
        Err(e) => Err(e),
        Ok(patterns) => Ok(PatternGroup { source, source_name, patterns }),
    }
}

fn parse_pattern_group(t: &Tree, i: usize) -> (r: ParseResult<PatternGroup>)
    requires
        i < t@.nodes.len(),
    ensures
        agrees(r, pattern_group_at(t@, i)),
{
    let c: usize = match t.child(i, 0) {
        None => {
            return Err(syntax_error("invalid pattern group"));
        },
        Some(c) => c,
    };
    match t.rule(c) {
        Rule::StreamPatternGroup => match t.child(c, 0) {
            None => Err(syntax_error("expected stream name")),
            Some(n) => make_group(PatternSource::Stream, Some(t.text(n)), parse_patterns_in(t, c)),
        },
        Rule::StaticPatternGroup => make_group(PatternSource::Static, None, parse_patterns_in(t, c)),
        Rule::GraphPatternGroup => {
            let uri = unquote_string(t.text_or_empty(t.child(c, 0)).as_str());
            make_group(PatternSource::Graph, Some(uri), parse_patterns_in(t, c))
        },
        Rule::Pattern => make_group(PatternSource::Default, None, parse_cypher_patterns(t, c)),
        _ => Err(syntax_error("invalid pattern group")),
    }
}

fn parse_patterns_in(t: &Tree, i: usize) -> (r: ParseResult<Vec<CypherPattern>>)
    requires
        i < t@.nodes.len(),
    ensures
        patterns_agree(r, patterns_in(t@, i)),
{
    match t.child_of(i, Rule::Pattern) {
        None => {
            let none: Vec<CypherPattern> = Vec::new();
            assert(views(none@) =~= Seq::<CypherPatternView>::empty());
            Ok(none)
        },
        Some(p) => parse_cypher_patterns(t, p),
    }
}

fn parse_cypher_patterns(t: &Tree, i: usize) -> (r: ParseResult<Vec<CypherPattern>>)
    requires
        i < t@.nodes.len(),
    ensures
        patterns_agree(r, patterns_of(t@, i)),
{
    let cs = t.children_of(i, Rule::PatternPart);
    let ghost f = pattern_parts(t@);
    let mut patterns: Vec<CypherPattern> = Vec::new();
    let mut k: usize = 0;
    assert(views(patterns@) =~= Seq::<CypherPatternView>::empty());
    while k < cs.len()
        invariant
            f == pattern_parts(t@),
            cs@ == t@.children_of(i, Rule::PatternPart),
            nodes_after(t@, i, cs@),
            k <= cs@.len(),
            collected(cs@.take(k as int), f) == Ok::<Seq<CypherPatternView>, ErrorView>(views(patterns@)),
        decreases cs@.len() - k,
    {
        assert(cs@.take(k + 1).drop_last() =~= cs@.take(k as int));
        match parse_pattern_part(t, cs[k]) {
            Err(e) => {
                proof {
                    lemma_collected_fails(cs@, f, k + 1);
                }
                return Err(e);
            },
            Ok(p) => {
                proof {
                    lemma_views_push(patterns@, p);
                }
                patterns.push(p);
            },
        }
        k += 1;
    }
    assert(cs@.take(k as int) =~= cs@);
    Ok(patterns)
}

fn empty_pattern() -> (r: CypherPattern)
    ensures
        r@ == no_pattern(),
{
    let r = CypherPattern { nodes: Vec::new(), relationships: Vec::new() };
    assert(r@.nodes =~= Seq::<NodePatternView>::empty());
    assert(r@.relationships =~= Seq::<RelationshipView>::empty());
    r
}

fn parse_pattern_part(t: &Tree, i: usize) -> (r: ParseResult<CypherPattern>)
    requires
        i < t@.nodes.len(),
    ensures
        agrees(r, pattern_part_at(t@, i)),
{
    match t.child_of(i, Rule::AnonymousPatternPart) {
        None => Ok(empty_pattern()),
        Some(a) => match t.child(a, 0) {
            None => Err(syntax_error("expected pattern element in anonymous pattern part")),
            Some(e) => {
                let mut p = empty_pattern();
                parse_pattern_element(t, e, &mut p);
                Ok(p)
            },
        },
    }
}

fn parse_pattern_element(t: &Tree, i: usize, p: &mut CypherPattern)
    requires
        i < t@.nodes.len(),
    ensures
        final(p)@ == element_at(t@, i, old(p)@),
    decreases t@.nodes.len() - i,
{
    let ghost start = p@;
    let cs = t.children(i);
    let mut k: usize = 0;
    while k < cs.len()
        invariant
            i < t@.nodes.len(),
            cs@ == t@.children(i),
            nodes_after(t@, i, cs@),
            k <= cs@.len(),
            p@ == elements_in(t@, i, cs@.take(k as int), start),
        decreases cs@.len() - k,
    {
        assert(cs@.take(k + 1).drop_last() =~= cs@.take(k as int));
        let c: usize = cs[k];
        match t.rule(c) {
            Rule::NodePattern => {
                let node = parse_node_pattern(t, c);
                proof {
                    lemma_views_push(p.nodes@, node);
                }
                p.nodes.push(node);
            },
            Rule::PatternElementChain => {
                parse_chain(t, c, p);
            },
            Rule::PatternElement => {
                parse_pattern_element(t, c, p);
            },
            _ => {},
        }
        k += 1;
    }
    assert(cs@.take(k as int) =~= cs@);
}

fn copy_text(s: &Option<String>) -> (r: Option<String>)
    ensures
        opt_text(r) == opt_text(*s),
{
    match s {
        Some(t) => Some(t.clone()),
        None => None,
    }
}

/// Adds a chain of relationships and nodes.
fn parse_chain(t: &Tree, i: usize, p: &mut CypherPattern)
    requires
        i < t@.nodes.len(),
    ensures
        final(p)@ == chain_in(t@, t@.children(i), old(p)@),
{
    let ghost start = p@;
    let cs = t.children(i);
    let mut k: usize = 0;
    while k < cs.len()
        invariant
            cs@ == t@.children(i),
            nodes_after(t@, i, cs@),
            k <= cs@.len(),
            p@ == chain_in(t@, cs@.take(k as int), start),
        decreases cs@.len() - k,
    {
        assert(cs@.take(k + 1).drop_last() =~= cs@.take(k as int));
        let c: usize = cs[k];
        let ghost before = p@;
        match t.rule(c) {
            Rule::RelationshipPattern => {
                let from: Option<String> = if p.nodes.len() > 0 {
                    copy_text(&p.nodes[p.nodes.len() - 1].variable)
                } else {
                    None
                };
                assert(opt_text(from) == last_variable(before.nodes));
                let rel = parse_relationship_pattern(t, c, from);
                proof {
                    lemma_views_push(p.relationships@, rel);
                }
                p.relationships.push(rel);
            },
            Rule::NodePattern => {
                let node = parse_node_pattern(t, c);
                let end = copy_text(&node.variable);
                let n: usize = p.relationships.len();
                if n > 0 {
                    let ghost rels = p.relationships@;
                    let mut last = p.relationships.remove(n - 1);
                    last.end_node = end;
                    p.relationships.push(last);
                    proof {
                        assert(views(p.relationships@) =~= ending_at(views(rels), node@.variable));
                    }
                }
                proof {
                    lemma_views_push(p.nodes@, node);
                }
                p.nodes.push(node);
            },
            _ => {},
        }
        k += 1;
    }
    assert(cs@.take(k as int) =~= cs@);
}

/// The texts of some nodes.
fn parse_texts(t: &Tree, cs: &Vec<usize>) -> (r: Vec<String>)
    requires
        forall|j: int| 0 <= j < cs@.len() ==> #[trigger] cs@[j] < t@.nodes.len(),
    ensures
        texts(r@) == cs@.map_values(node_text(t@)),
{
    let ghost all = cs@.map_values(node_text(t@));
    let mut r: Vec<String> = Vec::new();
    let mut k: usize = 0;
    assert(texts(r@) =~= all.take(0));
    while k < cs.len()
        invariant
            forall|j: int| 0 <= j < cs@.len() ==> #[trigger] cs@[j] < t@.nodes.len(),
            all == cs@.map_values(node_text(t@)),
            k <= cs@.len(),
            texts(r@) == all.take(k as int),
        decreases cs@.len() - k,
    {
        let s = t.text(cs[k]);
        proof {
            lemma_texts_push(r@, s);
            assert(all.take(k as int).push(all[k as int]) =~= all.take(k + 1));
        }
        r.push(s);
        k += 1;
    }
    assert(all.take(k as int) =~= all);
    r
}

fn parse_labels(t: &Tree, i: usize) -> (r: Vec<String>)
    requires
        i < t@.nodes.len(),
    ensures
        texts(r@) == node_at(t@, i).labels,
{
    let mut r: Vec<String> = Vec::new();
    let l: usize = match t.child_of(i, Rule::NodeLabels) {
        None => {
            assert(texts(r@) =~= Seq::<Seq<char>>::empty());
            return r;
        },
        Some(l) => l,
    };
    let cs = t.children_of(l, Rule::NodeLabel);
    let ghost all = cs@.map_values(label_text(t@));
    let mut k: usize = 0;
    assert(texts(r@) =~= all.take(0));
    while k < cs.len()
        invariant
            nodes_after(t@, l, cs@),
            all == cs@.map_values(label_text(t@)),
            k <= cs@.len(),
            texts(r@) == all.take(k as int),
        decreases cs@.len() - k,
    {
        let c: usize = cs[k];
        let s = t.text_or_empty(t.child_of(c, Rule::Identifier));
        proof {
            lemma_texts_push(r@, s);
            assert(all.take(k as int).push(all[k as int]) =~= all.take(k + 1));
        }
        r.push(s);
        k += 1;
    }
    assert(all.take(k as int) =~= all);
    r
}

fn parse_properties(t: &Tree, i: usize) -> (r: NameMap<String>)
    requires
        i < t@.nodes.len(),
    ensures
        r.wf(),
        text_map(r@) == properties_below(t@, i),
{
    let mut r: NameMap<String> = NameMap::new();
    assert(text_map(r@) =~= Map::<Seq<char>, Seq<char>>::empty());
    let p: usize = match t.child_of(i, Rule::Properties) {
        None => {
            return r;
        },
        Some(p) => p,
    };
    let cs = t.children_of(p, Rule::PropertyKeyValue);
    let mut k: usize = 0;
    while k < cs.len()
        invariant
            r.wf(),
            nodes_after(t@, p, cs@),
            k <= cs@.len(),
            text_map(r@) == properties_in(t@, cs@.take(k as int)),
        decreases cs@.len() - k,
    {
        assert(cs@.take(k + 1).drop_last() =~= cs@.take(k as int));
        let c: usize = cs[k];
        let key = t.text_or_empty(t.child(c, 0));
        let value = t.text_or_empty(t.child(c, 1));
        proof {
            lemma_text_map_insert(r@, key@, value);
        }
        r.insert(key.as_str(), value);
        k += 1;
    }
    assert(cs@.take(k as int) =~= cs@);
    r
}

fn parse_optional_text(t: &Tree, c: Option<usize>) -> (r: Option<String>)
    requires
        c matches Some(c) ==> c < t@.nodes.len(),
    ensures
        opt_text(r) == optional_text(t@, c),
{
    match c {
        Some(c) => Some(t.text(c)),
        None => None,
    }
}

fn parse_node_pattern(t: &Tree, i: usize) -> (r: NodePattern)
    requires
        i < t@.nodes.len(),
    ensures
        r@ == node_at(t@, i),
{
    let variable = parse_optional_text(t, t.child_of(i, Rule::Identifier));
    let labels = parse_labels(t, i);
    let properties = parse_properties(t, i);
    NodePattern { variable, labels, properties }
}

fn parse_relationship_pattern(t: &Tree, i: usize, start_node: Option<String>) -> (r: RelationshipPattern)
    requires
        i < t@.nodes.len(),
    ensures
        r@ == relationship_at(t@, i, opt_text(start_node)),
{
    let mut r = RelationshipPattern {
        variable: None,
        types: Vec::new(),
        direction: RelDirection::Undirected,
        properties: NameMap::new(),
        start_node,
        end_node: None,
        path_length: None,
    };
    proof {
        assert(r@.types =~= Seq::<Seq<char>>::empty());
        assert(r@.properties =~= Map::<Seq<char>, Seq<char>>::empty());
    }
    let c: usize = match t.child(i, 0) {
        None => {
            return r;
        },
        Some(c) => c,
    };
    match t.rule(c) {
        Rule::IncomingRel => {
            r.direction = RelDirection::Incoming;
        },
        Rule::OutgoingRel => {
            r.direction = RelDirection::Outgoing;
        },
        _ => {},
    }
    match t.child_of(c, Rule::RelationshipDetail) {
        None => {},
        Some(d) => {
            parse_rel_detail(t, d, &mut r);
        },
    }
    r
}

fn parse_rel_detail(t: &Tree, d: usize, r: &mut RelationshipPattern)
    requires
        d < t@.nodes.len(),
        texts(old(r).types@) == Seq::<Seq<char>>::empty(),
    ensures
        final(r)@ == (RelationshipView {
            variable: optional_text(t@, t@.child_of(d, Rule::Identifier)),
            types: match t@.child_of(d, Rule::RelationshipTypes) {
                None => Seq::empty(),
                Some(l) => t@.children_of(l, Rule::Identifier).map_values(node_text(t@)),
            },
            properties: properties_below(t@, d),
            path_length: match t@.child_of(d, Rule::PathLength) {
                None => None,
                Some(l) => Some(path_length_at(t@, l)),
            },
            ..old(r)@
        }),
{
    r.variable = parse_optional_text(t, t.child_of(d, Rule::Identifier));
    match t.child_of(d, Rule::RelationshipTypes) {
        None => {},
        Some(l) => {
            let cs = t.children_of(l, Rule::Identifier);
            r.types = parse_texts(t, &cs);
        },
    }
    match t.child_of(d, Rule::PathLength) {
        None => {
            r.path_length = None;
        },
        Some(l) => {
            r.path_length = Some(parse_path_length(t, l));
        },
    }
    r.properties = parse_properties(t, d);
}

fn contains_dots(s: &Vec<char>) -> (r: bool)
    ensures
        r == has_dots(s@),
{
    let mut p: usize = 0;
    proof {
        reveal_strlit("..");
    }
    while p < s.len()
        invariant
            p <= s@.len(),
            ".."@.len() == 2,
            ".."@[0] == '.',
            ".."@[1] == '.',
            forall|q: int| 0 <= q < p ==> !#[trigger] text_at(s@, q, ".."@),
        decreases s@.len() - p,
    {
        if s.len() - p >= 2 && s[p] == '.' && s[p + 1] == '.' {
            assert(s@.subrange(p as int, p + 2) =~= ".."@);
            assert(text_at(s@, p as int, ".."@));
            return true;
        }
        proof {
            if text_at(s@, p as int, ".."@) {
                assert(s@.subrange(p as int, p + 2)[0] == s@[p as int]);
                assert(s@.subrange(p as int, p + 2)[1] == s@[p + 1]);
            }
        }
        p += 1;
    }
    false
}

fn parse_path_length(t: &Tree, i: usize) -> (r: PathLength)
    requires
        i < t@.nodes.len(),
    ensures
        r == path_length_at(t@, i),
{
    let cs = t.children_of(i, Rule::Integer);
    let ns = parse_fitting(t, &cs);
    let s = to_chars(t.text(i).as_str());
    if ns.len() == 0 {
        PathLength { min_length: None, max_length: None }
    } else if ns.len() >= 2 {
        PathLength { min_length: Some(ns[0]), max_length: Some(ns[1]) }
    } else if !contains_dots(&s) {
        PathLength { min_length: Some(ns[0]), max_length: Some(ns[0]) }
    } else if is_at(&s, 0, "*..") || is_at(&s, 0, "* ..") {
        PathLength { min_length: None, max_length: Some(ns[0]) }
    } else {
        PathLength { min_length: Some(ns[0]), max_length: None }
    }
}

fn parse_return_clause(t: &Tree, i: usize, builder: CypherQueryDefinitionBuilder) -> (r: ParseResult<
    CypherQueryDefinitionBuilder,
>)
    requires
        i < t@.nodes.len(),
    ensures
        agrees(r, led(t@.children(i), builder@, return_step(t@))),
{
    let cs = t.children(i);
    let step = |b: CypherQueryDefinitionBuilder, c: usize| -> (out: ParseResult<CypherQueryDefinitionBuilder>)
        requires
            c < t@.nodes.len(),
        ensures
            agrees(out, return_step(t@)(b@, c)),
        {
            match t.rule(c) {
                Rule::DistinctKw => Ok(b.distinct(true)),
                Rule::ReturnItems => parse_return_items(t, c, b),
                _ => Ok(b),
            }
        };
    lead(&cs, builder, step, Ghost(return_step(t@)), Ghost(any_builder()))
}

fn parse_return_items(t: &Tree, i: usize, builder: CypherQueryDefinitionBuilder) -> (r: ParseResult<
    CypherQueryDefinitionBuilder,
>)
    requires
        i < t@.nodes.len(),
    ensures
        agrees(r, led(t@.children_of(i, Rule::ReturnItem), builder@, return_item_step(t@))),
{
    let cs = t.children_of(i, Rule::ReturnItem);
    let step = |b: CypherQueryDefinitionBuilder, c: usize| -> (out: ParseResult<CypherQueryDefinitionBuilder>)
        requires
            c < t@.nodes.len(),
        ensures
            agrees(out, return_item_step(t@)(b@, c)),
        { Ok(b.add_return_expression(parse_return_item(t, c))) };
    lead(&cs, builder, step, Ghost(return_item_step(t@)), Ghost(any_builder()))
}

fn parse_return_item(t: &Tree, i: usize) -> (r: ReturnExpression)
    requires
        i < t@.nodes.len(),
    ensures
        r@ == return_item_at(t@, i),
{
    let cs = t.children(i);
    let expression = t.text_or_empty(t.child(i, 0));
    let mut alias: Option<String> = None;
    if cs.len() >= 2 {
        let last: usize = cs[cs.len() - 1];
        if t.rule(last) == Rule::Identifier {
            alias = Some(t.text(last));
        }
    }
    let aggregate_function = detect_aggregate(expression.as_str());
    ReturnExpression { expression, alias, aggregate_function, distinct: false }
}

/// The aggregate function that an expression calls.
pub fn detect_aggregate(expr: &str) -> (r: Option<AggregateFunction>)
    ensures
        r == aggregate_in(expr@),
{
    let upper = uppercase(trim(expr).as_str());
    aggregate_by_capitals(upper.as_str())
}

/// The aggregate function whose call a text in capitals starts with.
pub fn aggregate_by_capitals(upper: &str) -> (r: Option<AggregateFunction>)
    ensures
        r == aggregate_called(upper@),
{
    let chars = to_chars(upper);
    if is_at(&chars, 0, "COUNT(") {
        Some(AggregateFunction::Count)
    } else if is_at(&chars, 0, "SUM(") {
        Some(AggregateFunction::Sum)
    } else if is_at(&chars, 0, "AVG(") {
        Some(AggregateFunction::Avg)
    } else if is_at(&chars, 0, "MIN(") {
        Some(AggregateFunction::Min)
    } else if is_at(&chars, 0, "MAX(") {
        Some(AggregateFunction::Max)
    } else if is_at(&chars, 0, "COLLECT(") {
        Some(AggregateFunction::Collect)
    } else {
        None
    }
}

fn parse_group_by(t: &Tree, i: usize, builder: CypherQueryDefinitionBuilder) -> (r: CypherQueryDefinitionBuilder)
    requires
        i < t@.nodes.len(),
    ensures
        r@ == group_by_at(t@, i, builder@),
{
    let ghost q = builder@;
    let cs = t.children_of(i, Rule::GroupItem);
    let ghost all = cs@.map_values(node_text(t@));
    let mut b = builder;
    let mut k: usize = 0;
    assert(q.group_by_expressions + all.take(0) =~= q.group_by_expressions);
    while k < cs.len()
        invariant
            k <= cs@.len(),
            nodes_after(t@, i, cs@),
            all == cs@.map_values(node_text(t@)),
            b@ == (CypherQueryView { group_by_expressions: q.group_by_expressions + all.take(k as int), ..q }),
        decreases cs@.len() - k,
    {
        b = b.add_group_by(t.text(cs[k]).as_str());
        proof {
            assert(all[k as int] == t@.text(cs@[k as int]));
            assert((q.group_by_expressions + all.take(k as int)).push(all[k as int]) =~= q.group_by_expressions
                + all.take(k + 1));
        }
        k += 1;
    }
    assert(all.take(k as int) =~= all);
    b
}

fn parse_order_item(t: &Tree, i: usize) -> (r: OrderCondition)
    requires
        i < t@.nodes.len(),
    ensures
        r@ == order_at(t@, i),
{
    let expression = t.text_or_empty(t.child_of(i, Rule::Expression));
    let direction = if t.child_of(i, Rule::DescKw).is_some() {
        SortDirection::Descending
    } else {
        SortDirection::Ascending
    };
    OrderCondition { expression, direction }
}

fn parse_order_by(t: &Tree, i: usize, builder: CypherQueryDefinitionBuilder) -> (r: ParseResult<
    CypherQueryDefinitionBuilder,
>)
    requires
        i < t@.nodes.len(),
    ensures
        agrees(r, led(t@.children_of(i, Rule::OrderItem), builder@, order_step(t@))),
{
    let cs = t.children_of(i, Rule::OrderItem);
    let step = |b: CypherQueryDefinitionBuilder, c: usize| -> (out: ParseResult<CypherQueryDefinitionBuilder>)
        requires
            c < t@.nodes.len(),
        ensures
            agrees(out, order_step(t@)(b@, c)),
        { Ok(b.add_order_by(parse_order_item(t, c))) };
    lead(&cs, builder, step, Ghost(order_step(t@)), Ghost(any_builder()))
}

fn parse_limit(t: &Tree, i: usize, builder: CypherQueryDefinitionBuilder) -> (r: ParseResult<CypherQueryDefinitionBuilder>)
    requires
        i < t@.nodes.len(),
    ensures
        agrees(r, limit_at(t@, i, builder@)),
{
    match t.child_of(i, Rule::Integer) {
        None => Err(syntax_error("expected limit value")),
        Some(c) => match t.parse_number(c, "invalid limit: ") {
            Err(e) => Err(e),
            Ok(n) => Ok(builder.limit(n)),
        },
    }
}

} // verus!
