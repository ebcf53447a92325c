//! The CQELS-QL parser.
use vstd::prelude::*;

use crate::listing::{concat, lemma_concat_take};
use crate::names::same_name;
use crate::parser::ast::{
    group_view, group_views, lemma_group_views_index, lemma_group_views_len, lemma_group_views_push, lemma_views_push,
    views, AggregateFunction, AggregateSpec, CqelsPatternGroup, CqelsQueryDefinition, CqelsQueryDefinitionBuilder,
    CqelsQueryType, CqelsQueryView, CqelsStreamDefinition, GroupView, NamedWindowDefinition, OrderCondition,
    SelectElement, SelectView, SeqArg, SeqArgView, SeqConstraint, SortDirection, StreamSemantics, TriplePattern,
    WindowSpec, SEQ_UNBOUNDED,
};
use crate::parser::cqels_laws::{all_read_from, groups_read_from, law_triples_stand_in_the_text};
use crate::parser::cqelsql_spec::{
    aggregate_cut, aggregate_of, ask_at, ask_step, bare_variable, between_nodes, construct_at, construct_step, cqels_parsed,
    describe_at, describe_step, described, first_behind_union, fitting, from_clause_step, from_clauses_at,
    function_of, group_at, group_by_at, group_step, groups_in, hoisted, implicitly_bound, iri_at, lift_step, limit_at,
    mentions_union, named_window_at, node_text, object_nodes, occurrences_at, optional_at, order_at, order_by_at,
    order_step, predicate_at, predicate_triples, prefix_at, query_step, register_at, scope_one, scoped, select_at,
    select_element_at, select_element_step, select_list_at, select_step, semantics_at, sequence_arg_at, sequence_args,
    sequence_at, stream_at, top_groups_at, triple_with, triples, triples_in, triples_of, union_at, union_split,
    variable_element, where_at,
};
use crate::parser::capitals::{count_bytes, count_chars, is_at, is_within, uppercase};
use crate::parser::error::{agrees, syntax_error, ErrorView, ParseError, ParseResult};
use crate::parser::grammar::{Language, Rule};
use crate::parser::tree::{
    collected, find_first, find_last, lead, lemma_collected_fails, nodes_after, parse_tree, strip_brackets,
    strip_trailing, trim, trim_slice, Parsed, Tree,
};
use crate::text::{append_text, read_number, slice_text, to_chars};

verus! {

/// Parses CQELS-QL queries.
pub struct CqelsQlParser;

pub open spec fn builder_ok() -> spec_fn(CqelsQueryDefinitionBuilder) -> bool {
    |b: CqelsQueryDefinitionBuilder| b.wf()
}

impl CqelsQlParser {
    /// Parses a query.
    pub fn parse(input: &str) -> (r: ParseResult<CqelsQueryDefinition>)
        ensures
            agrees(r, cqels_parsed(input@)),
            r is Ok ==> r->Ok_0.wf(),
            r matches Ok(q) ==> groups_read_from(input@, q@.pattern_groups) && all_read_from(
                input@,
                q@.construct_template,
            ),
    {
        let tree = match parse_tree(Language::CqelsQl, input) {
            None => {
                return Err(syntax_error("the text does not match the query grammar"));
            },
            Some(tree) => tree,
        };
        let t = &tree;
        proof {
            assert(t.nodes@.len() == t.nodes.len());
            assert(t.source.input@.len() == t.source.input.len());
            if cqels_parsed(input@) is Ok {
                law_triples_stand_in_the_text(input@);
            }
        }
        let builder = CqelsQueryDefinition::builder();
        if t.nodes.len() == 0 {
            return Ok(builder.build());
        }
        let cs = t.children(0);
        let step = |b: CqelsQueryDefinitionBuilder, c: usize| -> (out: ParseResult<CqelsQueryDefinitionBuilder>)
            requires
                b.wf(),
                c < t@.nodes.len(),
            ensures
                agrees(out, query_step(t@)(b@, c)),
                out is Ok ==> out->Ok_0.wf(),
            {
                match t.rule(c) {
                    Rule::PrefixDecl => match parse_prefix_decl(t, c) {
                        Err(e) => Err(e),
                        Ok((prefix, uri)) => Ok(b.add_prefix(prefix.as_str(), uri.as_str())),
                    },
                    Rule::RegisterQuery => parse_register_query(t, c, b),
                    Rule::SelectQuery => parse_select_query(t, c, b),
                    Rule::ConstructQuery => parse_construct_query(t, c, b),
                    Rule::AskQuery => parse_ask_query(t, c, b),
                    Rule::DescribeQuery => parse_describe_query(t, c, b),
                    _ => Ok(b),
                }
            };
        match lead(&cs, builder, step, Ghost(query_step(t@)), Ghost(builder_ok())) {
            Err(e) => Err(e),
            Ok(b) => Ok(b.build()),
        }
    }
}

fn parse_prefix_decl(t: &Tree, i: usize) -> (r: ParseResult<(String, String)>)
    requires
        i < t@.nodes.len(),
    ensures
        match prefix_at(t@, i) {
            Err(e) => r is Err && r->Err_0@ == e,
            Ok((prefix, uri)) => r is Ok && r->Ok_0.0@ == prefix && r->Ok_0.1@ == uri,
        },
{
    match (t.child(i, 0), t.child(i, 1)) {
        (None, _) => Err(syntax_error("expected prefix name")),
        (_, None) => Err(syntax_error("expected IRI")),
        (Some(p), Some(u)) => {
            let prefix = strip_trailing(t.text(p).as_str(), ':');
            let uri = strip_brackets(t.text(u).as_str());
            Ok((prefix, uri))
        },
    }
}

fn parse_register_query(t: &Tree, i: usize, builder: CqelsQueryDefinitionBuilder) -> (r: ParseResult<
    CqelsQueryDefinitionBuilder,
>)
    requires
        i < t@.nodes.len(),
        builder.wf(),
    ensures
        agrees(r, register_at(t@, i, builder@)),
        r is Ok ==> r->Ok_0.wf(),
{
    match t.child(i, 0) {
        None => Err(syntax_error("expected query name")),
        Some(n) => {
            let named = builder.name(t.text(n).as_str());
            match t.child(i, 1) {
                None => Ok(named),
                Some(s) => parse_select_query(t, s, named),
            }
        },
    }
}

fn parse_select_query(t: &Tree, i: usize, builder: CqelsQueryDefinitionBuilder) -> (r: ParseResult<
    CqelsQueryDefinitionBuilder,
>)
    requires
        i < t@.nodes.len(),
        builder.wf(),
    ensures
        agrees(r, select_at(t@, i, builder@)),
        r is Ok ==> r->Ok_0.wf(),
{
    let cs = t.children(i);
    let step = |b: CqelsQueryDefinitionBuilder, c: usize| -> (out: ParseResult<CqelsQueryDefinitionBuilder>)
        requires
            b.wf(),
            c < t@.nodes.len(),
        ensures
            agrees(out, select_step(t@)(b@, c)),
            out is Ok ==> out->Ok_0.wf(),
        {
            match t.rule(c) {
                Rule::StreamSemantics => Ok(parse_stream_semantics(t, c, b)),
                Rule::SelectList => parse_select_list(t, c, b),
                Rule::FromClauses => parse_from_clauses(t, c, b),
                Rule::WhereClause => parse_where_clause(t, c, b),
                Rule::GroupByClause => Ok(parse_group_by(t, c, b)),
                Rule::OrderByClause => parse_order_by(t, c, b),
                Rule::LimitClause => parse_limit(t, c, b),
                _ => Ok(b),
            }
        };
    lead(
        &cs,
        builder.query_type(CqelsQueryType::Select),
        step,
        Ghost(select_step(t@)),
        Ghost(builder_ok()),
    )
}

fn parse_construct_query(t: &Tree, i: usize, builder: CqelsQueryDefinitionBuilder) -> (r: ParseResult<
    CqelsQueryDefinitionBuilder,
>)
    requires
        i < t@.nodes.len(),
        builder.wf(),
    ensures
        agrees(r, construct_at(t@, i, builder@)),
        r is Ok ==> r->Ok_0.wf(),
{
    let cs = t.children(i);
    let step = |b: CqelsQueryDefinitionBuilder, c: usize| -> (out: ParseResult<CqelsQueryDefinitionBuilder>)
        requires
            b.wf(),
            c < t@.nodes.len(),
        ensures
            agrees(out, construct_step(t@)(b@, c)),
            out is Ok ==> out->Ok_0.wf(),
        {
            match t.rule(c) {
                Rule::ConstructTemplate => Ok(parse_construct_template(t, c, b)),
                Rule::FromClauses => parse_from_clauses(t, c, b),
                Rule::WhereClause => parse_where_clause(t, c, b),
                _ => Ok(b),
            }
        };
    lead(
        &cs,
        builder.query_type(CqelsQueryType::Construct),
        step,
        Ghost(construct_step(t@)),
        Ghost(builder_ok()),
    )
}

fn parse_construct_template(t: &Tree, i: usize, builder: CqelsQueryDefinitionBuilder) -> (r: CqelsQueryDefinitionBuilder)
    requires
        i < t@.nodes.len(),
        builder.wf(),
    ensures
        r.wf(),
        r@ == (CqelsQueryView { construct_template: builder@.construct_template + triples_in(t@, i), ..builder@ }),
{
    let ghost q = builder@;
    let rest = parse_triples_in(t, i);
    let ghost given = rest@;
    let ghost all = views(given);
    let ghost mut k: int = 0;
    let mut b = builder;
    assert(q.construct_template + all.take(0) =~= q.construct_template);
    for pattern in iter: rest
        invariant
            b.wf(),
            0 <= k <= given.len(),
            iter.seq() == given,
            iter.index() == k,
            all == views(given),
            b@ == (CqelsQueryView { construct_template: q.construct_template + all.take(k), ..q }),
    {
        b = b.add_construct_template(pattern);
        proof {
            assert(all[k] == given[k]@);
            assert((q.construct_template + all.take(k)).push(all[k]) =~= q.construct_template + all.take(k + 1));
            k = k + 1;
        }
    }
    assert(all.take(k) =~= all);
    b
}

fn parse_ask_query(t: &Tree, i: usize, builder: CqelsQueryDefinitionBuilder) -> (r: ParseResult<
    CqelsQueryDefinitionBuilder,
>)
    requires
        i < t@.nodes.len(),
        builder.wf(),
    ensures
        agrees(r, ask_at(t@, i, builder@)),
        r is Ok ==> r->Ok_0.wf(),
{
    let cs = t.children(i);
    let step = |b: CqelsQueryDefinitionBuilder, c: usize| -> (out: ParseResult<CqelsQueryDefinitionBuilder>)
        requires
            b.wf(),
            c < t@.nodes.len(),
        ensures
            agrees(out, ask_step(t@)(b@, c)),
            out is Ok ==> out->Ok_0.wf(),
        {
            match t.rule(c) {
                Rule::FromClauses => parse_from_clauses(t, c, b),
                Rule::WhereClause => parse_where_clause(t, c, b),
                _ => Ok(b),
            }
        };
    lead(&cs, builder.query_type(CqelsQueryType::Ask), step, Ghost(ask_step(t@)), Ghost(builder_ok()))
}

fn parse_describe_query(t: &Tree, i: usize, builder: CqelsQueryDefinitionBuilder) -> (r: ParseResult<
    CqelsQueryDefinitionBuilder,
>)
    requires
        i < t@.nodes.len(),
        builder.wf(),
    ensures
        agrees(r, describe_at(t@, i, builder@)),
        r is Ok ==> r->Ok_0.wf(),
{
    let cs = t.children(i);
    let step = |b: CqelsQueryDefinitionBuilder, c: usize| -> (out: ParseResult<CqelsQueryDefinitionBuilder>)
        requires
            b.wf(),
            c < t@.nodes.len(),
        ensures
            agrees(out, describe_step(t@)(b@, c)),
            out is Ok ==> out->Ok_0.wf(),
        {
            match t.rule(c) {
                Rule::DescribeTarget => Ok(parse_describe_target(t, c, b)),
                Rule::FromClauses => parse_from_clauses(t, c, b),
                Rule::WhereClause => parse_where_clause(t, c, b),
                _ => Ok(b),
            }
        };
    lead(
        &cs,
        builder.query_type(CqelsQueryType::Describe),
        step,
        Ghost(describe_step(t@)),
        Ghost(builder_ok()),
    )
}

fn parse_describe_target(t: &Tree, i: usize, builder: CqelsQueryDefinitionBuilder) -> (r: CqelsQueryDefinitionBuilder)
    requires
        i < t@.nodes.len(),
        builder.wf(),
    ensures
        r.wf(),
        r@ == described(t@, t@.children_of(i, Rule::Variable), builder@),
{
    let ghost q = builder@;
    let cs = t.children_of(i, Rule::Variable);
    let ghost all = cs@.map_values(variable_element(t@));
    let mut b = builder;
    let mut k: usize = 0;
    assert(q.select_elements + all.take(0) =~= q.select_elements);
    while k < cs.len()
        invariant
            b.wf(),
            k <= cs@.len(),
            nodes_after(t@, i, cs@),
            all == cs@.map_values(variable_element(t@)),
            b@ == (CqelsQueryView { select_elements: q.select_elements + all.take(k as int), ..q }),
        decreases cs@.len() - k,
    {
        b = b.add_select_element(SelectElement::Variable(t.text(cs[k])));
        proof {
            assert(all[k as int] == SelectView::Variable(t@.text(cs@[k as int])));
            assert((q.select_elements + all.take(k as int)).push(all[k as int]) =~= q.select_elements + all.take(
                k + 1,
            ));
        }
        k += 1;
    }
    assert(all.take(k as int) =~= all);
    b
}

fn parse_stream_semantics(t: &Tree, i: usize, builder: CqelsQueryDefinitionBuilder) -> (r: CqelsQueryDefinitionBuilder)
    requires
        i < t@.nodes.len(),
        builder.wf(),
    ensures
        r.wf(),
        r@ == semantics_at(t@, i, builder@),
{
    match t.child(i, 0) {
        None => builder,
        Some(c) => match t.rule(c) {
            Rule::IstreamKw => builder.stream_semantics(StreamSemantics::IStream),
            Rule::DstreamKw => builder.stream_semantics(StreamSemantics::DStream),
            Rule::RstreamKw => builder.stream_semantics(StreamSemantics::RStream),
            _ => builder,
        },
    }
}

fn parse_select_list(t: &Tree, i: usize, builder: CqelsQueryDefinitionBuilder) -> (r: ParseResult<
    CqelsQueryDefinitionBuilder,
>)
    requires
        i < t@.nodes.len(),
        builder.wf(),
    ensures
        agrees(r, select_list_at(t@, i, builder@)),
        r is Ok ==> r->Ok_0.wf(),
{
    let cs = t.children(i);
    let step = |b: CqelsQueryDefinitionBuilder, c: usize| -> (out: ParseResult<CqelsQueryDefinitionBuilder>)
        requires
            b.wf(),
            c < t@.nodes.len(),
        ensures
            agrees(out, select_element_step(t@)(b@, c)),
            out is Ok ==> out->Ok_0.wf(),
        {
            match t.rule(c) {
                Rule::DistinctKw => Ok(b.distinct(true)),
                Rule::SelectElement => Ok(parse_select_element(t, c, b)),
                _ => Ok(b),
            }
        };
    lead(&cs, builder, step, Ghost(select_element_step(t@)), Ghost(builder_ok()))
}

fn parse_select_element(t: &Tree, i: usize, builder: CqelsQueryDefinitionBuilder) -> (r: CqelsQueryDefinitionBuilder)
    requires
        i < t@.nodes.len(),
        builder.wf(),
    ensures
        r.wf(),
        r@ == select_element_at(t@, i, builder@),
{
    match t.child(i, 0) {
        None => builder,
        Some(c) => match t.rule(c) {
            Rule::Variable => builder.add_select_element(SelectElement::Variable(t.text(c))),
            Rule::ExpressionAlias => {
                let expression = t.text_or_empty(t.child(c, 0));
                let alias = t.text_or_empty(t.child(c, 1));
                let b = match try_parse_aggregate(expression.as_str(), alias.as_str()) {
                    Some(a) => builder.add_aggregate(a),
                    None => builder,
                };
                b.add_select_element(SelectElement::Expression { expression, alias })
            },
            _ => builder,
        },
    }
}

fn aggregate_function(upper: &Vec<char>) -> (r: Option<AggregateFunction>)
    ensures
        r == function_of(upper@),
{
    if is_at(upper, 0, "GROUP_CONCAT") {
        Some(AggregateFunction::GroupConcat)
    } else if is_at(upper, 0, "COUNT") {
        Some(AggregateFunction::Count)
    } else if is_at(upper, 0, "AVG") {
        Some(AggregateFunction::Avg)
    } else if is_at(upper, 0, "SUM") {
        Some(AggregateFunction::Sum)
    } else if is_at(upper, 0, "MIN") {
        Some(AggregateFunction::Min)
    } else if is_at(upper, 0, "MAX") {
        Some(AggregateFunction::Max)
    } else {
        None
    }
}

/// Reads an expression as an aggregate.
pub fn try_parse_aggregate(expr: &str, alias: &str) -> (r: Option<AggregateSpec>)
    ensures
        match aggregate_of(expr@, alias@) {
            None => r is None,
            Some(a) => r is Some && r->0@ == a,
        },
{
    let upper = uppercase(trim(expr).as_str());
    cut_aggregate(expr, upper.as_str(), alias)
}

/// Reads an expression as an aggregate by its text in capitals.
pub fn cut_aggregate(expr: &str, upper: &str, alias: &str) -> (r: Option<AggregateSpec>)
    ensures
        match aggregate_cut(expr@, upper@, alias@) {
            None => r is None,
            Some(a) => r is Some && r->0@ == a,
        },
{
    let chars = to_chars(expr);
    let upper = to_chars(upper);
    match (aggregate_function(&upper), find_first(&upper, '('), find_last(&upper, ')')) {
        (Some(function), Some(open), Some(close)) => {
            let start: u128 = count_bytes(&upper, open) + 1;
            let end: u128 = count_bytes(&upper, close);
            match (count_chars(&chars, start), count_chars(&chars, end)) {
                (Some(from), Some(to)) => if from <= to {
                    let argument = trim_slice(&chars, from, to);
                    Some(AggregateSpec { function, argument, alias: alias.to_string() })
                } else {
                    None
                },
                _ => None,
            }
        },
        _ => None,
    }
}

fn parse_from_clauses(t: &Tree, i: usize, builder: CqelsQueryDefinitionBuilder) -> (r: ParseResult<
    CqelsQueryDefinitionBuilder,
>)
    requires
        i < t@.nodes.len(),
        builder.wf(),
    ensures
        agrees(r, from_clauses_at(t@, i, builder@)),
        r is Ok ==> r->Ok_0.wf(),
{
    let cs = t.children_of(i, Rule::FromClause);
    let step = |b: CqelsQueryDefinitionBuilder, c: usize| -> (out: ParseResult<CqelsQueryDefinitionBuilder>)
        requires
            b.wf(),
            c < t@.nodes.len(),
        ensures
            agrees(out, from_clause_step(t@)(b@, c)),
            out is Ok ==> out->Ok_0.wf(),
        { parse_from_clause(t, c, b) };
    lead(&cs, builder, step, Ghost(from_clause_step(t@)), Ghost(builder_ok()))
}

fn parse_from_clause(t: &Tree, i: usize, builder: CqelsQueryDefinitionBuilder) -> (r: ParseResult<
    CqelsQueryDefinitionBuilder,
>)
    requires
        i < t@.nodes.len(),
        builder.wf(),
    ensures
        agrees(r, from_clause_step(t@)(builder@, i)),
        r is Ok ==> r->Ok_0.wf(),
{
    match t.child(i, 0) {
        None => Ok(builder),
        Some(c) => match t.rule(c) {
            Rule::FromStream => match parse_from_stream(t, c) {
                Err(e) => Err(e),
                Ok(s) => Ok(builder.add_stream(s)),
            },
            Rule::FromNamedWindow => match parse_from_named_window(t, c) {
                Err(e) => Err(e),
                Ok(w) => Ok(builder.add_named_window(w)),
            },
            Rule::FromStatic => match t.parse_graph(c, parse_iri(t, c)) {
                Err(e) => Err(e),
                Ok(g) => Ok(builder.add_static_graph(g)),
            },
            Rule::FromNamed => match t.parse_graph(c, parse_iri(t, c)) {
                Err(e) => Err(e),
                Ok(g) => Ok(builder.add_named_graph(g)),
            },
            _ => Ok(builder),
        },
    }
}

fn parse_iri(t: &Tree, i: usize) -> (r: String)
    requires
        i < t@.nodes.len(),
    ensures
        r@ == iri_at(t@, i),
{
    strip_brackets(t.text_or_empty(t.child_of(i, Rule::IriRef)).as_str())
}

fn parse_from_stream(t: &Tree, i: usize) -> (r: ParseResult<CqelsStreamDefinition>)
    requires
        i < t@.nodes.len(),
    ensures
        agrees(r, stream_at(t@, i)),
{
    match (t.child(i, 0), t.child(i, 1)) {
        (None, _) => Err(syntax_error("expected stream name")),
        (_, None) => Err(syntax_error("expected window spec")),
        (Some(n), Some(w)) => match t.parse_window_spec(w) {
            Err(e) => Err(e),
            Ok(window) => Ok(CqelsStreamDefinition::root(t.text(n), window)),
        },
    }
}

fn parse_from_named_window(t: &Tree, i: usize) -> (r: ParseResult<NamedWindowDefinition>)
    requires
        i < t@.nodes.len(),
    ensures
        agrees(r, named_window_at(t@, i)),
{
    match (t.child_of(i, Rule::IriRef), t.child_of(i, Rule::Identifier), t.child_of(i, Rule::WindowSpec)) {
        (None, _, _) => Err(syntax_error("expected window IRI")),
        (_, None, _) => Err(syntax_error("expected stream name")),
        (_, _, None) => Err(syntax_error("expected window spec")),
        (Some(u), Some(s), Some(w)) => match t.parse_window_spec(w) {
            Err(e) => Err(e),
            Ok(window) => Ok(
                NamedWindowDefinition { iri: strip_brackets(t.text(u).as_str()), stream: t.text(s), window },
            ),
        },
    }
}

/// Groups of patterns, seen as what they say.
struct Groups {
    list: Vec<CqelsPatternGroup>,
}

impl View for Groups {
    type V = Seq<GroupView>;

    closed spec fn view(&self) -> Seq<GroupView> {
        group_views(self.list@)
    }
}

spec fn any_groups() -> spec_fn(Groups) -> bool {
    |g: Groups| true
}

fn parse_where_clause(t: &Tree, i: usize, builder: CqelsQueryDefinitionBuilder) -> (r: ParseResult<
    CqelsQueryDefinitionBuilder,
>)
    requires
        i < t@.nodes.len(),
        builder.wf(),
    ensures
        agrees(r, where_at(t@, i, builder@)),
        r is Ok ==> r->Ok_0.wf(),
{
    let cs = t.children_of(i, Rule::PatternGroup);
    let step = |groups: Groups, c: usize| -> (out: ParseResult<Groups>)
        requires
            c < t@.nodes.len(),
        ensures
            agrees(out, group_step(t@)(groups@, c)),
        {
            match parse_pattern_group_multi(t, c) {
                Err(e) => Err(e),
                Ok(more) => Ok(append_groups(groups, more)),
            }
        };
    let start = Groups { list: Vec::new() };
    assert(start@ =~= Seq::<GroupView>::empty());
    match lead(&cs, start, step, Ghost(group_step(t@)), Ghost(any_groups())) {
        Err(e) => Err(e),
        Ok(groups) => {
            let bound = apply_implicit_stream_binding(groups, &builder);
            Ok(add_groups(bound, builder))
        },
    }
}

fn append_groups(a: Groups, b: Groups) -> (r: Groups)
    ensures
        r@ == a@ + b@,
{
    let ghost left = a@;
    let ghost given = b.list@;
    let ghost mut k: int = 0;
    let mut list = a.list;
    let rest = b.list;
    proof {
        lemma_group_views_len(given);
        assert(left + group_views(given).take(0) =~= left);
    }
    for g in iter: rest
        invariant
            0 <= k <= given.len(),
            iter.seq() == given,
            iter.index() == k,
            group_views(given).len() == given.len(),
            group_views(list@) == left + group_views(given).take(k),
    {
        proof {
            lemma_group_views_push(list@, g);
            lemma_group_views_index(given, k);
            let all = group_views(given);
            assert((left + all.take(k)).push(all[k]) =~= left + all.take(k + 1));
            k = k + 1;
        }
        list.push(g);
    }
    assert(group_views(given).take(k) =~= group_views(given));
    Groups { list }
}

/// Adds the groups to a query, a sequence of events as its constraint.
fn add_groups(groups: Groups, builder: CqelsQueryDefinitionBuilder) -> (r: CqelsQueryDefinitionBuilder)
    requires
        builder.wf(),
    ensures
        r.wf(),
        r@ == hoisted(groups@, builder@),
{
    let ghost q = builder@;
    let ghost given = groups.list@;
    let ghost all = groups@;
    let ghost mut k: int = 0;
    let rest = groups.list;
    let mut b = builder;
    proof {
        lemma_group_views_len(given);
    }
    for g in iter: rest
        invariant
            b.wf(),
            0 <= k <= given.len(),
            iter.seq() == given,
            iter.index() == k,
            all == group_views(given),
            all.len() == given.len(),
            b@ == hoisted(all.take(k), q),
    {
        proof {
            lemma_group_views_index(given, k);
            assert(all.take(k + 1).drop_last() =~= all.take(k));
            assert(all.take(k + 1).last() == group_view(g));
            k = k + 1;
        }
        match g {
            CqelsPatternGroup::Sequence(seq) => {
                b = b.seq_constraint(seq);
            },
            other => {
                b = b.add_pattern_group(other);
            },
        }
    }
    assert(all.take(k) =~= all);
    b
}

/// Gives bare patterns to the only stream, where there is no other source.
fn apply_implicit_stream_binding(groups: Groups, builder: &CqelsQueryDefinitionBuilder) -> (r: Groups)
    ensures
        r@ == implicitly_bound(groups@, builder@),
{
    let ghost all = groups@;
    let mut explicit = false;
    let mut i: usize = 0;
    proof {
        lemma_group_views_len(groups.list@);
    }
    while i < groups.list.len()
        invariant
            all == group_views(groups.list@),
            all.len() == groups.list@.len(),
            i <= groups.list@.len(),
            explicit == exists|j: int| 0 <= j < i && #[trigger] all[j] is Stream,
        decreases groups.list@.len() - i,
    {
        proof {
            lemma_group_views_index(groups.list@, i as int);
        }
        match &groups.list[i] {
            CqelsPatternGroup::Stream { .. } => {
                assert(all[i as int] is Stream);
                explicit = true;
            },
            _ => {},
        }
        i += 1;
    }
    let streams = builder.streams();
    let eligible = !explicit && streams.len() == 1 && builder.static_graphs().len() == 0
        && builder.named_graphs().len() == 0;
    if !eligible {
        return groups;
    }
    proof {
        assert(builder@.streams[0].name == streams@[0]@.name);
    }
    Groups { list: scope_groups(groups.list, streams[0].name.as_str()) }
}

/// Gives the bare groups of a listing to a stream.
fn scope_groups(groups: Vec<CqelsPatternGroup>, source: &str) -> (r: Vec<CqelsPatternGroup>)
    ensures
        group_views(r@) == group_views(groups@).map_values(scope_one(source@)),
{
    let ghost given = groups@;
    let ghost all = group_views(given).map_values(scope_one(source@));
    let ghost mut k: int = 0;
    let rest = groups;
    let mut r: Vec<CqelsPatternGroup> = Vec::new();
    proof {
        lemma_group_views_len(given);
        assert(group_views(r@) =~= all.take(0));
    }
    for g in iter: rest
        invariant
            0 <= k <= given.len(),
            iter.seq() == given,
            iter.index() == k,
            all == group_views(given).map_values(scope_one(source@)),
            all.len() == given.len(),
            group_views(r@) == all.take(k),
    {
        let ghost view = group_view(g);
        let scoped: CqelsPatternGroup = match g {
            CqelsPatternGroup::Default { patterns } => CqelsPatternGroup::Stream {
                source: source.to_string(),
                patterns,
            },
            other => other,
        };
        proof {
            lemma_group_views_index(given, k);
            lemma_group_views_push(r@, scoped);
            assert(group_view(scoped) == scope_one(source@)(view));
            assert(all.take(k).push(all[k]) =~= all.take(k + 1));
            k = k + 1;
        }
        r.push(scoped);
    }
    assert(all.take(k) =~= all);
    r
}

/// Gives the bare groups inside an OPTIONAL or a UNION to a stream.
fn scope_lifted_to_stream(group: CqelsPatternGroup, source: &str) -> (r: CqelsPatternGroup)
    ensures
        group_view(r) == scoped(group_view(group), source@),
{
    match group {
        CqelsPatternGroup::Optional { groups } => CqelsPatternGroup::Optional {
            groups: scope_groups(groups, source),
        },
        CqelsPatternGroup::Union { left, right } => CqelsPatternGroup::Union {
            left: scope_groups(left, source),
            right: scope_groups(right, source),
        },
        other => other,
    }
}

/// A result with a group is as expected.
spec fn group_agrees(r: ParseResult<CqelsPatternGroup>, expected: Result<GroupView, ErrorView>) -> bool {
    match (r, expected) {
        (Ok(g), Ok(v)) => group_view(g) == v,
        (Err(e), Err(v)) => e@ == v,
        _ => false,
    }
}

/// Parses a pattern of the WHERE clause; OPTIONAL and UNION inside a STREAM
/// block come out beside the block.
fn parse_pattern_group_multi(t: &Tree, i: usize) -> (r: ParseResult<Groups>)
    requires
        i < t@.nodes.len(),
    ensures
        agrees(r, top_groups_at(t@, i)),
{
    let g: usize = match t.child(i, 0) {
        None => {
            return Err(syntax_error("invalid pattern group"));
        },
        Some(g) => g,
    };
    if t.rule(g) != Rule::StreamPatternGroup {
        return match parse_pattern_group(t, i) {
            Err(e) => Err(e),
            Ok(group) => {
                let mut list: Vec<CqelsPatternGroup> = Vec::new();
                proof {
                    lemma_group_views_push(list@, group);
                    assert(group_views(list@) =~= Seq::<GroupView>::empty());
                    assert(Seq::<GroupView>::empty().push(group_view(group)) =~= seq![group_view(group)]);
                }
                list.push(group);
                Ok(Groups { list })
            },
        };
    }
    let source: String = match t.child(g, 0) {
        None => {
            return Err(syntax_error("expected stream name"));
        },
        Some(n) => t.text(n),
    };
    let name = source.as_str();
    let patterns = parse_triples_in(t, g);
    let cs = t.children(g);
    let step = |lifted: Groups, c: usize| -> (out: ParseResult<Groups>)
        requires
            c < t@.nodes.len(),
        ensures
            agrees(out, lift_step(t@, name@)(lifted@, c)),
        {
            match t.rule(c) {
                Rule::OptionalPattern => match parse_optional_pattern(t, c) {
                    Err(e) => Err(e),
                    Ok(g) => Ok(push_group(lifted, scope_lifted_to_stream(g, name))),
                },
                Rule::UnionPattern => match parse_union_pattern(t, c) {
                    Err(e) => Err(e),
                    Ok(g) => Ok(push_group(lifted, scope_lifted_to_stream(g, name))),
                },
                _ => Ok(lifted),
            }
        };
    let start = Groups { list: Vec::new() };
    assert(start@ =~= Seq::<GroupView>::empty());
    match lead(&cs, start, step, Ghost(lift_step(t@, name@)), Ghost(any_groups())) {
        Err(e) => Err(e),
        Ok(lifted) => {
            let stream = CqelsPatternGroup::Stream { source: name.to_string(), patterns };
            let first = push_group(Groups { list: Vec::new() }, stream);
            assert(first@ =~= seq![group_view(stream)]);
            Ok(append_groups(first, lifted))
        },
    }
}

fn push_group(groups: Groups, g: CqelsPatternGroup) -> (r: Groups)
    ensures
        r@ == groups@.push(group_view(g)),
{
    let mut list = groups.list;
    proof {
        lemma_group_views_push(list@, g);
    }
    list.push(g);
    Groups { list }
}

fn parse_pattern_group(t: &Tree, i: usize) -> (r: ParseResult<CqelsPatternGroup>)
    requires
        i < t@.nodes.len(),
    ensures
        group_agrees(r, group_at(t@, i)),
    decreases t@.nodes.len() - i, 0nat, 0nat,
{
    let c: usize = match t.child(i, 0) {
        None => {
            return Err(syntax_error("invalid pattern group"));
        },
        Some(c) => c,
    };
    match t.rule(c) {
        Rule::StreamPatternGroup => match t.child(c, 0) {
            None => Err(syntax_error("expected stream name")),
            Some(n) => {
                if t.child_of(c, Rule::OptionalPattern).is_some() || t.child_of(c, Rule::UnionPattern).is_some() {
                    Err(
                        syntax_error(
                            "OPTIONAL/UNION nested inside a STREAM block is only supported at the top level of the WHERE clause",
                        ),
                    )
                } else {
                    Ok(CqelsPatternGroup::Stream { source: t.text(n), patterns: parse_triples_in(t, c) })
                }
            },
        },
        Rule::WindowPatternGroup => match t.child(c, 0) {
            None => Err(syntax_error("expected window IRI")),
            Some(n) => Ok(
                CqelsPatternGroup::Window {
                    window_iri: strip_brackets(t.text(n).as_str()),
                    patterns: parse_triples_in(t, c),
                },
            ),
        },
        Rule::StaticPatternGroup => Ok(CqelsPatternGroup::Static { patterns: parse_triples_in(t, c) }),
        Rule::NamedGraphPatternGroup => match t.child(c, 0) {
            None => Err(syntax_error("expected graph IRI")),
            Some(n) => Ok(
                CqelsPatternGroup::NamedGraph {
                    graph_uri: strip_brackets(t.text(n).as_str()),
                    patterns: parse_triples_in(t, c),
                },
            ),
        },
        Rule::FilterConstraint => match t.child(c, 0) {
            None => Err(syntax_error("filter constraint missing content")),
            Some(n) => {
                if t.rule(n) == Rule::SeqCall {
                    match parse_seq_call(t, n) {
                        Err(e) => Err(e),
                        Ok(seq) => Ok(CqelsPatternGroup::Sequence(seq)),
                    }
                } else {
                    Ok(CqelsPatternGroup::Filter { expression: t.text(n) })
                }
            },
        },
        Rule::BindPattern => Ok(
            CqelsPatternGroup::Bind {
                expression: t.text_or_empty(t.child(c, 0)),
                variable: t.text_or_empty(t.child(c, 1)),
            },
        ),
        Rule::OptionalPattern => parse_optional_pattern(t, c),
        Rule::UnionPattern => parse_union_pattern(t, c),
        Rule::MinusPattern => Ok(CqelsPatternGroup::Minus { patterns: parse_triples_in(t, c) }),
        Rule::TriplePattern => Ok(CqelsPatternGroup::Default { patterns: parse_triple_patterns(t, c) }),
        _ => Err(syntax_error("invalid pattern group")),
    }
}

fn parse_optional_pattern(t: &Tree, i: usize) -> (r: ParseResult<CqelsPatternGroup>)
    requires
        i < t@.nodes.len(),
    ensures
        group_agrees(r, optional_at(t@, i)),
    decreases t@.nodes.len() - i, 2nat, 0nat,
{
    let cs = t.children_of(i, Rule::PatternGroup);
    match parse_groups(t, i, &cs) {
        Err(e) => Err(e),
        Ok(groups) => Ok(CqelsPatternGroup::Optional { groups }),
    }
}

proof fn lemma_groups_fail(t: Parsed, i: usize, cs: Seq<usize>, k: int)
    requires
        0 <= k <= cs.len(),
        groups_in(t, i, cs.take(k)) is Err,
    ensures
        groups_in(t, i, cs) == groups_in(t, i, cs.take(k)),
    decreases cs.len() - k,
{
    if k < cs.len() {
        assert(cs.take(k + 1).drop_last() =~= cs.take(k));
        lemma_groups_fail(t, i, cs, k + 1);
    } else {
        assert(cs.take(k) =~= cs);
    }
}

fn parse_groups(t: &Tree, i: usize, cs: &Vec<usize>) -> (r: ParseResult<Vec<CqelsPatternGroup>>)
    requires
        i < t@.nodes.len(),
        nodes_after(t@, i, cs@),
    ensures
        match groups_in(t@, i, cs@) {
            Err(e) => r is Err && r->Err_0@ == e,
            Ok(groups) => r is Ok && group_views(r->Ok_0@) == groups,
        },
    decreases t@.nodes.len() - i, 1nat, 0nat,
{
    let mut groups: Vec<CqelsPatternGroup> = Vec::new();
    let mut k: usize = 0;
    assert(group_views(groups@) =~= Seq::<GroupView>::empty());
    while k < cs.len()
        invariant
            i < t@.nodes.len(),
            nodes_after(t@, i, cs@),
            k <= cs@.len(),
            groups_in(t@, i, cs@.take(k as int)) == Ok::<Seq<GroupView>, ErrorView>(group_views(groups@)),
        decreases cs@.len() - k,
    {
        assert(cs@.take(k + 1).drop_last() =~= cs@.take(k as int));
        let c: usize = cs[k];
        match parse_pattern_group(t, c) {
            Err(e) => {
                proof {
                    lemma_groups_fail(t@, i, cs@, k + 1);
                }
                return Err(e);
            },
            Ok(g) => {
                proof {
                    lemma_group_views_push(groups@, g);
                }
                groups.push(g);
            },
        }
        k += 1;
    }
    assert(cs@.take(k as int) =~= cs@);
    Ok(groups)
}

fn has_union_between(t: &Tree, a: usize, b: usize) -> (r: bool)
    requires
        a < t@.nodes.len(),
        b < t@.nodes.len(),
    ensures
        r == mentions_union(between_nodes(t@, a, b)),
{
    let from: usize = t.nodes[a].end;
    let to: usize = t.nodes[b].start;
    let between = if from <= to && to <= t.source.input.len() {
        slice_text(t.source.input.as_slice(), from, to)
    } else {
        String::new()
    };
    assert(between@ =~= between_nodes(t@, a, b));
    let upper = uppercase(between.as_str());
    is_within(upper.as_str(), "UNION")
}

/// How many groups belong to the first arm of a UNION.
fn split_union(t: &Tree, cs: &Vec<usize>) -> (r: usize)
    requires
        forall|j: int| 0 <= j < cs@.len() ==> #[trigger] cs@[j] < t@.nodes.len(),
    ensures
        r == union_split(t@, cs@),
        r <= cs@.len(),
{
    let mut k: usize = 1;
    while k < cs.len()
        invariant
            1 <= k,
            forall|j: int| 0 <= j < cs@.len() ==> #[trigger] cs@[j] < t@.nodes.len(),
            first_behind_union(t@, cs@, 1) == first_behind_union(t@, cs@, k as int),
        decreases cs@.len() - k,
    {
        if has_union_between(t, cs[k - 1], cs[k]) {
            return k;
        }
        k += 1;
    }
    if cs.len() >= 2 {
        cs.len() / 2
    } else {
        cs.len()
    }
}

fn parse_union_pattern(t: &Tree, i: usize) -> (r: ParseResult<CqelsPatternGroup>)
    requires
        i < t@.nodes.len(),
    ensures
        group_agrees(r, union_at(t@, i)),
    decreases t@.nodes.len() - i, 2nat, 0nat,
{
    let cs = t.children_of(i, Rule::PatternGroup);
    if cs.len() == 0 {
        return Err(syntax_error("empty UNION pattern"));
    }
    match parse_groups(t, i, &cs) {
        Err(e) => Err(e),
        Ok(groups) => {
            let at: usize = split_union(t, &cs);
            proof {
                lemma_groups_count(t@, i, cs@);
                lemma_group_views_len(groups@);
                lemma_group_views_take(groups@, at as int);
                lemma_group_views_skip(groups@, at as int);
            }
            let mut left = groups;
            let right = left.split_off(at);
            Ok(CqelsPatternGroup::Union { left, right })
        },
    }
}

proof fn lemma_groups_count(t: Parsed, i: usize, cs: Seq<usize>)
    ensures
        groups_in(t, i, cs) matches Ok(groups) ==> groups.len() == cs.len(),
    decreases cs.len(),
{
    if cs.len() > 0 {
        lemma_groups_count(t, i, cs.drop_last());
    }
}

proof fn lemma_group_views_take(s: Seq<CqelsPatternGroup>, n: int)
    requires
        0 <= n <= s.len(),
    ensures
        group_views(s.take(n)) == group_views(s).take(n),
{
    lemma_group_views_len(s);
    lemma_group_views_len(s.take(n));
    assert forall|j: int| 0 <= j < n implies group_views(s.take(n))[j] == group_views(s).take(n)[j] by {
        lemma_group_views_index(s, j);
        lemma_group_views_index(s.take(n), j);
    }
    assert(group_views(s.take(n)) =~= group_views(s).take(n));
}

proof fn lemma_group_views_skip(s: Seq<CqelsPatternGroup>, n: int)
    requires
        0 <= n <= s.len(),
    ensures
        group_views(s.skip(n)) == group_views(s).skip(n),
{
    lemma_group_views_len(s);
    lemma_group_views_len(s.skip(n));
    assert forall|j: int| 0 <= j < s.len() - n implies group_views(s.skip(n))[j] == group_views(s).skip(n)[j] by {
        lemma_group_views_index(s, n + j);
        lemma_group_views_index(s.skip(n), j);
    }
    assert(group_views(s.skip(n)) =~= group_views(s).skip(n));
}

fn parse_seq_call(t: &Tree, i: usize) -> (r: ParseResult<SeqConstraint>)
    requires
        i < t@.nodes.len(),
    ensures
        agrees(r, sequence_at(t@, i)),
{
    let cs = t.children_of(i, Rule::SeqArg);
    let ghost f = sequence_args(t@);
    let mut args: Vec<SeqArg> = Vec::new();
    let mut k: usize = 0;
    assert(views(args@) =~= Seq::<SeqArgView>::empty());
    while k < cs.len()
        invariant
            f == sequence_args(t@),
            cs@ == t@.children_of(i, Rule::SeqArg),
            nodes_after(t@, i, cs@),
            k <= cs@.len(),
            args@.len() == k,
            collected(cs@.take(k as int), f) == Ok::<Seq<SeqArgView>, ErrorView>(views(args@)),
        decreases cs@.len() - k,
    {
        assert(cs@.take(k + 1).drop_last() =~= cs@.take(k as int));
        match parse_seq_arg(t, cs[k]) {
            Err(e) => {
                proof {
                    lemma_collected_fails(cs@, f, k + 1);
                }
                return Err(e);
            },
            Ok(arg) => {
                proof {
                    lemma_views_push(args@, arg);
                }
                args.push(arg);
            },
        }
        k += 1;
    }
    assert(cs@.take(k as int) =~= cs@);
    if args.len() < 2 {
        return Err(syntax_error("SEQ requires at least 2 event arguments"));
    }
    Ok(SeqConstraint { args })
}

pub(crate) fn parse_fitting(t: &Tree, cs: &Vec<usize>) -> (r: Vec<u32>)
    requires
        forall|j: int| 0 <= j < cs@.len() ==> #[trigger] cs@[j] < t@.nodes.len(),
    ensures
        r@ == fitting(t@, cs@),
{
    let mut r: Vec<u32> = Vec::new();
    let mut k: usize = 0;
    while k < cs.len()
        invariant
            forall|j: int| 0 <= j < cs@.len() ==> #[trigger] cs@[j] < t@.nodes.len(),
            k <= cs@.len(),
            r@ == fitting(t@, cs@.take(k as int)),
        decreases cs@.len() - k,
    {
        assert(cs@.take(k + 1).drop_last() =~= cs@.take(k as int));
        match read_number(t.text(cs[k]).as_str(), u32::MAX as u64) {
            Some(n) => {
                r.push(n as u32);
            },
            None => {},
        }
        k += 1;
    }
    assert(cs@.take(k as int) =~= cs@);
    r
}

fn parse_occurrences(t: &Tree, i: usize) -> (r: ParseResult<(u32, u32)>)
    requires
        i < t@.nodes.len(),
    ensures
        match occurrences_at(t@, i) {
            Err(e) => r is Err && r->Err_0@ == e,
            Ok(bounds) => r is Ok && r->Ok_0 == bounds,
        },
{
    let c: usize = match t.child_of(i, Rule::SeqQuantifier) {
        None => {
            return Ok((1, 1));
        },
        Some(c) => c,
    };
    let cs = t.children_of(c, Rule::Integer);
    let ns = parse_fitting(t, &cs);
    if ns.len() == 0 {
        let sign = t.text(c);
        let sign = sign.as_str();
        if same_name(sign, "+") {
            Ok((1, SEQ_UNBOUNDED))
        } else if same_name(sign, "*") {
            Ok((0, SEQ_UNBOUNDED))
        } else if same_name(sign, "?") {
            Ok((0, 1))
        } else {
            let mut message = "unrecognized SEQ quantifier `".to_string();
            append_text(&mut message, sign);
            append_text(&mut message, "`");
            Err(ParseError::Syntax(message))
        }
    } else if ns.len() == 1 {
        Ok((ns[0], ns[0]))
    } else {
        Ok((ns[0], ns[1]))
    }
}

fn strip_variable(s: &str) -> (r: String)
    ensures
        r@ == bare_variable(s@),
{
    let chars = to_chars(s);
    let mut from: usize = 0;
    assert(chars@.skip(0) =~= s@);
    while from < chars.len() && (chars[from] == '?' || chars[from] == '$')
        invariant
            from <= chars@.len(),
            bare_variable(s@) == bare_variable(chars@.skip(from as int)),
        decreases chars@.len() - from,
    {
        assert(chars@.skip(from as int).skip(1) =~= chars@.skip(from + 1));
        from += 1;
    }
    let r = slice_text(chars.as_slice(), from, chars.len());
    assert(r@ =~= chars@.skip(from as int));
    r
}

fn parse_seq_arg(t: &Tree, i: usize) -> (r: ParseResult<SeqArg>)
    requires
        i < t@.nodes.len(),
    ensures
        agrees(r, sequence_arg_at(t@, i)),
{
    match parse_occurrences(t, i) {
        Err(e) => Err(e),
        Ok((min_occurrences, max_occurrences)) => match t.child_of(i, Rule::Variable) {
            None => Err(syntax_error("SEQ arg missing variable")),
            Some(v) => {
                let alias: Option<String> = match t.child_of(i, Rule::Identifier) {
                    Some(a) => Some(t.text(a)),
                    None => None,
                };
                Ok(
                    SeqArg {
                        variable: strip_variable(t.text(v).as_str()),
                        negated: t.child_of(i, Rule::SeqNotKw).is_some(),
                        min_occurrences,
                        max_occurrences,
                        alias,
                    },
                )
            },
        },
    }
}

/// The triple patterns directly below a node.
fn parse_triples_in(t: &Tree, i: usize) -> (r: Vec<TriplePattern>)
    requires
        i < t@.nodes.len(),
    ensures
        views(r@) == triples_in(t@, i),
{
    let cs = t.children_of(i, Rule::TriplePattern);
    let ghost f = triples(t@);
    let mut r: Vec<TriplePattern> = Vec::new();
    let mut k: usize = 0;
    assert(views(r@) =~= concat(cs@.take(0), f));
    while k < cs.len()
        invariant
            f == triples(t@),
            nodes_after(t@, i, cs@),
            k <= cs@.len(),
            views(r@) == concat(cs@.take(k as int), f),
        decreases cs@.len() - k,
    {
        let mut more = parse_triple_patterns(t, cs[k]);
        proof {
            lemma_concat_take(cs@, k as int, f);
            assert(views(r@ + more@) =~= views(r@) + views(more@));
        }
        r.append(&mut more);
        k += 1;
    }
    assert(cs@.take(k as int) =~= cs@);
    r
}

fn parse_predicate(t: &Tree, p: usize) -> (r: String)
    requires
        p < t@.nodes.len(),
    ensures
        r@ == predicate_at(t@, p),
{
    let text = t.text_or_empty(t.child_of(p, Rule::Predicate));
    if same_name(text.as_str(), "a") {
        "<http://www.w3.org/1999/02/22-rdf-syntax-ns#type>".to_string()
    } else {
        text
    }
}

/// The triple patterns that share a subject and a predicate.
fn parse_predicate_triples(t: &Tree, p: usize, subject: &str) -> (r: Vec<TriplePattern>)
    requires
        p < t@.nodes.len(),
    ensures
        views(r@) == predicate_triples(t@, subject@)(p),
{
    let predicate = parse_predicate(t, p);
    let objects: Vec<usize> = match t.child_of(p, Rule::ObjectList) {
        None => Vec::new(),
        Some(l) => t.children_of(l, Rule::Object),
    };
    assert(objects@ =~= object_nodes(t@, p));
    let ghost all = objects@.map_values(triple_with(t@, subject@, predicate@));
    let mut r: Vec<TriplePattern> = Vec::new();
    let mut k: usize = 0;
    assert(views(r@) =~= all.take(0));
    while k < objects.len()
        invariant
            forall|j: int| 0 <= j < objects@.len() ==> #[trigger] objects@[j] < t@.nodes.len(),
            all == objects@.map_values(triple_with(t@, subject@, predicate@)),
            k <= objects@.len(),
            views(r@) == all.take(k as int),
        decreases objects@.len() - k,
    {
        let pattern = TriplePattern {
            subject: subject.to_string(),
            predicate: predicate.clone(),
            object: t.text(objects[k]),
        };
        proof {
            lemma_views_push(r@, pattern);
            assert(all.take(k as int).push(all[k as int]) =~= all.take(k + 1));
        }
        r.push(pattern);
        k += 1;
    }
    assert(all.take(k as int) =~= all);
    r
}

fn parse_triple_patterns(t: &Tree, i: usize) -> (r: Vec<TriplePattern>)
    requires
        i < t@.nodes.len(),
    ensures
        views(r@) == triples_of(t@, i),
{
    let subject = t.text_or_empty(t.child_of(i, Rule::Subject));
    let cs = t.children_of(i, Rule::PredicateObjectList);
    let ghost f = predicate_triples(t@, subject@);
    let mut r: Vec<TriplePattern> = Vec::new();
    let mut k: usize = 0;
    assert(views(r@) =~= concat(cs@.take(0), f));
    while k < cs.len()
        invariant
            f == predicate_triples(t@, subject@),
            nodes_after(t@, i, cs@),
            k <= cs@.len(),
            views(r@) == concat(cs@.take(k as int), f),
        decreases cs@.len() - k,
    {
        let mut more = parse_predicate_triples(t, cs[k], subject.as_str());
        proof {
            lemma_concat_take(cs@, k as int, f);
            assert(views(r@ + more@) =~= views(r@) + views(more@));
        }
        r.append(&mut more);
        k += 1;
    }
    assert(cs@.take(k as int) =~= cs@);
    r
}

fn parse_group_by(t: &Tree, i: usize, builder: CqelsQueryDefinitionBuilder) -> (r: CqelsQueryDefinitionBuilder)
    requires
        i < t@.nodes.len(),
        builder.wf(),
    ensures
        r.wf(),
        r@ == group_by_at(t@, i, builder@),
{
    let ghost q = builder@;
    let cs = t.children_of(i, Rule::Variable);
    let ghost all = cs@.map_values(node_text(t@));
    let mut b = builder;
    let mut k: usize = 0;
    assert(q.group_by_variables + all.take(0) =~= q.group_by_variables);
    while k < cs.len()
        invariant
            b.wf(),
            k <= cs@.len(),
            nodes_after(t@, i, cs@),
            all == cs@.map_values(node_text(t@)),
            b@ == (CqelsQueryView { group_by_variables: q.group_by_variables + all.take(k as int), ..q }),
        decreases cs@.len() - k,
    {
        b = b.add_group_by(t.text(cs[k]).as_str());
        proof {
            assert(all[k as int] == t@.text(cs@[k as int]));
            assert((q.group_by_variables + all.take(k as int)).push(all[k as int]) =~= q.group_by_variables
                + all.take(k + 1));
        }
        k += 1;
    }
    assert(all.take(k as int) =~= all);
    b
}

fn parse_order_condition(t: &Tree, i: usize) -> (r: OrderCondition)
    requires
        i < t@.nodes.len(),
    ensures
        r@ == order_at(t@, i),
{
    let at: usize = match t.child_of(i, Rule::OrderFunc) {
        Some(f) => f,
        None => i,
    };
    let expression = t.text_or_empty(t.child_of(at, Rule::Variable));
    let direction = if t.child_of(at, Rule::DescKw).is_some() {
        SortDirection::Descending
    } else {
        SortDirection::Ascending
    };
    OrderCondition { expression, direction }
}

fn parse_order_by(t: &Tree, i: usize, builder: CqelsQueryDefinitionBuilder) -> (r: ParseResult<
    CqelsQueryDefinitionBuilder,
>)
    requires
        i < t@.nodes.len(),
        builder.wf(),
    ensures
        agrees(r, order_by_at(t@, i, builder@)),
        r is Ok ==> r->Ok_0.wf(),
{
    let cs = t.children_of(i, Rule::OrderCondition);
    let step = |b: CqelsQueryDefinitionBuilder, c: usize| -> (out: ParseResult<CqelsQueryDefinitionBuilder>)
        requires
            b.wf(),
            c < t@.nodes.len(),
        ensures
            agrees(out, order_step(t@)(b@, c)),
            out is Ok ==> out->Ok_0.wf(),
        { Ok(b.add_order_by(parse_order_condition(t, c))) };
    lead(&cs, builder, step, Ghost(order_step(t@)), Ghost(builder_ok()))
}

fn parse_limit(t: &Tree, i: usize, builder: CqelsQueryDefinitionBuilder) -> (r: ParseResult<CqelsQueryDefinitionBuilder>)
    requires
        i < t@.nodes.len(),
        builder.wf(),
    ensures
        agrees(r, limit_at(t@, i, builder@)),
        r is Ok ==> r->Ok_0.wf(),
{
    match t.child_of(i, Rule::Integer) {
        None => Err(syntax_error("expected limit value")),
        Some(c) => match t.parse_number(c, "invalid limit: ") {
            Err(e) => Err(e),
            Ok(n) => Ok(builder.limit(n)),
        },
    }
}

} // verus!
