//! What the clauses of a query add to it.
use vstd::prelude::*;

use crate::listing::concat;
use crate::parser::ast::{AggregateFunction, CqelsQueryView, GroupView, StreamSemantics, TripleView};
use crate::parser::ast_cypher::{CypherQueryView, PatternSource};
use crate::parser::capitals::{ascii_capitals, capitals, is_ascii_text};
use crate::parser::cqelsql_spec::{
    bare_variable, from_clause_step, group_at, groups_in, iri_at, lift_step, named_window_at, occurrences_at,
    optional_at, scope_one, scoped, semantics_at, sequence_arg_at, sequence_at, stream_at, top_groups_at, triples,
    triples_in, triples_of, union_at,
};
use crate::parser::cypher_reading::lemma_same_span;
use crate::parser::cypherql_spec::{
    aggregate_in, from_clause_step as cypher_from_step, group_by_at, having_at, limit_at as cypher_limit_at,
    pattern_group_at, patterns_in, patterns_of, properties_below, quoted_at, relationship_at, unquoted,
};
use crate::parser::error::ErrorView;
use crate::parser::grammar::{body, Language, Rule};
use crate::parser::peg::{any_case_at, call, matched, text_at};
use crate::parser::shapes::lemma_first_mark;
use crate::parser::tree::{duration_at, graph_at, led, trimmed, unbracketed, Parsed};
use crate::parser::tree_laws::{below, lemma_children, lemma_match_of, well_parsed};
use crate::text::{is_number, is_white_space, number_value};

verus! {

/// A clause of a CQELS-QL query that names a source adds it behind the others of
/// its kind, and leaves the other kinds as they are.
pub proof fn law_from_clause_adds_its_source(t: Parsed, i: usize, q: CqelsQueryView)
    requires
        t.children(i).len() > 0,
    ensures
        ({
            let c = t.children(i)[0];
            let r = from_clause_step(t)(q, i);
            &&& t.rule(c) == Rule::FromStream ==> match stream_at(t, c) {
                Ok(s) => r is Ok && r->Ok_0.streams == q.streams.push(s) && r->Ok_0.static_graphs == q.static_graphs
                    && r->Ok_0.named_graphs == q.named_graphs && r->Ok_0.named_windows == q.named_windows,
                Err(e) => r is Err && r->Err_0 == e,
            }
            &&& t.rule(c) == Rule::FromNamedWindow ==> match named_window_at(t, c) {
                Ok(w) => r is Ok && r->Ok_0.named_windows == q.named_windows.push(w) && r->Ok_0.streams == q.streams
                    && r->Ok_0.static_graphs == q.static_graphs && r->Ok_0.named_graphs == q.named_graphs,
                Err(e) => r is Err && r->Err_0 == e,
            }
            &&& t.rule(c) == Rule::FromStatic ==> match graph_at(t, c, iri_at(t, c)) {
                Ok(g) => r is Ok && r->Ok_0.static_graphs == q.static_graphs.push(g) && r->Ok_0.named_graphs
                    == q.named_graphs && r->Ok_0.streams == q.streams && r->Ok_0.named_windows == q.named_windows,
                Err(e) => r is Err && r->Err_0 == e,
            }
            &&& t.rule(c) == Rule::FromNamed ==> match graph_at(t, c, iri_at(t, c)) {
                Ok(g) => r is Ok && r->Ok_0.named_graphs == q.named_graphs.push(g) && r->Ok_0.static_graphs
                    == q.static_graphs && r->Ok_0.streams == q.streams && r->Ok_0.named_windows == q.named_windows,
                Err(e) => r is Err && r->Err_0 == e,
            }
        }),
{
}

/// A clause of a CypherQL query that names a source adds it behind the others of
/// its kind, and leaves the other kinds as they are.
pub proof fn law_cypher_from_clause_adds_its_source(t: Parsed, i: usize, q: CypherQueryView)
    requires
        t.children(i).len() > 0,
    ensures
        ({
            let c = t.children(i)[0];
            let r = cypher_from_step(t)(q, i);
            &&& t.rule(c) == Rule::FromStream ==> match stream_at(t, c) {
                Ok(s) => r is Ok && r->Ok_0.streams == q.streams.push(s) && r->Ok_0.static_graphs == q.static_graphs
                    && r->Ok_0.named_graphs == q.named_graphs,
                Err(e) => r is Err && r->Err_0 == e,
            }
            &&& t.rule(c) == Rule::FromStatic ==> match graph_at(t, c, quoted_at(t, c)) {
                Ok(g) => r is Ok && r->Ok_0.static_graphs == q.static_graphs.push(g) && r->Ok_0.named_graphs
                    == q.named_graphs && r->Ok_0.streams == q.streams,
                Err(e) => r is Err && r->Err_0 == e,
            }
            &&& t.rule(c) == Rule::FromGraph ==> match graph_at(t, c, quoted_at(t, c)) {
                Ok(g) => r is Ok && r->Ok_0.named_graphs == q.named_graphs.push(g) && r->Ok_0.static_graphs
                    == q.static_graphs && r->Ok_0.streams == q.streams,
                Err(e) => r is Err && r->Err_0 == e,
            }
        }),
{
}

/// A graph has the depth that its number says, where there is one that fits, and
/// is kept for the span that its CACHE says, where there is one.
pub proof fn law_graph_is_as_written(t: Parsed, i: usize, uri: Seq<char>)
    requires
        graph_at(t, i, uri) is Ok,
    ensures
        ({
            let g = graph_at(t, i, uri)->Ok_0;
            &&& g.uri == uri
            &&& match t.child_of(i, Rule::Integer) {
                None => g.depth is None,
                Some(c) => if is_number(t.text(c)) && number_value(t.text(c)) <= u32::MAX {
                    g.depth is Some && g.depth->0 == number_value(t.text(c))
                } else {
                    g.depth is None
                },
            }
            &&& match t.child_of(i, Rule::CacheSpec) {
                None => g.cache_duration is None,
                Some(c) => t.child_of(c, Rule::Duration) matches Some(d) && duration_at(t, d) is Ok && g.cache_duration
                    == Some(duration_at(t, d)->Ok_0),
            }
        }),
{
}

/// What a query streams is what its keyword says.
pub proof fn law_stream_keyword_is_read(t: Parsed, i: usize, q: CqelsQueryView)
    requires
        well_parsed(t),
        t.language == Language::CqelsQl,
        i < t.nodes.len(),
        t.rule(i) == Rule::StreamSemantics,
    ensures
        match semantics_at(t, i, q).stream_semantics {
            Some(StreamSemantics::IStream) => any_case_at(t.input, t.nodes[i as int].start as int, "ISTREAM"@),
            Some(StreamSemantics::DStream) => any_case_at(t.input, t.nodes[i as int].start as int, "DSTREAM"@),
            Some(StreamSemantics::RStream) => any_case_at(t.input, t.nodes[i as int].start as int, "RSTREAM"@),
            None => false,
        },
{
    let calls = lemma_match_of(t, i);
    let n = t.nodes[i as int];
    let pos = n.start as nat;
    let a = call(Rule::IstreamKw);
    let b = call(Rule::DstreamKw);
    let c = call(Rule::RstreamKw);
    assert(body(t.language, t.rule(i)) == a.or(b).or(c));
    let rule = if matched(t.language, t.input, a, pos, calls) is Some {
        Rule::IstreamKw
    } else if matched(t.language, t.input, b, pos, calls) is Some {
        Rule::DstreamKw
    } else {
        Rule::RstreamKw
    };
    assert(matched(t.language, t.input, a.or(b), pos, calls) is Some <==> rule != Rule::RstreamKw);
    assert(matched(t.language, t.input, call(rule), pos, calls) == Some((n.end as nat, below(t, i))));
    lemma_same_span(t, i, rule, calls);
    lemma_children(t, i);
    let k = t.children(i)[0];
    let more = lemma_match_of(t, k);
    lemma_first_mark(t.language, t.input, body(t.language, t.rule(k)), t.nodes[k as int].start as nat, more);
}

/// The patterns of a CypherQL query are looked for where their group says: in the
/// stream or the graph that is named before them, in static data, or anywhere.
pub proof fn law_group_names_its_source(t: Parsed, i: usize)
    requires
        t.children(i).len() > 0,
        pattern_group_at(t, i) is Ok,
    ensures
        ({
            let c = t.children(i)[0];
            let g = pattern_group_at(t, i)->Ok_0;
            &&& t.rule(c) == Rule::StreamPatternGroup ==> g.source == PatternSource::Stream && t.children(c).len() > 0
                && g.source_name == Some(t.text(t.children(c)[0])) && patterns_in(t, c) == Ok::<_, ErrorView>(
                g.patterns,
            )
            &&& t.rule(c) == Rule::StaticPatternGroup ==> g.source == PatternSource::Static && g.source_name is None
                && patterns_in(t, c) == Ok::<_, ErrorView>(g.patterns)
            &&& t.rule(c) == Rule::GraphPatternGroup ==> g.source == PatternSource::Graph && g.source_name is Some && (
            t.children(c).len() > 0 ==> g.source_name == Some(unquoted(t.text(t.children(c)[0])))) && patterns_in(t, c)
                == Ok::<_, ErrorView>(g.patterns)
            &&& t.rule(c) == Rule::Pattern ==> g.source == PatternSource::Default && g.source_name is None
                && patterns_of(t, c) == Ok::<_, ErrorView>(g.patterns)
        }),
{
}

/// The details of a relationship are those that are written in its brackets: its
/// name, its types in their order, its properties.
pub proof fn law_relationship_has_its_details(t: Parsed, i: usize, start_node: Option<Seq<char>>)
    requires
        t.children(i).len() > 0,
    ensures
        ({
            let c = t.children(i)[0];
            let r = relationship_at(t, i, start_node);
            match t.child_of(c, Rule::RelationshipDetail) {
                None => r.variable is None && r.types.len() == 0 && r.path_length is None,
                Some(d) => {
                    &&& match t.child_of(d, Rule::Identifier) {
                        Some(v) => r.variable == Some(t.text(v)),
                        None => r.variable is None,
                    }
                    &&& match t.child_of(d, Rule::RelationshipTypes) {
                        Some(l) => r.types.len() == t.children_of(l, Rule::Identifier).len() && forall|k: int|
                            0 <= k < r.types.len() ==> #[trigger] r.types[k] == t.text(
                                t.children_of(l, Rule::Identifier)[k],
                            ),
                        None => r.types.len() == 0,
                    }
                    &&& r.properties == properties_below(t, d)
                    &&& r.path_length is Some <==> t.child_of(d, Rule::PathLength) is Some
                },
            }
        }),
{
}

/// A condition on groups is added behind the others; the expressions to group by
/// are added in the order in which they are written.
pub proof fn law_grouping_is_as_written(t: Parsed, i: usize, q: CypherQueryView)
    ensures
        t.children(i).len() > 0 ==> having_at(t, i, q).having_filters == q.having_filters.push(
            t.text(t.children(i)[0]),
        ),
        ({
            let items = t.children_of(i, Rule::GroupItem);
            let r = group_by_at(t, i, q).group_by_expressions;
            &&& r.len() == q.group_by_expressions.len() + items.len()
            &&& forall|k: int| 0 <= k < q.group_by_expressions.len() ==> #[trigger] r[k] == q.group_by_expressions[k]
            &&& forall|k: int|
                0 <= k < items.len() ==> r[q.group_by_expressions.len() + k] == t.text(#[trigger] items[k])
        }),
{
}

/// An event of a sequence has the variable that is written without its sign, is
/// negated where NOT stands before it, and has the alias that is written.
pub proof fn law_event_is_as_written(t: Parsed, i: usize)
    requires
        sequence_arg_at(t, i) is Ok,
    ensures
        ({
            let a = sequence_arg_at(t, i)->Ok_0;
            &&& t.child_of(i, Rule::Variable) matches Some(v) && a.variable == bare_variable(t.text(v))
            &&& a.negated == (t.child_of(i, Rule::SeqNotKw) is Some)
            &&& occurrences_at(t, i) == Ok::<(u32, u32), ErrorView>((a.min_occurrences, a.max_occurrences))
            &&& match t.child_of(i, Rule::Identifier) {
                Some(n) => a.alias == Some(t.text(n)),
                None => a.alias is None,
            }
        }),
{
}

/// Do the triples of each pattern stand in `all` from its place to the next?
pub open spec fn set_out(t: Parsed, cs: Seq<usize>, all: Seq<TripleView>, at: Seq<int>) -> bool {
    &&& at.len() == cs.len() + 1
    &&& at[0] == 0
    &&& at[cs.len() as int] == all.len()
    &&& forall|k: int|
        #![trigger cs[k]]
        0 <= k < cs.len() ==> set_out_at(t, cs[k], all, at[k], at[k + 1])
}

/// Do the triples of the pattern at `c` stand in `all` from `from` to `to`?
pub open spec fn set_out_at(t: Parsed, c: usize, all: Seq<TripleView>, from: int, to: int) -> bool {
    0 <= from <= to <= all.len() && all.subrange(from, to) == triples_of(t, c)
}

/// A block holds the triples of all its triple patterns, one pattern after the
/// other: those of the pattern at a place stand from one position to the next.
pub proof fn law_block_holds_all_its_triples(t: Parsed, i: usize) -> (at: Seq<int>)
    ensures
        set_out(t, t.children_of(i, Rule::TriplePattern), triples_in(t, i), at),
{
    lemma_places(t, t.children_of(i, Rule::TriplePattern))
}

proof fn lemma_places(t: Parsed, cs: Seq<usize>) -> (at: Seq<int>)
    ensures
        set_out(t, cs, concat(cs, triples(t)), at),
    decreases cs.len(),
{
    if cs.len() == 0 {
        seq![0int]
    } else {
        let front = cs.drop_last();
        let before = lemma_places(t, front);
        let some = concat(front, triples(t));
        let all = concat(cs, triples(t));
        let last = triples_of(t, cs.last());
        assert(all == some + last);
        let at = before.push(all.len() as int);
        assert forall|k: int| 0 <= k < cs.len() implies set_out_at(t, #[trigger] cs[k], all, at[k], at[k + 1]) by {
            if k < front.len() {
                assert(front[k] == cs[k]);
                assert(set_out_at(t, front[k], some, before[k], before[k + 1]));
                assert(all.subrange(at[k], at[k + 1]) =~= some.subrange(at[k], at[k + 1]));
            } else {
                assert(all.subrange(at[k], at[k + 1]) =~= last);
            }
        }
        assert(set_out(t, cs, all, at));
        at
    }
}

/// A bare group that is put into a stream keeps its patterns; other groups stay as
/// they are. Inside an OPTIONAL or a UNION it is so for each group.
pub proof fn law_scoping_names_the_stream(g: GroupView, source: Seq<char>)
    ensures
        match g {
            GroupView::Default { patterns } => scope_one(source)(g) == (GroupView::Stream { source, patterns }),
            _ => scope_one(source)(g) == g,
        },
        match g {
            GroupView::Optional { groups } => scoped(g, source) matches GroupView::Optional { groups: inner }
                && inner.len() == groups.len() && forall|k: int|
                0 <= k < groups.len() ==> #[trigger] inner[k] == scope_one(source)(groups[k]),
            GroupView::Union { left, right } => scoped(g, source) matches GroupView::Union { left: l, right: r }
                && l.len() == left.len() && r.len() == right.len() && (forall|k: int|
                0 <= k < left.len() ==> #[trigger] l[k] == scope_one(source)(left[k])) && forall|k: int|
                0 <= k < right.len() ==> #[trigger] r[k] == scope_one(source)(right[k]),
            _ => scoped(g, source) == g,
        },
{
}

/// Is this a part of a block that stands beside it?
pub open spec fn stands_beside(t: Parsed) -> spec_fn(usize) -> bool {
    |c: usize| t.rule(c) == Rule::OptionalPattern || t.rule(c) == Rule::UnionPattern
}

/// A STREAM block gives the triples that it holds, over the stream that is named
/// before them, and then each OPTIONAL and UNION in it, in their order, over the
/// same stream.
pub proof fn law_stream_block_is_lifted(t: Parsed, i: usize)
    requires
        t.children(i).len() > 0,
        t.rule(t.children(i)[0]) == Rule::StreamPatternGroup,
        top_groups_at(t, i) is Ok,
    ensures
        ({
            let b = t.children(i)[0];
            let gs = top_groups_at(t, i)->Ok_0;
            let beside = t.children(b).filter(stands_beside(t));
            &&& t.children(b).len() > 0
            &&& gs.len() == 1 + beside.len()
            &&& gs[0] == (GroupView::Stream { source: t.text(t.children(b)[0]), patterns: triples_in(t, b) })
            &&& forall|k: int|
                0 <= k < beside.len() ==> if t.rule(#[trigger] beside[k]) == Rule::OptionalPattern {
                    optional_at(t, beside[k]) matches Ok(g) && gs[k + 1] == scoped(g, t.text(t.children(b)[0]))
                } else {
                    union_at(t, beside[k]) matches Ok(g) && gs[k + 1] == scoped(g, t.text(t.children(b)[0]))
                }
        }),
{
    let b = t.children(i)[0];
    let source = t.text(t.children(b)[0]);
    lemma_lifted(t, t.children(b), source);
    let lifted = led(t.children(b), Seq::empty(), lift_step(t, source))->Ok_0;
    let gs = top_groups_at(t, i)->Ok_0;
    assert(gs == seq![GroupView::Stream { source, patterns: triples_in(t, b) }] + lifted);
    assert(forall|k: int| 0 <= k < lifted.len() ==> gs[k + 1] == #[trigger] lifted[k]);
}

proof fn lemma_lifted(t: Parsed, cs: Seq<usize>, source: Seq<char>)
    requires
        led(cs, Seq::empty(), lift_step(t, source)) is Ok,
    ensures
        ({
            let beside = cs.filter(stands_beside(t));
            let lifted = led(cs, Seq::empty(), lift_step(t, source))->Ok_0;
            &&& lifted.len() == beside.len()
            &&& forall|k: int|
                0 <= k < beside.len() ==> if t.rule(#[trigger] beside[k]) == Rule::OptionalPattern {
                    optional_at(t, beside[k]) matches Ok(g) && lifted[k] == scoped(g, source)
                } else {
                    union_at(t, beside[k]) matches Ok(g) && lifted[k] == scoped(g, source)
                }
        }),
    decreases cs.len(),
{
    reveal(Seq::filter);
    if cs.len() == 0 {
        assert(cs.filter(stands_beside(t)) =~= Seq::<usize>::empty());
    } else {
        let front = cs.drop_last();
        lemma_lifted(t, front, source);
        let p = stands_beside(t);
        let before = front.filter(p);
        let beside = cs.filter(p);
        let some = led(front, Seq::empty(), lift_step(t, source))->Ok_0;
        let lifted = led(cs, Seq::empty(), lift_step(t, source))->Ok_0;
        assert forall|k: int| 0 <= k < beside.len() implies if t.rule(#[trigger] beside[k]) == Rule::OptionalPattern {
            optional_at(t, beside[k]) matches Ok(g) && lifted[k] == scoped(g, source)
        } else {
            union_at(t, beside[k]) matches Ok(g) && lifted[k] == scoped(g, source)
        } by {
            if k < before.len() {
                assert(beside[k] == before[k]);
                assert(lifted[k] == some[k]);
            }
        }
    }
}

/// A group is of the kind that its node says, over the triples that stand in it: of
/// the window or the graph that is named before them, of static data, taken away by
/// MINUS, or bare. A filter has its expression, a sequence its events.
pub proof fn law_group_is_what_its_node_says(t: Parsed, i: usize)
    requires
        t.children(i).len() > 0,
        i < t.children(i)[0] < t.nodes.len(),
    ensures
        ({
            let c = t.children(i)[0];
            let r = group_at(t, i);
            let first = t.children(c)[0];
            &&& t.rule(c) == Rule::WindowPatternGroup && t.children(c).len() > 0 ==> (r matches Ok(
                GroupView::Window { window_iri, patterns },
            ) && window_iri == unbracketed(t.text(first)) && patterns == triples_in(t, c))
            &&& t.rule(c) == Rule::NamedGraphPatternGroup && t.children(c).len() > 0 ==> (r matches Ok(
                GroupView::NamedGraph { graph_uri, patterns },
            ) && graph_uri == unbracketed(t.text(first)) && patterns == triples_in(t, c))
            &&& t.rule(c) == Rule::StaticPatternGroup ==> (r matches Ok(GroupView::Static { patterns }) && patterns
                == triples_in(t, c))
            &&& t.rule(c) == Rule::MinusPattern ==> (r matches Ok(GroupView::Minus { patterns }) && patterns
                == triples_in(t, c))
            &&& t.rule(c) == Rule::TriplePattern ==> (r matches Ok(GroupView::Default { patterns }) && patterns
                == triples_of(t, c))
            &&& t.rule(c) == Rule::FilterConstraint && t.children(c).len() > 0 ==> if t.rule(first) == Rule::SeqCall {
                match sequence_at(t, first) {
                    Ok(events) => r matches Ok(GroupView::Sequence { args }) && args == events,
                    Err(e) => r matches Err(f) && f == e,
                }
            } else {
                r matches Ok(GroupView::Filter { expression }) && expression == t.text(first)
            }
            &&& t.rule(c) == Rule::StreamPatternGroup && t.children(c).len() > 0 ==> (r is Ok <==> t.child_of(
                c,
                Rule::OptionalPattern,
            ) is None && t.child_of(c, Rule::UnionPattern) is None) && (r is Ok ==> (r matches Ok(
                GroupView::Stream { source, patterns },
            ) && source == t.text(first) && patterns == triples_in(t, c)))
        }),
{
}

/// An OPTIONAL is read exactly if all its groups are, and lists them in their order.
pub proof fn law_optional_lists_its_groups(t: Parsed, i: usize)
    requires
        forall|k: int|
            0 <= k < t.children_of(i, Rule::PatternGroup).len() ==> i < (#[trigger] t.children_of(
                i,
                Rule::PatternGroup,
            )[k]) < t.nodes.len(),
    ensures
        ({
            let cs = t.children_of(i, Rule::PatternGroup);
            &&& optional_at(t, i) is Ok <==> forall|k: int| 0 <= k < cs.len() ==> group_at(t, #[trigger] cs[k]) is Ok
            &&& optional_at(t, i) is Ok ==> (optional_at(t, i)->Ok_0 matches GroupView::Optional { groups }
                && groups.len() == cs.len() && forall|k: int|
                0 <= k < cs.len() ==> groups[k] == group_at(t, #[trigger] cs[k])->Ok_0)
        }),
{
    lemma_groups(t, i, t.children_of(i, Rule::PatternGroup));
}

proof fn lemma_groups(t: Parsed, i: usize, cs: Seq<usize>)
    requires
        forall|k: int| 0 <= k < cs.len() ==> i < (#[trigger] cs[k]) < t.nodes.len(),
    ensures
        groups_in(t, i, cs) is Ok <==> forall|k: int| 0 <= k < cs.len() ==> group_at(t, #[trigger] cs[k]) is Ok,
        groups_in(t, i, cs) matches Ok(groups) ==> groups.len() == cs.len() && forall|k: int|
            0 <= k < cs.len() ==> groups[k] == group_at(t, #[trigger] cs[k])->Ok_0,
    decreases cs.len(),
{
    if cs.len() > 0 {
        let front = cs.drop_last();
        let n = front.len() as int;
        assert(forall|k: int| 0 <= k < n ==> front[k] == #[trigger] cs[k]);
        assert forall|k: int| 0 <= k < front.len() implies i < (#[trigger] front[k]) < t.nodes.len() by {
            assert(front[k] == cs[k]);
        }
        lemma_groups(t, i, front);
        assert(i < cs[n] < t.nodes.len());
        if groups_in(t, i, front) is Ok {
            assert forall|k: int| 0 <= k < n implies group_at(t, #[trigger] cs[k]) is Ok by {
                assert(group_at(t, front[k]) is Ok);
            }
        } else {
            let k = choose|k: int| 0 <= k < front.len() && !(group_at(t, #[trigger] front[k]) is Ok);
            assert(!(group_at(t, cs[k]) is Ok));
        }
    }
}

/// The limit of a CypherQL query is the number that is written.
pub proof fn law_cypher_limit_is_the_number(t: Parsed, i: usize, q: CypherQueryView)
    ensures
        match t.child_of(i, Rule::Integer) {
            Some(c) if is_number(t.text(c)) && number_value(t.text(c)) <= u64::MAX => cypher_limit_at(t, i, q) matches Ok(r)
                && r.limit == Some(number_value(t.text(c)) as u64),
            _ => cypher_limit_at(t, i, q) is Err,
        },
{
}

/// The call of an aggregate function on an ASCII argument is told by its name.
pub proof fn law_called_aggregate_is_told(function: AggregateFunction, argument: Seq<char>)
    requires
        !(function is GroupConcat),
        is_ascii_text(argument),
    ensures
        aggregate_in(function.rendered() + seq!['('] + argument + seq![')']) == Some(function),
{
    reveal_strlit("COUNT(");
    reveal_strlit("SUM(");
    reveal_strlit("AVG(");
    reveal_strlit("MIN(");
    reveal_strlit("MAX(");
    reveal_strlit("COLLECT(");
    reveal_strlit("COUNT");
    reveal_strlit("SUM");
    reveal_strlit("AVG");
    reveal_strlit("MIN");
    reveal_strlit("MAX");
    reveal_strlit("COLLECT");
    let f = function.rendered();
    let e = f + seq!['('] + argument + seq![')'];
    let n = f.len() as int;
    assert(e[0] == f[0] && e[1] == f[1] && e[2] == f[2]);
    assert(!is_white_space(e[0]) && !is_white_space(e.last()));
    assert(trimmed(e) == e);
    assert forall|i: int| 0 <= i < e.len() implies (#[trigger] e[i]) as u32 <= 0x7f by {
        if i < n {
            assert(e[i] == f[i]);
        } else if n < i < e.len() - 1 {
            assert(e[i] == argument[i - n - 1]);
        }
    }
    let u = capitals(e);
    assert(u == ascii_capitals(e));
    assert(u[0] == f[0] && u[1] == f[1] && u[2] == f[2]);
    let called = f + seq!['('];
    assert(u.subrange(0, n + 1) =~= called) by {
        assert forall|i: int| 0 <= i < n + 1 implies u.subrange(0, n + 1)[i] == called[i] by {
            if i < n {
                assert(e[i] == f[i]);
            }
        }
    }
    assert(text_at(u, 0, called));
    assert(function is Count ==> called =~= "COUNT("@);
    assert(function is Sum ==> called =~= "SUM("@);
    assert(function is Avg ==> called =~= "AVG("@);
    assert(function is Min ==> called =~= "MIN("@);
    assert(function is Max ==> called =~= "MAX("@);
    assert(function is Collect ==> called =~= "COLLECT("@);
    assert(text_at(u, 0, "COUNT("@) ==> u.subrange(0, 6)[2] == u[2] && u.subrange(0, 6)[0] == u[0]);
    assert(text_at(u, 0, "SUM("@) ==> u.subrange(0, 4)[0] == u[0]);
    assert(text_at(u, 0, "AVG("@) ==> u.subrange(0, 4)[0] == u[0]);
    assert(text_at(u, 0, "MIN("@) ==> u.subrange(0, 4)[0] == u[0] && u.subrange(0, 4)[1] == u[1]);
    assert(text_at(u, 0, "MAX("@) ==> u.subrange(0, 4)[0] == u[0] && u.subrange(0, 4)[1] == u[1]);
}

} // verus!
