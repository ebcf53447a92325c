//! What the parts of a CQELS-QL query are read as.
use vstd::prelude::*;

use crate::parser::ast::{CqelsQueryView, GroupView, SelectView, SortDirection};
use crate::parser::cqelsql_spec::{
    aggregate_of, any_stream, bare_variable, between_nodes, first_behind_union, fitting, group_at, group_by_at,
    groups_in, hoisted, implicitly_bound, limit_at, mentions_union, named_window_at, occurrences_at, order_at,
    prefix_at, select_element_at, stream_at, union_at, union_split,
};
use crate::parser::cypher_reading::{lemma_keyword, lemma_not_either, lemma_same_span};
use crate::parser::grammar::{body, Language, Rule};
use crate::parser::peg::{any_case_at, call, matched, text, Peg};
use crate::parser::reading_laws::lemma_pair_filter;
use crate::parser::shapes::{lemma_behind_gap, lemma_called, lemma_chain, lemma_no_tops, lemma_shape_plain, plain_tops};
use crate::parser::tree::{unbracketed, window_at, without_trailing, Parsed};
use crate::parser::tree_laws::{below, lemma_children, lemma_match_of, top_rules, well_parsed};
use crate::text::{is_number, number_value};

verus! {

/// Two nodes of rules directly below a node, one behind the other.
pub open spec fn two_parts(t: Parsed, i: usize, a: Rule, b: Rule) -> bool {
    &&& t.children(i).len() == 2
    &&& t.rule(t.children(i)[0]) == a
    &&& t.rule(t.children(i)[1]) == b
    &&& i < t.children(i)[0] && t.children(i)[0] < t.children(i)[1] && t.children(i)[1] < t.nodes.len()
    &&& t.nodes[i as int].start <= t.nodes[t.children(i)[0] as int].start
    &&& t.nodes[t.children(i)[0] as int].end <= t.nodes[t.children(i)[1] as int].start
    &&& t.nodes[t.children(i)[1] as int].end <= t.nodes[i as int].end
}

pub proof fn lemma_two_parts(t: Parsed, i: usize, a: Rule, b: Rule)
    requires
        well_parsed(t),
        i < t.nodes.len(),
        plain_tops(body(t.language, t.rule(i))) == Some(seq![a, b]),
    ensures
        two_parts(t, i, a, b),
{
    lemma_children(t, i);
    lemma_shape_plain(t, i);
    let cs = t.children(i);
    let rules = top_rules(below(t, i));
    assert(t.rule(cs[0]) == rules[0] && t.rule(cs[1]) == rules[1]);
    assert(cs[0] < cs[1]);
}

/// A prefix stands for the IRI that is written behind it.
pub proof fn law_prefix_is_as_written(t: Parsed, i: usize)
    requires
        well_parsed(t),
        t.language == Language::CqelsQl,
        i < t.nodes.len(),
        t.rule(i) == Rule::PrefixDecl,
    ensures
        two_parts(t, i, Rule::PrefixName, Rule::IriRef),
        prefix_at(t, i) matches Ok((prefix, uri)) && prefix == without_trailing(t.text(t.children(i)[0]), ':') && uri
            == unbracketed(t.text(t.children(i)[1])),
{
    reveal_with_fuel(plain_tops, 10);
    assert(plain_tops(body(t.language, t.rule(i)))->0 =~= seq![Rule::PrefixName, Rule::IriRef]);
    lemma_two_parts(t, i, Rule::PrefixName, Rule::IriRef);
}

/// An element of a SELECT list is added behind the others: a variable as it is
/// written, or the expression that is written before AS with the variable behind
/// it as its alias.
pub proof fn law_select_element_is_as_written(t: Parsed, i: usize, q: CqelsQueryView)
    requires
        well_parsed(t),
        t.language == Language::CqelsQl,
        i < t.nodes.len(),
        t.rule(i) == Rule::SelectElement,
    ensures
        t.children(i).len() == 1,
        ({
            let c = t.children(i)[0];
            let r = select_element_at(t, i, q);
            &&& t.rule(c) == Rule::Variable ==> r.select_elements == q.select_elements.push(
                SelectView::Variable(t.text(i)),
            ) && r.aggregates == q.aggregates
            &&& t.rule(c) != Rule::Variable ==> two_parts(t, c, Rule::Expression, Rule::Variable) && r.select_elements
                == q.select_elements.push(
                SelectView::Expression {
                    expression: t.text(t.children(c)[0]),
                    alias: t.text(t.children(c)[1]),
                },
            ) && (match aggregate_of(t.text(t.children(c)[0]), t.text(t.children(c)[1])) {
                Some(a) => r.aggregates == q.aggregates.push(a),
                None => r.aggregates == q.aggregates,
            })
        }),
{
    let calls = lemma_match_of(t, i);
    let n = t.nodes[i as int];
    let a = call(Rule::Variable);
    let b = call(Rule::ExpressionAlias);
    assert(body(t.language, t.rule(i)) == a.or(b));
    let rule = if matched(t.language, t.input, a, n.start as nat, calls) is Some {
        Rule::Variable
    } else {
        Rule::ExpressionAlias
    };
    assert(matched(t.language, t.input, call(rule), n.start as nat, calls) == Some((n.end as nat, below(t, i))));
    lemma_same_span(t, i, rule, calls);
    lemma_children(t, i);
    let c = t.children(i)[0];
    let more = lemma_match_of(t, c);
    if rule == Rule::ExpressionAlias {
        lemma_alias_parts(t, c);
    }
}

proof fn lemma_alias_parts(t: Parsed, c: usize)
    requires
        well_parsed(t),
        t.language == Language::CqelsQl,
        c < t.nodes.len(),
        t.rule(c) == Rule::ExpressionAlias || t.rule(c) == Rule::BindPattern,
    ensures
        two_parts(t, c, Rule::Expression, Rule::Variable),
{
    reveal_with_fuel(plain_tops, 14);
    assert(plain_tops(body(t.language, t.rule(c)))->0 =~= seq![Rule::Expression, Rule::Variable]);
    lemma_two_parts(t, c, Rule::Expression, Rule::Variable);
}

/// BIND gives the expression that is written before AS to the variable behind it.
pub proof fn law_bind_is_as_written(t: Parsed, i: usize)
    requires
        well_parsed(t),
        t.language == Language::CqelsQl,
        i < t.nodes.len(),
        t.children(i).len() > 0,
        t.rule(t.children(i)[0]) == Rule::BindPattern,
    ensures
        ({
            let c = t.children(i)[0];
            &&& two_parts(t, c, Rule::Expression, Rule::Variable)
            &&& group_at(t, i) matches Ok(GroupView::Bind { expression, variable }) && expression == t.text(
                t.children(c)[0],
            ) && variable == t.text(t.children(c)[1])
        }),
{
    lemma_children(t, i);
    let c = t.children(i)[0];
    lemma_alias_parts(t, c);
}

/// A stream has the name that is written before its window.
pub proof fn law_stream_is_as_written(t: Parsed, i: usize)
    requires
        well_parsed(t),
        i < t.nodes.len(),
        t.rule(i) == Rule::FromStream,
    ensures
        two_parts(t, i, Rule::Identifier, Rule::WindowSpec),
        stream_at(t, i) is Ok <==> window_at(t, t.children(i)[1]) is Ok,
        stream_at(t, i) matches Ok(s) ==> s.name == t.text(t.children(i)[0]) && s.window == window_at(
            t,
            t.children(i)[1],
        )->Ok_0,
{
    reveal_with_fuel(plain_tops, 14);
    assert(plain_tops(body(t.language, t.rule(i)))->0 =~= seq![Rule::Identifier, Rule::WindowSpec]);
    lemma_two_parts(t, i, Rule::Identifier, Rule::WindowSpec);
}

/// A named window has the IRI that is written first, is over the stream that is
/// written behind it, and is the window that is written last.
pub proof fn law_named_window_is_as_written(t: Parsed, i: usize)
    requires
        well_parsed(t),
        t.language == Language::CqelsQl,
        i < t.nodes.len(),
        t.rule(i) == Rule::FromNamedWindow,
    ensures
        t.children(i).len() == 3,
        ({
            let cs = t.children(i);
            &&& t.rule(cs[0]) == Rule::IriRef && t.rule(cs[1]) == Rule::Identifier && t.rule(cs[2]) == Rule::WindowSpec
            &&& t.nodes[cs[0] as int].end <= t.nodes[cs[1] as int].start
            &&& t.nodes[cs[1] as int].end <= t.nodes[cs[2] as int].start
            &&& named_window_at(t, i) is Ok <==> window_at(t, cs[2]) is Ok
            &&& named_window_at(t, i) matches Ok(w) ==> w.iri == unbracketed(t.text(cs[0])) && w.stream == t.text(cs[1])
                && w.window == window_at(t, cs[2])->Ok_0
        }),
{
    reveal_with_fuel(plain_tops, 20);
    assert(plain_tops(body(t.language, t.rule(i)))->0 =~= seq![Rule::IriRef, Rule::Identifier, Rule::WindowSpec]);
    lemma_shape_plain(t, i);
    lemma_three_parts(t, i, Rule::IriRef, Rule::Identifier, Rule::WindowSpec);
}

/// Three nodes of different rules directly below a node.
proof fn lemma_three_parts(t: Parsed, i: usize, a: Rule, b: Rule, c: Rule)
    requires
        well_parsed(t),
        i < t.nodes.len(),
        top_rules(below(t, i)) == seq![a, b, c],
        a != b && b != c && a != c,
    ensures
        t.children(i).len() == 3,
        t.rule(t.children(i)[0]) == a && t.rule(t.children(i)[1]) == b && t.rule(t.children(i)[2]) == c,
        t.nodes[t.children(i)[0] as int].end <= t.nodes[t.children(i)[1] as int].start,
        t.nodes[t.children(i)[1] as int].end <= t.nodes[t.children(i)[2] as int].start,
        t.child_of(i, a) == Some(t.children(i)[0]),
        t.child_of(i, b) == Some(t.children(i)[1]),
        t.child_of(i, c) == Some(t.children(i)[2]),
{
    lemma_children(t, i);
    let cs = t.children(i);
    let rules = top_rules(below(t, i));
    assert(t.rule(cs[0]) == rules[0] && t.rule(cs[1]) == rules[1] && t.rule(cs[2]) == rules[2]);
    assert(cs[0] < cs[1] && cs[1] < cs[2]);
    assert(cs =~= seq![cs[0], cs[1], cs[2]]);
    lemma_triple_filter(cs[0], cs[1], cs[2], t.has_rule(a));
    lemma_triple_filter(cs[0], cs[1], cs[2], t.has_rule(b));
    lemma_triple_filter(cs[0], cs[1], cs[2], t.has_rule(c));
}

proof fn lemma_triple_filter<A>(a: A, b: A, c: A, p: spec_fn(A) -> bool)
    ensures
        p(a) && !p(b) && !p(c) ==> seq![a, b, c].filter(p) == seq![a],
        !p(a) && p(b) && !p(c) ==> seq![a, b, c].filter(p) == seq![b],
        !p(a) && !p(b) && p(c) ==> seq![a, b, c].filter(p) == seq![c],
{
    reveal(Seq::filter);
    assert(seq![a, b, c].drop_last() =~= seq![a, b]);
    assert(seq![a, b, c].last() == c);
    lemma_pair_filter(a, b, p);
    lemma_not_either(a, b, p);
    assert(Seq::<A>::empty().push(c) =~= seq![c]);
}

/// What stands below a sort condition that is a variable.
proof fn lemma_plain_order_parts(t: Parsed, i: usize, calls: nat)
    requires
        well_parsed(t),
        i < t.nodes.len(),
        matched(
            t.language,
            t.input,
            call(Rule::Variable).lay_maybe(call(Rule::AscKw).or(call(Rule::DescKw))),
            t.nodes[i as int].start as nat,
            calls,
        ) == Some((t.nodes[i as int].end as nat, below(t, i))),
    ensures
        1 <= t.children(i).len() <= 2,
        t.rule(t.children(i)[0]) == Rule::Variable,
        t.children(i).len() == 2 ==> t.rule(t.children(i)[1]) == Rule::AscKw || t.rule(t.children(i)[1])
            == Rule::DescKw,
        t.children(i).len() == 2 ==> t.nodes[t.children(i)[0] as int].end <= t.nodes[t.children(i)[1] as int].start
            && t.children(i)[1] < t.nodes.len(),
{
    let c0 = lemma_match_of(t, i);
    lemma_children(t, i);
    let pos = t.nodes[i as int].start as nat;
    let asc = call(Rule::AscKw);
    let desc = call(Rule::DescKw);
    let inner = Peg::Gap.chain(asc.or(desc));
    let (p, first, c, second) = lemma_chain(t.language, t.input, call(Rule::Variable), inner.maybe(), pos, calls);
    lemma_called(t.language, t.input, Rule::Variable, pos, calls);
    let cs = t.children(i);
    let rules = top_rules(below(t, i));
    assert(matched(t.language, t.input, inner.maybe(), p, c) is Some);
    if matched(t.language, t.input, inner, p, c) is Some {
        let (at, d) = lemma_behind_gap(t.language, t.input, asc.or(desc), p, c);
        if matched(t.language, t.input, asc, at, d) is Some {
            lemma_called(t.language, t.input, Rule::AscKw, at, d);
        } else {
            lemma_called(t.language, t.input, Rule::DescKw, at, d);
        }
    } else {
        lemma_no_tops(second);
    }
    assert(t.rule(cs[0]) == rules[0]);
    if cs.len() == 2 {
        assert(t.rule(cs[1]) == rules[1]);
        assert(cs[0] < cs[1]);
    }
}

/// What stands below a direction around a variable.
proof fn lemma_order_func_parts(t: Parsed, f: usize)
    requires
        well_parsed(t),
        t.language == Language::CqelsQl,
        f < t.nodes.len(),
        t.rule(f) == Rule::OrderFunc,
    ensures
        t.children(f).len() == 2,
        t.rule(t.children(f)[0]) == Rule::AscKw || t.rule(t.children(f)[0]) == Rule::DescKw,
        t.rule(t.children(f)[1]) == Rule::Variable,
        t.children(f)[0] < t.nodes.len() && t.children(f)[1] < t.nodes.len(),
{
    let calls = lemma_match_of(t, f);
    lemma_children(t, f);
    let pos = t.nodes[f as int].start as nat;
    let asc = call(Rule::AscKw);
    let desc = call(Rule::DescKw);
    let either = asc.or(desc);
    let open = either.lay(text("("));
    let named = open.lay(call(Rule::Variable));
    assert(body(t.language, t.rule(f)) == named.lay(text(")")));
    let (p1, a1, x1, c1, b1) = crate::parser::shapes::lemma_lay(t.language, t.input, named, text(")"), pos, calls);
    lemma_no_tops(b1);
    let (p2, a2, x2, c2, b2) = crate::parser::shapes::lemma_lay(
        t.language,
        t.input,
        open,
        call(Rule::Variable),
        pos,
        calls,
    );
    lemma_called(t.language, t.input, Rule::Variable, x2, c2);
    let (p3, a3, x3, c3, b3) = crate::parser::shapes::lemma_lay(t.language, t.input, either, text("("), pos, calls);
    lemma_no_tops(b3);
    if matched(t.language, t.input, asc, pos, calls) is Some {
        lemma_called(t.language, t.input, Rule::AscKw, pos, calls);
    } else {
        lemma_called(t.language, t.input, Rule::DescKw, pos, calls);
    }
    let rules = top_rules(below(t, f));
    assert(rules.len() == 2);
    let cs = t.children(f);
    assert(t.rule(cs[0]) == rules[0] && t.rule(cs[1]) == rules[1]);
}

/// A sort condition is by the variable that is written, and descending exactly
/// where DESC is written behind it or around it.
pub proof fn law_order_condition_is_as_written(t: Parsed, i: usize) -> (r: (usize, Option<usize>))
    requires
        well_parsed(t),
        t.language == Language::CqelsQl,
        i < t.nodes.len(),
        t.rule(i) == Rule::OrderCondition,
    ensures
        i < r.0 && r.0 < t.nodes.len(),
        t.rule(r.0) == Rule::Variable,
        order_at(t, i).expression == t.text(r.0),
        match r.1 {
            None => order_at(t, i).direction == SortDirection::Ascending,
            Some(k) => i < k && k < t.nodes.len() && (if order_at(t, i).direction == SortDirection::Descending {
                any_case_at(t.input, t.nodes[k as int].start as int, "DESC"@)
            } else {
                any_case_at(t.input, t.nodes[k as int].start as int, "ASC"@)
            }),
        },
{
    let calls = lemma_match_of(t, i);
    let n = t.nodes[i as int];
    lemma_children(t, i);
    let a = call(Rule::OrderFunc);
    let b = call(Rule::Variable).lay_maybe(call(Rule::AscKw).or(call(Rule::DescKw)));
    assert(body(t.language, t.rule(i)) == a.or(b));
    let cs = t.children(i);
    if matched(t.language, t.input, a, n.start as nat, calls) is Some {
        lemma_same_span(t, i, Rule::OrderFunc, calls);
        let f = cs[0];
        lemma_children(t, f);
        lemma_order_func_parts(t, f);
        lemma_order_by_func(t, i, f);
        lemma_keyword(t, t.children(f)[0]);
        (t.children(f)[1], Some(t.children(f)[0]))
    } else {
        lemma_plain_order_parts(t, i, calls);
        lemma_order_by_variable(t, i);
        if cs.len() == 2 {
            lemma_keyword(t, cs[1]);
            (cs[0], Some(cs[1]))
        } else {
            (cs[0], None)
        }
    }
}

proof fn lemma_order_by_func(t: Parsed, i: usize, f: usize)
    requires
        t.children(i).len() == 1,
        t.children(i)[0] == f,
        t.rule(f) == Rule::OrderFunc,
        t.children(f).len() == 2,
        t.rule(t.children(f)[0]) == Rule::AscKw || t.rule(t.children(f)[0]) == Rule::DescKw,
        t.rule(t.children(f)[1]) == Rule::Variable,
    ensures
        order_at(t, i).expression == t.text(t.children(f)[1]),
        (order_at(t, i).direction == SortDirection::Descending) == (t.rule(t.children(f)[0]) == Rule::DescKw),
{
    let cs = t.children(i);
    assert(cs =~= seq![f]);
    lemma_pair_filter(f, f, t.has_rule(Rule::OrderFunc));
    let ds = t.children(f);
    assert(ds =~= seq![ds[0], ds[1]]);
    lemma_pair_filter(ds[0], ds[1], t.has_rule(Rule::Variable));
    lemma_pair_filter(ds[0], ds[1], t.has_rule(Rule::DescKw));
    lemma_not_either(ds[0], ds[1], t.has_rule(Rule::DescKw));
}

proof fn lemma_order_by_variable(t: Parsed, i: usize)
    requires
        1 <= t.children(i).len() <= 2,
        t.rule(t.children(i)[0]) == Rule::Variable,
        t.children(i).len() == 2 ==> t.rule(t.children(i)[1]) == Rule::AscKw || t.rule(t.children(i)[1])
            == Rule::DescKw,
    ensures
        order_at(t, i).expression == t.text(t.children(i)[0]),
        (order_at(t, i).direction == SortDirection::Descending) == (t.children(i).len() == 2 && t.rule(
            t.children(i)[1],
        ) == Rule::DescKw),
{
    let cs = t.children(i);
    if cs.len() == 2 {
        assert(cs =~= seq![cs[0], cs[1]]);
        lemma_pair_filter(cs[0], cs[1], t.has_rule(Rule::Variable));
        lemma_pair_filter(cs[0], cs[1], t.has_rule(Rule::DescKw));
        lemma_not_either(cs[0], cs[1], t.has_rule(Rule::DescKw));
        lemma_not_either(cs[0], cs[1], t.has_rule(Rule::OrderFunc));
    } else {
        assert(cs =~= seq![cs[0]]);
        lemma_pair_filter(cs[0], cs[0], t.has_rule(Rule::Variable));
        lemma_pair_filter(cs[0], cs[0], t.has_rule(Rule::DescKw));
        lemma_pair_filter(cs[0], cs[0], t.has_rule(Rule::OrderFunc));
    }
}

/// The arms of a UNION hold all its groups, in order, and both hold some where
/// there are two groups. The second arm begins at the first group that stands
/// behind the keyword UNION.
pub proof fn law_union_arms_meet_at_the_keyword(t: Parsed, i: usize, cs: Seq<usize>) -> (at: int)
    requires
        cs == t.children_of(i, Rule::PatternGroup),
        union_at(t, i) is Ok,
    ensures
        0 <= at <= cs.len(),
        cs.len() >= 2 ==> 1 <= at < cs.len(),
        union_at(t, i)->Ok_0 matches GroupView::Union { left, right } && left.len() == at && left.len() + right.len()
            == cs.len() && groups_in(t, i, cs) == Ok::<Seq<GroupView>, crate::parser::error::ErrorView>(left + right),
        forall|k: int|
            1 <= k < cs.len() && mentions_union(between_nodes(t, cs[k - 1], #[trigger] cs[k])) ==> at <= k
                && mentions_union(between_nodes(t, cs[at - 1], cs[at])),
{
    let groups = groups_in(t, i, cs)->Ok_0;
    crate::parser::cqels_laws::lemma_groups_count(t, i, cs);
    lemma_first_behind(t, cs, 1);
    let at = union_split(t, cs);
    assert(groups.take(at) + groups.skip(at) =~= groups);
    at
}

proof fn lemma_first_behind(t: Parsed, cs: Seq<usize>, from: int)
    requires
        1 <= from,
    ensures
        match first_behind_union(t, cs, from) {
            Some(at) => from <= at < cs.len() && mentions_union(between_nodes(t, cs[at - 1], cs[at])) && forall|k: int|
                from <= k < at ==> !mentions_union(between_nodes(t, cs[k - 1], #[trigger] cs[k])),
            None => forall|k: int|
                from <= k < cs.len() ==> !mentions_union(between_nodes(t, cs[k - 1], #[trigger] cs[k])),
        },
    decreases cs.len() - from,
{
    if from < cs.len() && !mentions_union(between_nodes(t, cs[from - 1], cs[from])) {
        lemma_first_behind(t, cs, from + 1);
    }
}

/// The groups of a WHERE clause are added in their order, without the sequences
/// of events; the last of those is the constraint of the query.
pub proof fn law_sequences_are_set_apart(groups: Seq<GroupView>, q: CqelsQueryView)
    ensures
        hoisted(groups, q).pattern_groups == q.pattern_groups + groups.filter(|g: GroupView| !(g is Sequence)),
        groups.len() > 0 && groups.last() is Sequence ==> hoisted(groups, q).seq_constraint == Some(
            groups.last()->Sequence_args,
        ),
        (forall|k: int| 0 <= k < groups.len() ==> !(#[trigger] groups[k] is Sequence)) ==> hoisted(
            groups,
            q,
        ).seq_constraint == q.seq_constraint,
    decreases groups.len(),
{
    reveal(Seq::filter);
    let keep = |g: GroupView| !(g is Sequence);
    if groups.len() == 0 {
        assert(groups.filter(keep) =~= Seq::<GroupView>::empty());
        assert(q.pattern_groups + groups.filter(keep) =~= q.pattern_groups);
    } else {
        let front = groups.drop_last();
        law_sequences_are_set_apart(front, q);
        assert(groups.last() == groups[groups.len() - 1]);
        assert(forall|k: int| 0 <= k < front.len() ==> #[trigger] front[k] == groups[k]);
        if keep(groups.last()) {
            assert((q.pattern_groups + front.filter(keep)).push(groups.last()) =~= q.pattern_groups + front.filter(
                keep,
            ).push(groups.last()));
        }
    }
}

/// Where a query has one stream and no graph, and no group names a stream, bare
/// patterns belong to that stream. Else, and else than that, groups stay as they
/// are.
pub proof fn law_bare_patterns_belong_to_the_only_stream(groups: Seq<GroupView>, q: CqelsQueryView)
    ensures
        implicitly_bound(groups, q).len() == groups.len(),
        forall|k: int|
            0 <= k < groups.len() ==> {
                let only = q.streams.len() == 1 && q.static_graphs.len() == 0 && q.named_graphs.len() == 0 && forall|
                    j: int,
                |
                    0 <= j < groups.len() ==> !(#[trigger] groups[j] is Stream);
                if only && groups[k] is Default {
                    #[trigger] implicitly_bound(groups, q)[k] == (GroupView::Stream {
                        source: q.streams[0].name,
                        patterns: groups[k]->Default_patterns,
                    })
                } else {
                    implicitly_bound(groups, q)[k] == groups[k]
                }
            },
{
    assert(any_stream(groups) <==> !forall|j: int| 0 <= j < groups.len() ==> !(#[trigger] groups[j] is Stream));
}

/// The variables of a GROUP BY clause are added in the order in which they are
/// written.
pub proof fn law_group_by_lists_the_variables(t: Parsed, i: usize, q: CqelsQueryView)
    ensures
        ({
            let vs = t.children_of(i, Rule::Variable);
            let r = group_by_at(t, i, q).group_by_variables;
            &&& r.len() == q.group_by_variables.len() + vs.len()
            &&& forall|k: int| 0 <= k < q.group_by_variables.len() ==> #[trigger] r[k] == q.group_by_variables[k]
            &&& forall|k: int|
                0 <= k < vs.len() ==> r[q.group_by_variables.len() + k] == t.text(#[trigger] vs[k])
        }),
{
}

/// A limit is the number that is written.
pub proof fn law_limit_is_the_number(t: Parsed, i: usize, q: CqelsQueryView)
    requires
        well_parsed(t),
        i < t.nodes.len(),
        t.rule(i) == Rule::LimitClause,
        limit_at(t, i, q) is Ok,
    ensures
        t.children(i).len() == 1,
        limit_at(t, i, q)->Ok_0.limit is Some,
        limit_at(t, i, q)->Ok_0.limit->0 == number_value(t.text(t.children(i)[0])),
        is_number(t.text(t.children(i)[0])),
{
    lemma_children(t, i);
    reveal_with_fuel(plain_tops, 8);
    assert(plain_tops(body(t.language, t.rule(i)))->0 =~= seq![Rule::Integer]);
    lemma_shape_plain(t, i);
    let cs = t.children(i);
    assert(t.rule(cs[0]) == top_rules(below(t, i))[0]);
    assert(cs =~= seq![cs[0]]);
    lemma_pair_filter(cs[0], cs[0], t.has_rule(Rule::Integer));
}

/// How often an event is to occur: once where nothing is said, at least once with
/// `+`, any number of times with `*`, at most once with `?`, exactly as often as
/// one number says, and between two numbers, the least first.
pub proof fn law_occurrences_are_as_written(t: Parsed, i: usize)
    ensures
        match t.child_of(i, Rule::SeqQuantifier) {
            None => occurrences_at(t, i) == Ok::<(u32, u32), crate::parser::error::ErrorView>((1, 1)),
            Some(c) => ({
                let ns = fitting(t, t.children_of(c, Rule::Integer));
                &&& ns.len() == 0 && t.text(c) == "+"@ ==> (occurrences_at(t, i) matches Ok((low, high)) && low == 1
                    && high == u32::MAX)
                &&& ns.len() == 0 && t.text(c) == "*"@ ==> (occurrences_at(t, i) matches Ok((low, high)) && low == 0
                    && high == u32::MAX)
                &&& ns.len() == 0 && t.text(c) == "?"@ ==> (occurrences_at(t, i) matches Ok((low, high)) && low == 0
                    && high == 1)
                &&& ns.len() == 1 ==> (occurrences_at(t, i) matches Ok((low, high)) && low == ns[0] && high == ns[0])
                &&& ns.len() == 2 ==> (occurrences_at(t, i) matches Ok((low, high)) && low == ns[0] && high == ns[1])
            }),
        },
{
    reveal_strlit("+");
    reveal_strlit("*");
    reveal_strlit("?");
    assert("+"@[0] == '+' && "*"@[0] == '*' && "?"@[0] == '?');
}

/// A variable without its sign is the name behind it.
pub proof fn law_sign_is_taken_off(name: Seq<char>)
    requires
        name.len() > 0 ==> name[0] != '?' && name[0] != '$',
    ensures
        bare_variable(seq!['?'] + name) == name,
        bare_variable(seq!['$'] + name) == name,
        bare_variable(name) == name,
{
    assert((seq!['?'] + name).skip(1) =~= name);
    assert((seq!['$'] + name).skip(1) =~= name);
    assert(bare_variable(seq!['?'] + name) == bare_variable((seq!['?'] + name).skip(1)));
    assert(bare_variable(seq!['$'] + name) == bare_variable((seq!['$'] + name).skip(1)));
}

} // verus!
