//! What queries show is what their fields hold, and texts of parts of queries are
//! read back.
use vstd::prelude::*;

use crate::parser::ast::{
    opt_text, positive_variables, views, AggregateFunction, AggregateSpec, AggregateSpecView, CqelsPatternGroup,
    CqelsQueryDefinition, CqelsStreamDefinition, GraphDefinition, GroupView, NamedWindowDefinition, OrderCondition,
    SelectElement, SelectView, SeqArg, SeqArgView, TriplePattern,
};
use crate::parser::ast_cypher::{
    CypherPattern, CypherQueryDefinition, CypherStreamDefinition, NodePattern, PathLength, PatternGroup,
    RelationshipPattern, ReturnExpression,
};
use crate::parser::capitals::{ascii_capitals, bytes_in, capitals, chars_in_bytes, is_ascii_text};
use crate::parser::cqelsql_spec::{aggregate_of, fitting, function_of};
use crate::parser::cypher_laws::linked;
use crate::parser::cypherql_spec::{has_dots, path_length_at};
use crate::parser::grammar::Rule;
use crate::parser::peg::text_at;
use crate::parser::reading_laws::{law_first_occurrence, law_last_occurrence};
use crate::parser::tree::{found_before, found_from, trimmed, Parsed};
use crate::text::{decimal_digits, is_white_space};

verus! {

/// The same text, or none on both sides.
pub open spec fn same_text(a: Option<String>, b: Option<Seq<char>>) -> bool {
    match (a, b) {
        (Some(s), Some(t)) => s@ == t,
        (None, None) => true,
        _ => false,
    }
}

/// The same texts in the same order.
pub open spec fn same_texts(a: Seq<String>, b: Seq<Seq<char>>) -> bool {
    a.len() == b.len() && forall|i: int| 0 <= i < a.len() ==> (#[trigger] a[i])@ == b[i]
}

/// What a triple pattern shows as subject, predicate and object are its fields of
/// these names.
pub proof fn law_triple_shows_its_fields(t: TriplePattern)
    ensures
        t@.subject == t.subject@,
        t@.predicate == t.predicate@,
        t@.object == t.object@,
{
}

/// What an event of a sequence shows are its fields.
pub proof fn law_event_shows_its_fields(a: SeqArg)
    ensures
        a@.variable == a.variable@,
        a@.negated == a.negated,
        a@.min_occurrences == a.min_occurrences,
        a@.max_occurrences == a.max_occurrences,
        same_text(a.alias, a@.alias),
{
}

/// What an element of a SELECT clause shows are its parts.
pub proof fn law_select_element_shows_its_parts(e: SelectElement)
    ensures
        match (e, e@) {
            (SelectElement::Variable(v), SelectView::Variable(w)) => v@ == w,
            (
                SelectElement::Expression { expression, alias },
                SelectView::Expression { expression: shown, alias: named },
            ) => expression@ == shown && alias@ == named,
            _ => false,
        },
{
}

/// What aggregates, sort conditions, graphs, streams and windows show are their
/// fields.
pub proof fn law_clauses_show_their_fields(
    a: AggregateSpec,
    o: OrderCondition,
    g: GraphDefinition,
    s: CqelsStreamDefinition,
    c: CypherStreamDefinition,
    w: NamedWindowDefinition,
    r: ReturnExpression,
)
    ensures
        a@.function == a.function && a@.argument == a.argument@ && a@.alias == a.alias@,
        o@.expression == o.expression@ && o@.direction == o.direction,
        g@.uri == g.uri@ && g@.depth == g.depth && g@.cache_duration == g.cache_duration,
        s@.name == s.name@ && s@.window == s.window,
        c@.name == c.name@ && c@.window == c.window,
        w@.iri == w.iri@ && w@.stream == w.stream@ && w@.window == w.window,
        r@.expression == r.expression@ && same_text(r.alias, r@.alias) && r@.aggregate_function == r.aggregate_function
            && r@.distinct == r.distinct,
{
}

/// What a node and a relationship show are their fields.
pub proof fn law_pattern_parts_show_their_fields(n: NodePattern, r: RelationshipPattern)
    ensures
        same_text(n.variable, n@.variable),
        same_texts(n.labels@, n@.labels),
        forall|k: Seq<char>| #[trigger] n@.properties.contains_key(k) == n.properties@.contains_key(k),
        forall|k: Seq<char>| #[trigger] n.properties@.contains_key(k) ==> n@.properties[k] == n.properties@[k]@,
        same_text(r.variable, r@.variable),
        same_texts(r.types@, r@.types),
        r@.direction == r.direction,
        same_text(r.start_node, r@.start_node),
        same_text(r.end_node, r@.end_node),
        r@.path_length == r.path_length,
        forall|k: Seq<char>| #[trigger] r@.properties.contains_key(k) == r.properties@.contains_key(k),
        forall|k: Seq<char>| #[trigger] r.properties@.contains_key(k) ==> r@.properties[k] == r.properties@[k]@,
{
}

/// In a pattern that shows as linked, the relationship at a place starts at the
/// variable of the node of that place and ends at the variable of the one behind
/// it.
pub proof fn law_linked_pattern_links_its_fields(p: CypherPattern)
    requires
        linked(p@),
    ensures
        p.nodes@.len() == p.relationships@.len() + 1,
        forall|k: int|
            0 <= k < p.relationships@.len() ==> {
                let r = #[trigger] p.relationships@[k];
                &&& same_text(r.start_node, opt_text(p.nodes@[k].variable))
                &&& same_text(r.end_node, opt_text(p.nodes@[k + 1].variable))
            },
{
    assert forall|k: int| 0 <= k < p.relationships@.len() implies {
        let r = #[trigger] p.relationships@[k];
        &&& same_text(r.start_node, opt_text(p.nodes@[k].variable))
        &&& same_text(r.end_node, opt_text(p.nodes@[k + 1].variable))
    } by {
        let r = p.relationships@[k];
        assert(p@.relationships[k] == r@);
        assert(p@.nodes[k] == p.nodes@[k]@);
        assert(p@.nodes[k + 1] == p.nodes@[k + 1]@);
        law_pattern_parts_show_their_fields(p.nodes@[k], r);
    }
}

/// A listing shows what its elements show, in their order.
pub proof fn law_listing_shows_its_elements<T: View>(s: Seq<T>, i: int)
    requires
        0 <= i < s.len(),
    ensures
        views(s).len() == s.len(),
        views(s)[i] == s[i]@,
{
}

/// What a group of patterns of a CypherQL query shows are its fields.
pub proof fn law_pattern_group_shows_its_fields(g: PatternGroup)
    ensures
        g@.source == g.source,
        same_text(g.source_name, g@.source_name),
        g@.patterns.len() == g.patterns@.len(),
        forall|k: int| 0 <= k < g.patterns@.len() ==> g@.patterns[k] == (#[trigger] g.patterns@[k])@,
{
}

/// What a CypherQL query shows are its fields.
pub proof fn law_cypher_query_shows_its_fields(q: CypherQueryDefinition)
    ensures
        same_text(q.name, q@.name),
        q@.streams == views(q.streams@),
        q@.static_graphs == views(q.static_graphs@),
        q@.named_graphs == views(q.named_graphs@),
        q@.pattern_groups == views(q.pattern_groups@),
        same_text(q.where_expression, q@.where_expression),
        q@.return_expressions == views(q.return_expressions@),
        q@.distinct == q.distinct,
        same_texts(q.group_by_expressions@, q@.group_by_expressions),
        same_texts(q.having_filters@, q@.having_filters),
        q@.order_by_conditions == views(q.order_by_conditions@),
        q@.limit == q.limit,
{
}

/// What a CQELS-QL query shows are its fields.
pub proof fn law_cqels_query_shows_its_fields(q: CqelsQueryDefinition)
    ensures
        same_text(q.name, q@.name),
        q@.query_type == q.query_type,
        q@.stream_semantics == q.stream_semantics,
        forall|k: Seq<char>| #[trigger] q@.prefixes.contains_key(k) == q.prefixes@.contains_key(k),
        forall|k: Seq<char>| #[trigger] q.prefixes@.contains_key(k) ==> q@.prefixes[k] == q.prefixes@[k]@,
        q@.streams == views(q.streams@),
        q@.named_windows == views(q.named_windows@),
        q@.static_graphs == views(q.static_graphs@),
        q@.named_graphs == views(q.named_graphs@),
        q@.select_elements == views(q.select_elements@),
        q@.construct_template == views(q.construct_template@),
        q@.distinct == q.distinct,
        q@.aggregates == views(q.aggregates@),
        same_texts(q.group_by_variables@, q@.group_by_variables),
        q@.order_by_conditions == views(q.order_by_conditions@),
        q@.limit == q.limit,
{
}

/// What a group of a WHERE clause shows are its parts.
pub proof fn law_group_shows_its_parts(g: CqelsPatternGroup)
    ensures
        match (g, crate::parser::ast::group_view(g)) {
            (CqelsPatternGroup::Stream { source, patterns }, GroupView::Stream { source: s, patterns: p }) => source@
                == s && p == views(patterns@),
            (CqelsPatternGroup::Window { window_iri, patterns }, GroupView::Window { window_iri: s, patterns: p }) =>
            window_iri@ == s && p == views(patterns@),
            (CqelsPatternGroup::Static { patterns }, GroupView::Static { patterns: p }) => p == views(patterns@),
            (
                CqelsPatternGroup::NamedGraph { graph_uri, patterns },
                GroupView::NamedGraph { graph_uri: s, patterns: p },
            ) => graph_uri@ == s && p == views(patterns@),
            (CqelsPatternGroup::Default { patterns }, GroupView::Default { patterns: p }) => p == views(patterns@),
            (CqelsPatternGroup::Filter { expression }, GroupView::Filter { expression: e }) => expression@ == e,
            (CqelsPatternGroup::Bind { expression, variable }, GroupView::Bind { expression: e, variable: v }) =>
            expression@ == e && variable@ == v,
            (CqelsPatternGroup::Optional { groups }, GroupView::Optional { groups: gs }) => gs.len() == groups@.len(),
            (CqelsPatternGroup::Union { left, right }, GroupView::Union { left: l, right: r }) => l.len()
                == left@.len() && r.len() == right@.len(),
            (CqelsPatternGroup::Minus { patterns }, GroupView::Minus { patterns: p }) => p == views(patterns@),
            (CqelsPatternGroup::Sequence(seq), GroupView::Sequence { args }) => args == views(seq.args@),
            _ => false,
        },
{
    match g {
        CqelsPatternGroup::Optional { groups } => {
            crate::parser::ast::lemma_group_views_len(groups@);
        },
        CqelsPatternGroup::Union { left, right } => {
            crate::parser::ast::lemma_group_views_len(left@);
            crate::parser::ast::lemma_group_views_len(right@);
        },
        _ => {},
    }
}

/// The events that are to occur are those that are not negated, in their order.
pub proof fn law_positive_events_are_listed(args: Seq<SeqArgView>)
    ensures
        positive_variables(args) == args.filter(|a: SeqArgView| !a.negated).map_values(|a: SeqArgView| a.variable),
    decreases args.len(),
{
    reveal(Seq::filter);
    let p = |a: SeqArgView| !a.negated;
    let f = |a: SeqArgView| a.variable;
    if args.len() == 0 {
        assert(args.filter(p).map_values(f) =~= Seq::<Seq<char>>::empty());
    } else {
        let front = args.drop_last();
        law_positive_events_are_listed(front);
        if p(args.last()) {
            assert(front.filter(p).push(args.last()).map_values(f) =~= front.filter(p).map_values(f).push(
                f(args.last()),
            ));
        }
    }
}

proof fn lemma_digits_have_no_dots(n: nat)
    ensures
        decimal_digits(n).len() > 0,
        forall|i: int| 0 <= i < decimal_digits(n).len() ==> '0' <= #[trigger] decimal_digits(n)[i]
            && decimal_digits(n)[i] <= '9',
    decreases n,
{
    if n >= 10 {
        lemma_digits_have_no_dots(n / 10);
        let front = decimal_digits(n / 10);
        assert forall|i: int| 0 <= i < decimal_digits(n).len() implies '0' <= #[trigger] decimal_digits(n)[i]
            && decimal_digits(n)[i] <= '9' by {
            if i < front.len() {
                assert(decimal_digits(n)[i] == front[i]);
            } else {
                assert(decimal_digits(n)[i] == crate::text::digit(n % 10));
            }
        }
    } else {
        assert(decimal_digits(n)[0] == crate::text::digit(n));
    }
}

/// The bounds of a path are read back from their text.
pub proof fn law_path_length_is_read_back(t: Parsed, i: usize, bounds: PathLength)
    requires
        t.text(i) == bounds.rendered(),
        fitting(t, t.children_of(i, Rule::Integer)) == match (bounds.min_length, bounds.max_length) {
            (None, None) => Seq::empty(),
            (Some(low), Some(high)) => if low == high {
                seq![low]
            } else {
                seq![low, high]
            },
            (Some(low), None) => seq![low],
            (None, Some(high)) => seq![high],
        },
    ensures
        path_length_at(t, i) == bounds,
{
    reveal_strlit("*");
    reveal_strlit("..");
    reveal_strlit("*..");
    reveal_strlit("* ..");
    let s = t.text(i);
    match (bounds.min_length, bounds.max_length) {
        (None, None) => {},
        (Some(low), Some(high)) => {
            if low == high {
                lemma_digits_have_no_dots(low as nat);
                assert(!has_dots(s)) by {
                    if has_dots(s) {
                        let p = choose|p: int| 0 <= p <= s.len() && #[trigger] text_at(s, p, ".."@);
                        assert(s.subrange(p, p + 2)[0] == s[p]);
                        assert(s.subrange(p, p + 2)[1] == s[p + 1]);
                        if p > 0 {
                            assert(s[p] == decimal_digits(low as nat)[p - 1]);
                        }
                    }
                }
            }
        },
        (Some(low), None) => {
            let d = decimal_digits(low as nat);
            lemma_digits_have_no_dots(low as nat);
            let at = 1 + d.len() as int;
            assert(s.subrange(at, at + 2) =~= ".."@);
            assert(text_at(s, at, ".."@));
            assert(s[1] == d[0]);
            if text_at(s, 0, "*.."@) {
                assert(s.subrange(0, 3)[1] == s[1]);
            }
            if text_at(s, 0, "* .."@) {
                assert(s.subrange(0, 4)[1] == s[1]);
            }
        },
        (None, Some(high)) => {
            assert(s.subrange(0, 3) =~= "*.."@);
            assert(text_at(s, 0, "*.."@));
            assert(s.subrange(1, 3) =~= ".."@);
            assert(text_at(s, 1, ".."@));
        },
    }
}

proof fn lemma_ascii_bytes(text: Seq<char>)
    requires
        is_ascii_text(text),
    ensures
        bytes_in(text) == text.len(),
    decreases text.len(),
{
    if text.len() > 0 {
        assert(text[text.len() - 1] as u32 <= 0x7f);
        assert forall|i: int| 0 <= i < text.drop_last().len() implies (#[trigger] text.drop_last()[i]) as u32
            <= 0x7f by {
            assert(text[i] as u32 <= 0x7f);
        }
        lemma_ascii_bytes(text.drop_last());
    }
}

proof fn lemma_ascii_place(text: Seq<char>, k: int)
    requires
        is_ascii_text(text),
        0 <= k <= text.len(),
    ensures
        chars_in_bytes(text, k as nat) == Some(k),
        bytes_in(text.take(k)) == k,
    decreases text.len(),
{
    lemma_ascii_bytes(text);
    assert forall|i: int| 0 <= i < text.take(k).len() implies (#[trigger] text.take(k)[i]) as u32 <= 0x7f by {
        assert(text[i] as u32 <= 0x7f);
    }
    lemma_ascii_bytes(text.take(k));
    if k < text.len() {
        let front = text.drop_last();
        assert forall|i: int| 0 <= i < front.len() implies (#[trigger] front[i]) as u32 <= 0x7f by {
            assert(text[i] as u32 <= 0x7f);
        }
        lemma_ascii_place(front, k);
    }
}

/// The name of the function is at the start of its call.
proof fn lemma_named(function: AggregateFunction, s: Seq<char>)
    requires
        !(function is Collect),
        s.len() > function.rendered().len(),
        s.take(function.rendered().len() as int) == function.rendered(),
        s[function.rendered().len() as int] == '(',
    ensures
        function_of(s) == Some(function),
        function.rendered().len() > 0,
        forall|i: int| 0 <= i < function.rendered().len() ==> 'A' <= #[trigger] function.rendered()[i]
            && function.rendered()[i] <= '_',
{
    reveal_strlit("GROUP_CONCAT");
    reveal_strlit("COUNT");
    reveal_strlit("AVG");
    reveal_strlit("SUM");
    reveal_strlit("MIN");
    reveal_strlit("MAX");
    let f = function.rendered();
    assert(s.subrange(0, f.len() as int) =~= s.take(f.len() as int));
    assert(text_at(s, 0, f));
    assert(s[0] == f[0] && s[1] == f[1]) by {
        assert(s.take(f.len() as int)[0] == s[0]);
        assert(s.take(f.len() as int)[1] == s[1]);
    }
    assert(text_at(s, 0, "GROUP_CONCAT"@) ==> s.subrange(0, 12)[0] == s[0]);
    assert(text_at(s, 0, "COUNT"@) ==> s.subrange(0, 5)[0] == s[0]);
    assert(text_at(s, 0, "AVG"@) ==> s.subrange(0, 3)[0] == s[0]);
    assert(text_at(s, 0, "SUM"@) ==> s.subrange(0, 3)[0] == s[0]);
    assert(text_at(s, 0, "MIN"@) ==> s.subrange(0, 3)[1] == s[1]);
}

/// An aggregate of an ASCII argument that stands in brackets behind the name of its
/// function is read back: the function, the argument without white space around
/// it, and the alias.
pub proof fn law_aggregate_is_read_back(function: AggregateFunction, argument: Seq<char>, alias: Seq<char>)
    requires
        !(function is Collect),
        is_ascii_text(argument),
    ensures
        aggregate_of(function.rendered() + seq!['('] + argument + seq![')'], alias) == Some(
            AggregateSpecView { function, argument: trimmed(argument), alias },
        ),
{
    let f = function.rendered();
    let e = f + seq!['('] + argument + seq![')'];
    let n = f.len() as int;
    let last = e.len() - 1;
    assert(e.take(n) =~= f);
    lemma_named(function, e);
    assert(e[0] == f[0]);
    assert(!is_white_space(e[0]) && !is_white_space(e.last()));
    assert(trimmed(e) == e);
    assert forall|i: int| 0 <= i < e.len() implies (#[trigger] e[i]) as u32 <= 0x7f by {
        if i < n {
            assert(e[i] == f[i]);
        } else if n < i < last {
            assert(e[i] == argument[i - n - 1]);
        }
    }
    let u = capitals(e);
    assert(u == ascii_capitals(e));
    assert(u.take(n) =~= f) by {
        assert forall|i: int| 0 <= i < n implies u.take(n)[i] == f[i] by {
            assert(e[i] == f[i]);
        }
    }
    assert(u[n] == '(' && u[last] == ')');
    lemma_named(function, u);
    law_first_occurrence(u, '(', 0);
    law_last_occurrence(u, ')', u.len() as int);
    assert forall|j: int| 0 <= j < n implies #[trigger] u[j] != '(' by {
        assert(u.take(n)[j] == f[j]);
    }
    assert(found_from(u, '(', 0) == Some(n));
    assert(found_before(u, ')', u.len() as int) == Some(last));
    assert forall|i: int| 0 <= i < u.len() implies (#[trigger] u[i]) as u32 <= 0x7f by {
        assert(e[i] as u32 <= 0x7f);
    }
    lemma_ascii_place(u, n);
    lemma_ascii_place(u, last);
    lemma_ascii_place(e, n + 1);
    lemma_ascii_place(e, last);
    assert(e.subrange(n + 1, last) =~= argument);
}

} // verus!
