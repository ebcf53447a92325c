//! What the parts of a CypherQL query are read as.
use vstd::prelude::*;

use crate::parser::ast::SortDirection;
use crate::parser::ast_cypher::RelDirection;
use crate::parser::cypherql_spec::{
    node_at, order_at, path_length_at, properties_in, relationship_at, return_item_at,
};
use crate::parser::cqelsql_spec::fitting;
use crate::parser::grammar::{body, silent, Language, Rule};
use crate::parser::peg::{any_case_at, call, matched, node_over, text, text_at, word, Peg};
use crate::parser::reading_laws::lemma_pair_filter;
use crate::parser::shapes::{
    first_mark, last_mark, lemma_called, lemma_chain, lemma_first_mark, lemma_last_mark, lemma_lay_maybe,
    lemma_no_tops, lemma_behind_gap, plain_tops,
};
use crate::parser::tree::Parsed;
use crate::parser::tree_laws::{
    below, lemma_child_of, lemma_children, lemma_children_of, lemma_match_of, top_rules, well_parsed,
};
use crate::text::{is_number, number_value};

verus! {

/// A node whose rule is one call has one node below it, over the same text.
pub proof fn lemma_same_span(t: Parsed, i: usize, rule: Rule, calls: nat)
    requires
        well_parsed(t),
        i < t.nodes.len(),
        !silent(rule),
        matched(t.language, t.input, call(rule), t.nodes[i as int].start as nat, calls) == Some(
            (t.nodes[i as int].end as nat, below(t, i)),
        ),
    ensures
        t.children(i).len() == 1,
        t.rule(t.children(i)[0]) == rule,
        t.nodes[t.children(i)[0] as int].start == t.nodes[i as int].start,
        t.nodes[t.children(i)[0] as int].end == t.nodes[i as int].end,
{
    let c0 = lemma_match_of(t, i);
    let n = t.nodes[i as int];
    lemma_called(t.language, t.input, rule, n.start as nat, calls);
    lemma_children(t, i);
    let c = t.children(i)[0];
    assert(t.rule(c) == top_rules(below(t, i))[0]);
    let (p, under) = matched(t.language, t.input, body(t.language, rule), n.start as nat, (calls - 1) as nat)->0;
    assert(below(t, i) == node_over(rule, n.start as nat, p, under));
    assert(below(t, i)[0].start == n.start && below(t, i)[0].end == n.end);
    lemma_first_child(t, i);
}

/// The first node below a node comes right behind it.
proof fn lemma_first_child(t: Parsed, i: usize)
    requires
        well_parsed(t),
        i < t.nodes.len(),
        t.nodes[i as int].size > 0,
    ensures
        t.children(i).len() > 0,
        t.children(i)[0] == i + 1,
        below(t, i)[0] == t.nodes[i + 1],
{
    let c0 = lemma_match_of(t, i);
    lemma_children(t, i);
}

/// A relationship points where it is drawn to point: it is incoming where its text
/// begins with the head of an arrow, outgoing where it ends with one, and else
/// undirected.
pub proof fn law_direction_is_as_drawn(t: Parsed, i: usize, start_node: Option<Seq<char>>)
    requires
        well_parsed(t),
        t.language == Language::CypherQl,
        i < t.nodes.len(),
        t.rule(i) == Rule::RelationshipPattern,
    ensures
        t.text(i).len() > 0,
        (relationship_at(t, i, start_node).direction == RelDirection::Incoming) == (t.text(i)[0] == '<'),
        (relationship_at(t, i, start_node).direction == RelDirection::Outgoing) == (t.text(i)[0] == '-' && t.text(
            i,
        ).last() == '>'),
        (relationship_at(t, i, start_node).direction == RelDirection::Undirected) == (t.text(i)[0] == '-' && t.text(
            i,
        ).last() == '-'),
        relationship_at(t, i, start_node).start_node == start_node,
{
    let calls = lemma_match_of(t, i);
    let n = t.nodes[i as int];
    let pos = n.start as nat;
    let a = call(Rule::IncomingRel);
    let b = call(Rule::OutgoingRel);
    let c = call(Rule::UndirectedRel);
    assert(body(t.language, t.rule(i)) == a.or(b).or(c));
    let rule = if matched(t.language, t.input, a, pos, calls) is Some {
        Rule::IncomingRel
    } else if matched(t.language, t.input, b, pos, calls) is Some {
        Rule::OutgoingRel
    } else {
        Rule::UndirectedRel
    };
    assert(matched(t.language, t.input, a.or(b), pos, calls) is Some <==> rule != Rule::UndirectedRel);
    assert(matched(t.language, t.input, call(rule), pos, calls) == Some((n.end as nat, below(t, i))));
    lemma_same_span(t, i, rule, calls);
    lemma_arrow(t, t.children(i)[0]);
    lemma_children(t, i);
    let k = t.children(i)[0];
    let more = lemma_match_of(t, k);
    assert(t.text(i) == t.text(k));
}

/// The ends of an arrow.
proof fn lemma_arrow(t: Parsed, c: usize)
    requires
        well_parsed(t),
        t.language == Language::CypherQl,
        c < t.nodes.len(),
        t.rule(c) == Rule::IncomingRel || t.rule(c) == Rule::OutgoingRel || t.rule(c) == Rule::UndirectedRel,
    ensures
        t.text(c).len() > 0,
        t.rule(c) == Rule::IncomingRel ==> t.text(c)[0] == '<',
        t.rule(c) == Rule::OutgoingRel ==> t.text(c)[0] == '-' && t.text(c).last() == '>',
        t.rule(c) == Rule::UndirectedRel ==> t.text(c)[0] == '-' && t.text(c).last() == '-',
{
    let calls = lemma_match_of(t, c);
    let n = t.nodes[c as int];
    let pos = n.start as nat;
    let e = body(t.language, t.rule(c));
    reveal_with_fuel(first_mark, 8);
    reveal_with_fuel(last_mark, 4);
    lemma_first_mark(t.language, t.input, e, pos, calls);
    lemma_last_mark(t.language, t.input, e, pos, calls);
    reveal_strlit("<");
    reveal_strlit("-");
    reveal_strlit(">");
    let w = if t.rule(c) == Rule::IncomingRel {
        "<"@
    } else {
        "-"@
    };
    let z = if t.rule(c) == Rule::OutgoingRel {
        ">"@
    } else {
        "-"@
    };
    assert(text_at(t.input, pos as int, w));
    assert(text_at(t.input, n.end - 1, z));
    assert(t.input.subrange(pos as int, pos as int + 1)[0] == w[0]);
    assert(t.input.subrange(n.end - 1, n.end as int)[0] == z[0]);
    lemma_not_empty(t, c, calls);
    assert(t.text(c)[0] == t.input[pos as int]);
    assert(t.text(c).last() == t.input[n.end - 1]);
}

/// An arrow has a text.
proof fn lemma_not_empty(t: Parsed, c: usize, calls: nat)
    requires
        well_parsed(t),
        t.language == Language::CypherQl,
        c < t.nodes.len(),
        t.rule(c) == Rule::IncomingRel || t.rule(c) == Rule::OutgoingRel || t.rule(c) == Rule::UndirectedRel,
        matched(t.language, t.input, body(t.language, t.rule(c)), t.nodes[c as int].start as nat, calls) == Some(
            (t.nodes[c as int].end as nat, below(t, c)),
        ),
    ensures
        t.nodes[c as int].start < t.nodes[c as int].end,
{
    let c0 = lemma_match_of(t, c);
    reveal_with_fuel(first_mark, 8);
    lemma_first_is_consumed(
        t.language,
        t.input,
        body(t.language, t.rule(c)),
        t.nodes[c as int].start as nat,
        calls,
    );
    reveal_strlit("<");
    reveal_strlit("-");
}

/// What an expression begins with is consumed.
proof fn lemma_first_is_consumed(language: Language, input: Seq<char>, e: Peg, pos: nat, calls: nat)
    requires
        pos <= input.len() <= usize::MAX,
        matched(language, input, e, pos, calls) is Some,
        (matched(language, input, e, pos, calls)->0).1.len() <= usize::MAX,
    ensures
        first_mark(e) matches Some(Peg::Text(w)) ==> pos + w@.len() <= (matched(language, input, e, pos, calls)->0).0,
    decreases e,
{
    if let Peg::Chain(a, b) = e {
        let (p, first, c, second) = lemma_chain(language, input, *a, *b, pos, calls);
        lemma_first_is_consumed(language, input, *a, pos, calls);
        crate::parser::tree_laws::lemma_match_is_faithful(language, input, *b, p, c);
    }
}

/// What a property is called.
pub open spec fn property_key(t: Parsed, c: usize) -> Seq<char> {
    t.text_or_empty(t.child(c, 0))
}

/// The value of a property that is not written again is read.
pub proof fn law_last_property_counts(t: Parsed, cs: Seq<usize>, j: int)
    requires
        0 <= j < cs.len(),
        forall|k: int| j < k < cs.len() ==> property_key(t, #[trigger] cs[k]) != property_key(t, cs[j]),
    ensures
        properties_in(t, cs).contains_key(property_key(t, cs[j])),
        properties_in(t, cs)[property_key(t, cs[j])] == t.text_or_empty(t.child(cs[j], 1)),
    decreases cs.len(),
{
    let front = cs.drop_last();
    let last = cs.len() - 1;
    assert(cs.last() == cs[last]);
    if j < last {
        assert(property_key(t, cs[last]) != property_key(t, cs[j]));
        assert(front[j] == cs[j]);
        assert forall|k: int| j < k < front.len() implies property_key(t, #[trigger] front[k]) != property_key(
            t,
            front[j],
        ) by {
            assert(front[k] == cs[k]);
        }
        law_last_property_counts(t, front, j);
    }
}

/// A property that is not written is not read.
pub proof fn law_no_other_properties(t: Parsed, cs: Seq<usize>, key: Seq<char>)
    requires
        forall|k: int| 0 <= k < cs.len() ==> property_key(t, #[trigger] cs[k]) != key,
    ensures
        !properties_in(t, cs).contains_key(key),
    decreases cs.len(),
{
    if cs.len() > 0 {
        let front = cs.drop_last();
        assert forall|k: int| 0 <= k < front.len() implies property_key(t, #[trigger] front[k]) != key by {
            assert(front[k] == cs[k]);
        }
        law_no_other_properties(t, front, key);
        assert(cs.last() == cs[cs.len() - 1]);
    }
}

/// A property is read as what is written before its colon, with what is written
/// behind it as its value.
pub proof fn law_property_is_as_written(t: Parsed, i: usize) -> (r: (usize, usize))
    requires
        well_parsed(t),
        t.language == Language::CypherQl,
        i < t.nodes.len(),
        t.rule(i) == Rule::PropertyKeyValue,
    ensures
        i < r.0 && r.0 < r.1 && r.1 < t.nodes.len(),
        t.rule(r.0) == Rule::Identifier,
        t.rule(r.1) == Rule::Expression,
        t.nodes[r.0 as int].end <= t.nodes[r.1 as int].start,
        properties_in(t, seq![i]) == map![
            t.input.subrange(t.nodes[r.0 as int].start as int, t.nodes[r.0 as int].end as int)
            => t.input.subrange(t.nodes[r.1 as int].start as int, t.nodes[r.1 as int].end as int)
        ],
{
    lemma_children(t, i);
    reveal_with_fuel(plain_tops, 10);
    crate::parser::shapes::lemma_shape_plain(t, i);
    let cs = t.children(i);
    let rules = top_rules(below(t, i));
    assert(rules =~= seq![Rule::Identifier, Rule::Expression]);
    assert(t.rule(cs[0]) == rules[0] && t.rule(cs[1]) == rules[1]);
    assert(cs[0] < cs[1]);
    let c0 = lemma_match_of(t, cs[0]);
    let c1 = lemma_match_of(t, cs[1]);
    assert(seq![i].drop_last() =~= Seq::<usize>::empty());
    assert(seq![i].last() == i);
    assert(properties_in(t, seq![i].drop_last()) == Map::<Seq<char>, Seq<char>>::empty());
    (cs[0], cs[1])
}

/// A node has the name that is written in its brackets, if there is one, and the
/// labels that are written behind colons, in that order.
pub proof fn law_node_is_as_written(t: Parsed, i: usize)
    requires
        well_parsed(t),
        t.language == Language::CypherQl,
        i < t.nodes.len(),
        t.rule(i) == Rule::NodePattern,
    ensures
        match node_at(t, i).variable {
            None => forall|k: int|
                0 <= k < t.children(i).len() ==> t.rule(#[trigger] t.children(i)[k]) != Rule::Identifier,
            Some(name) => exists|k: int|
                0 <= k < t.children(i).len() && t.rule(#[trigger] t.children(i)[k]) == Rule::Identifier && name
                    == t.text(t.children(i)[k]),
        },
        match t.child_of(i, Rule::NodeLabels) {
            None => node_at(t, i).labels.len() == 0,
            Some(l) => ({
                let ls = t.children_of(l, Rule::NodeLabel);
                &&& node_at(t, i).labels.len() == ls.len()
                &&& forall|k: int|
                    0 <= k < ls.len() ==> label_behind_colon(t, #[trigger] ls[k], node_at(t, i).labels[k])
            }),
        },
{
    lemma_children(t, i);
    let cs = t.children(i);
    let p = t.has_rule(Rule::Identifier);
    if let Some(name) = node_at(t, i).variable {
        crate::listing::lemma_filter_member(cs, p, 0);
        let k = choose|k: int| 0 <= k < cs.len() && cs[k] == cs.filter(p)[0];
        assert(t.rule(cs[k]) == Rule::Identifier);
    } else {
        assert forall|k: int| 0 <= k < cs.len() implies t.rule(#[trigger] cs[k]) != Rule::Identifier by {
            if t.rule(cs[k]) == Rule::Identifier {
                crate::listing::lemma_filter_keeps(cs, p, cs[k]);
            }
        }
    }
    lemma_child_of(t, i, Rule::NodeLabels);
    if let Some(l) = t.child_of(i, Rule::NodeLabels) {
        lemma_children_of(t, l, Rule::NodeLabel);
        let ls = t.children_of(l, Rule::NodeLabel);
        assert forall|k: int| 0 <= k < ls.len() implies label_behind_colon(
            t,
            #[trigger] ls[k],
            node_at(t, i).labels[k],
        ) by {
            lemma_label(t, ls[k]);
            assert(node_at(t, i).labels[k] == t.text_or_empty(t.child_of(ls[k], Rule::Identifier)));
        }
    }
}

/// The label stands behind the colon of a node.
pub open spec fn label_behind_colon(t: Parsed, i: usize, label: Seq<char>) -> bool {
    exists|c: usize|
        i < c && c < t.nodes.len() && #[trigger] t.rule(c) == Rule::Identifier && t.nodes[i as int].start
            <= t.nodes[c as int].start && t.nodes[c as int].end <= t.nodes[i as int].end && label
            == t.input.subrange(t.nodes[c as int].start as int, t.nodes[c as int].end as int) && text_at(
            t.input,
            t.nodes[i as int].start as int,
            ":"@,
        )
}

proof fn lemma_label(t: Parsed, i: usize)
    requires
        well_parsed(t),
        t.language == Language::CypherQl,
        i < t.nodes.len(),
        t.rule(i) == Rule::NodeLabel,
    ensures
        label_behind_colon(t, i, t.text_or_empty(t.child_of(i, Rule::Identifier))),
{
    let calls = lemma_match_of(t, i);
    lemma_children(t, i);
    reveal_with_fuel(plain_tops, 8);
    reveal_with_fuel(first_mark, 8);
    crate::parser::shapes::lemma_shape_plain(t, i);
    lemma_first_mark(t.language, t.input, body(t.language, t.rule(i)), t.nodes[i as int].start as nat, calls);
    let cs = t.children(i);
    let rules = top_rules(below(t, i));
    assert(rules =~= seq![Rule::Identifier]);
    assert(t.rule(cs[0]) == rules[0]);
    assert(cs =~= seq![cs[0]]);
    lemma_pair_filter(cs[0], cs[0], t.has_rule(Rule::Identifier));
    let c0 = lemma_match_of(t, cs[0]);
}

/// What stands below an item and perhaps behind it.
proof fn lemma_item_parts(t: Parsed, i: usize, a: Peg, b: Peg, x: Rule, y: Rule, calls: nat)
    requires
        well_parsed(t),
        i < t.nodes.len(),
        !silent(x) && !silent(y),
        matched(t.language, t.input, call(x).or(call(y)).lay_maybe(b), t.nodes[i as int].start as nat, calls) == Some(
            (t.nodes[i as int].end as nat, below(t, i)),
        ),
        plain_tops(b) is Some,
    ensures
        t.children(i).len() >= 1,
        t.rule(t.children(i)[0]) == x || t.rule(t.children(i)[0]) == y,
        t.children(i).len() == 1 || top_rules(below(t, i)) == seq![t.rule(t.children(i)[0])] + plain_tops(b)->0,
{
    let c0 = lemma_match_of(t, i);
    lemma_children(t, i);
    let pos = t.nodes[i as int].start as nat;
    let e = call(x).or(call(y));
    let (p, first, second) = lemma_lay_maybe(t.language, t.input, e, b, pos, calls);
    if matched(t.language, t.input, call(x), pos, calls) is Some {
        lemma_called(t.language, t.input, x, pos, calls);
    } else {
        lemma_called(t.language, t.input, y, pos, calls);
    }
    let rules = top_rules(below(t, i));
    assert(rules == top_rules(first) + top_rules(second));
    assert(t.rule(t.children(i)[0]) == rules[0]);
    assert(top_rules(first) =~= seq![rules[0]]);
}

/// An item of a RETURN clause is the expression that is written first. Its alias
/// is what is written behind AS, if anything is.
pub proof fn law_return_item_is_as_written(t: Parsed, i: usize)
    requires
        well_parsed(t),
        t.language == Language::CypherQl,
        i < t.nodes.len(),
        t.rule(i) == Rule::ReturnItem,
    ensures
        1 <= t.children(i).len() <= 2,
        ({
            let cs = t.children(i);
            let r = return_item_at(t, i);
            &&& t.rule(cs[0]) == Rule::Expression || t.rule(cs[0]) == Rule::Star
            &&& r.expression == t.text(cs[0])
            &&& cs.len() == 1 ==> r.alias is None
            &&& cs.len() == 2 ==> t.rule(cs[1]) == Rule::Identifier && t.nodes[cs[0] as int].end
                <= t.nodes[cs[1] as int].start && r.alias == Some(t.text(cs[1]))
            &&& !r.distinct
        }),
{
    let calls = lemma_match_of(t, i);
    lemma_children(t, i);
    reveal_with_fuel(plain_tops, 8);
    let b = word("AS").lay(call(Rule::Identifier));
    let e = call(Rule::Expression).or(call(Rule::Star)).lay_maybe(b);
    assert(body(t.language, t.rule(i)) == e);
    assert(plain_tops(b)->0 =~= seq![Rule::Identifier]);
    lemma_item_parts(t, i, e, b, Rule::Expression, Rule::Star, calls);
    let cs = t.children(i);
    if cs.len() > 1 {
        assert(t.rule(cs[1]) == top_rules(below(t, i))[1]);
        assert(cs[0] < cs[1]);
    }
}

/// What stands below a sort condition.
proof fn lemma_order_parts(t: Parsed, i: usize)
    requires
        well_parsed(t),
        t.language == Language::CypherQl,
        i < t.nodes.len(),
        t.rule(i) == Rule::OrderItem,
    ensures
        1 <= t.children(i).len() <= 2,
        t.rule(t.children(i)[0]) == Rule::Expression,
        t.children(i).len() == 2 ==> t.rule(t.children(i)[1]) == Rule::AscKw || t.rule(t.children(i)[1])
            == Rule::DescKw,
        t.children(i).len() == 2 ==> t.nodes[t.children(i)[0] as int].end <= t.nodes[t.children(i)[1] as int].start
            && t.children(i)[1] < t.nodes.len(),
{
    let calls = lemma_match_of(t, i);
    lemma_children(t, i);
    let pos = t.nodes[i as int].start as nat;
    let asc = call(Rule::AscKw);
    let desc = call(Rule::DescKw);
    let inner = Peg::Gap.chain(asc.or(desc));
    let e = call(Rule::Expression).lay_maybe(asc.or(desc));
    assert(body(t.language, t.rule(i)) == e);
    let (p, first, c, second) = lemma_chain(
        t.language,
        t.input,
        call(Rule::Expression),
        inner.maybe(),
        pos,
        calls,
    );
    lemma_called(t.language, t.input, Rule::Expression, pos, calls);
    let cs = t.children(i);
    let rules = top_rules(below(t, i));
    assert(matched(t.language, t.input, inner.maybe(), p, c) is Some);
    if matched(t.language, t.input, inner, p, c) is Some {
        let (at, d) = lemma_behind_gap(t.language, t.input, asc.or(desc), p, c);
        if matched(t.language, t.input, asc, at, d) is Some {
            lemma_called(t.language, t.input, Rule::AscKw, at, d);
        } else {
            lemma_called(t.language, t.input, Rule::DescKw, at, d);
        }
    } else {
        lemma_no_tops(second);
    }
    assert(t.rule(cs[0]) == rules[0]);
    if cs.len() == 2 {
        assert(t.rule(cs[1]) == rules[1]);
        assert(cs[0] < cs[1]);
    }
}

/// The word that a keyword was matched from.
pub proof fn lemma_keyword(t: Parsed, c: usize)
    requires
        well_parsed(t),
        c < t.nodes.len(),
    ensures
        t.rule(c) == Rule::AscKw ==> any_case_at(t.input, t.nodes[c as int].start as int, "ASC"@),
        t.rule(c) == Rule::DescKw ==> any_case_at(t.input, t.nodes[c as int].start as int, "DESC"@),
{
    let calls = lemma_match_of(t, c);
    lemma_first_mark(t.language, t.input, body(t.language, t.rule(c)), t.nodes[c as int].start as nat, calls);
}

/// A sort condition is the expression that is written first, and descending
/// exactly where DESC is written behind it.
pub proof fn law_order_item_is_as_written(t: Parsed, i: usize)
    requires
        well_parsed(t),
        t.language == Language::CypherQl,
        i < t.nodes.len(),
        t.rule(i) == Rule::OrderItem,
    ensures
        1 <= t.children(i).len() <= 2,
        ({
            let cs = t.children(i);
            let o = order_at(t, i);
            &&& t.rule(cs[0]) == Rule::Expression
            &&& o.expression == t.text(cs[0])
            &&& cs.len() == 1 ==> o.direction == SortDirection::Ascending
            &&& cs.len() == 2 ==> t.nodes[cs[0] as int].end <= t.nodes[cs[1] as int].start && (if o.direction
                == SortDirection::Descending {
                any_case_at(t.input, t.nodes[cs[1] as int].start as int, "DESC"@)
            } else {
                any_case_at(t.input, t.nodes[cs[1] as int].start as int, "ASC"@)
            })
        }),
{
    lemma_order_parts(t, i);
    let cs = t.children(i);
    if cs.len() == 2 {
        assert(cs =~= seq![cs[0], cs[1]]);
        lemma_pair_filter(cs[0], cs[1], t.has_rule(Rule::Expression));
        lemma_pair_filter(cs[0], cs[1], t.has_rule(Rule::DescKw));
        lemma_not_either(cs[0], cs[1], t.has_rule(Rule::DescKw));
        lemma_keyword(t, cs[1]);
    } else {
        assert(cs =~= seq![cs[0]]);
        lemma_pair_filter(cs[0], cs[0], t.has_rule(Rule::Expression));
        lemma_pair_filter(cs[0], cs[0], t.has_rule(Rule::DescKw));
    }
}

pub proof fn lemma_not_either<A>(a: A, b: A, p: spec_fn(A) -> bool)
    ensures
        !p(a) && !p(b) ==> seq![a, b].filter(p) == Seq::<A>::empty(),
{
    reveal(Seq::filter);
    lemma_pair_filter(a, a, p);
    assert(seq![a, b].drop_last() =~= seq![a]);
    assert(seq![a, b].last() == b);
}

/// The bounds of a path: two numbers are the least and the greatest length, in
/// that order; one number without dots is both; a number behind dots is the
/// greatest length, and a number before them the least.
pub proof fn law_path_length_is_as_written(t: Parsed, i: usize)
    ensures
        ({
            let ns = fitting(t, t.children_of(i, Rule::Integer));
            let dots = exists|p: int|
                0 <= p <= t.text(i).len() && #[trigger] text_at(t.text(i), p, ".."@);
            let bounds = path_length_at(t, i);
            &&& ns.len() == 0 ==> bounds.min_length is None && bounds.max_length is None
            &&& ns.len() == 2 ==> bounds.min_length == Some(ns[0]) && bounds.max_length == Some(ns[1])
            &&& ns.len() == 1 && !dots ==> bounds.min_length == Some(ns[0]) && bounds.max_length == Some(ns[0])
            &&& ns.len() == 1 && dots && t.text(i).len() > 2 && t.text(i)[1] == '.' && t.text(i)[2] == '.' && t.text(
                i,
            )[0] == '*' ==> bounds.min_length is None && bounds.max_length == Some(ns[0])
            &&& ns.len() == 1 && dots && t.text(i).len() > 2 && '0' <= t.text(i)[1] && t.text(i)[1] <= '9'
                ==> bounds.min_length == Some(ns[0]) && bounds.max_length is None
        }),
{
    reveal_strlit("*..");
    reveal_strlit("* ..");
    let s = t.text(i);
    if s.len() > 2 && s[0] == '*' && s[1] == '.' && s[2] == '.' {
        assert(s.subrange(0, 3) =~= "*.."@);
        assert(text_at(s, 0, "*.."@));
    }
    if s.len() > 2 && '0' <= s[1] && s[1] <= '9' {
        if text_at(s, 0, "*.."@) {
            assert(s.subrange(0, 3)[1] == s[1]);
        }
        if text_at(s, 0, "* .."@) {
            assert(s.subrange(0, 4)[1] == s[1]);
        }
    }
}

/// The numbers below a node are those of its digits, in order, where they all fit.
pub proof fn law_fitting_numbers_are_read(t: Parsed, cs: Seq<usize>)
    requires
        forall|k: int|
            0 <= k < cs.len() ==> is_number(t.text(#[trigger] cs[k])) && number_value(t.text(cs[k])) <= u32::MAX,
    ensures
        fitting(t, cs).len() == cs.len(),
        forall|k: int| 0 <= k < cs.len() ==> fitting(t, cs)[k] == number_value(t.text(#[trigger] cs[k])),
    decreases cs.len(),
{
    if cs.len() > 0 {
        let front = cs.drop_last();
        assert(forall|k: int| 0 <= k < front.len() ==> #[trigger] front[k] == cs[k]);
        law_fitting_numbers_are_read(t, front);
        assert(cs.last() == cs[cs.len() - 1]);
        assert forall|k: int| 0 <= k < cs.len() implies fitting(t, cs)[k] == number_value(t.text(#[trigger] cs[k])) by {
            if k < front.len() {
                assert(front[k] == cs[k]);
                assert(fitting(t, cs)[k] == fitting(t, front)[k]);
            }
        }
    }
}

} // verus!
