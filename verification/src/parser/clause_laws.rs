//! What the parts of a query leave in it, and in what order.
use vstd::prelude::*;

use crate::parser::ast::{CqelsQueryType, CqelsQueryView, GroupView, SelectView};
use crate::parser::ast_cypher::CypherQueryView;
use crate::parser::cqelsql_spec::{
    ask_at, ask_step, construct_at, construct_step, describe_at, describe_step, from_clause_step, from_clauses_at,
    group_step, hoisted, implicitly_bound, order_at, order_step, prefix_at, query_step, register_at, select_at,
    select_element_step, select_step, sequence_arg_at, sequence_args, sequence_at, top_groups_at, triples_in,
    where_at,
};
use crate::parser::cypher_laws::lemma_led_keeps;
use crate::parser::cypherql_spec::{
    clause_step, continuous_at, from_clause_step as cypher_from_step, match_step, order_at as cypher_order_at,
    order_step as cypher_order_step, pattern_group_at, register_at as cypher_register_at, return_item_at,
    return_item_step, return_step,
};
use crate::parser::error::ErrorView;
use crate::parser::grammar::Rule;
use crate::parser::tree::{collected, led, Parsed};

verus! {

/// Where all of some nodes have a result, these are listed in their order; else
/// the error is that of the first that has none.
pub proof fn law_results_are_collected_in_order<V>(cs: Seq<usize>, f: spec_fn(usize) -> Result<V, ErrorView>)
    ensures
        match collected(cs, f) {
            Ok(s) => s.len() == cs.len() && forall|k: int|
                0 <= k < cs.len() ==> f(#[trigger] cs[k]) is Ok && f(cs[k])->Ok_0 == s[k],
            Err(e) => exists|k: int|
                0 <= k < cs.len() && f(#[trigger] cs[k]) is Err && f(cs[k])->Err_0 == e && forall|j: int|
                    0 <= j < k ==> f(#[trigger] cs[j]) is Ok,
        },
    decreases cs.len(),
{
    if cs.len() > 0 {
        let front = cs.drop_last();
        let n = front.len() as int;
        law_results_are_collected_in_order(front, f);
        assert(forall|k: int| 0 <= k < n ==> front[k] == #[trigger] cs[k]);
        match collected(front, f) {
            Ok(s) => {
                assert(forall|k: int| 0 <= k < n ==> f(#[trigger] front[k]) is Ok);
                assert forall|j: int| 0 <= j < n implies f(#[trigger] cs[j]) is Ok by {
                    assert(front[j] == cs[j]);
                }
                assert(cs[n] == cs.last());
            },
            Err(e) => {
                let k = choose|k: int|
                    0 <= k < n && f(#[trigger] front[k]) is Err && f(front[k])->Err_0 == e && forall|j: int|
                        0 <= j < k ==> f(#[trigger] front[j]) is Ok;
                assert(f(cs[k]) is Err);
                assert forall|j: int| 0 <= j < k implies f(#[trigger] cs[j]) is Ok by {
                    assert(f(front[j]) is Ok);
                }
            },
        }
    }
}

/// A state is led from node to node: each step begins where the one before it
/// ended, and an error ends it.
pub proof fn law_state_is_led_from_node_to_node<Q>(
    cs: Seq<usize>,
    c: usize,
    q: Q,
    step: spec_fn(Q, usize) -> Result<Q, ErrorView>,
)
    ensures
        led(Seq::empty(), q, step) == Ok::<Q, ErrorView>(q),
        match led(cs, q, step) {
            Ok(m) => led(cs.push(c), q, step) == step(m, c),
            Err(e) => led(cs.push(c), q, step) == Err::<Q, ErrorView>(e),
        },
{
    assert(cs.push(c).drop_last() =~= cs);
}

/// Queries of a name and a kind.
pub open spec fn known_as(name: Option<Seq<char>>, kind: CqelsQueryType) -> spec_fn(CqelsQueryView) -> bool {
    |m: CqelsQueryView| m.name == name && m.query_type == kind
}

proof fn lemma_from_keeps(t: Parsed, i: usize, q: CqelsQueryView)
    ensures
        from_clauses_at(t, i, q) matches Ok(r) ==> known_as(q.name, q.query_type)(r),
{
    lemma_led_keeps(t.children_of(i, Rule::FromClause), q, from_clause_step(t), known_as(q.name, q.query_type));
}

proof fn lemma_hoisted_keeps(groups: Seq<GroupView>, q: CqelsQueryView)
    ensures
        known_as(q.name, q.query_type)(hoisted(groups, q)),
    decreases groups.len(),
{
    if groups.len() > 0 {
        lemma_hoisted_keeps(groups.drop_last(), q);
    }
}

proof fn lemma_where_keeps(t: Parsed, i: usize, q: CqelsQueryView)
    ensures
        where_at(t, i, q) matches Ok(r) ==> known_as(q.name, q.query_type)(r),
{
    if let Ok(groups) = led(t.children_of(i, Rule::PatternGroup), Seq::empty(), group_step(t)) {
        lemma_hoisted_keeps(implicitly_bound(groups, q), q);
    }
}

proof fn lemma_select_keeps(t: Parsed, q: CqelsQueryView, c: usize)
    ensures
        select_step(t)(q, c) matches Ok(r) ==> known_as(q.name, q.query_type)(r),
{
    let inv = known_as(q.name, q.query_type);
    lemma_led_keeps(t.children(c), q, select_element_step(t), inv);
    lemma_from_keeps(t, c, q);
    lemma_where_keeps(t, c, q);
    lemma_led_keeps(t.children_of(c, Rule::OrderCondition), q, order_step(t), inv);
}

proof fn lemma_others_keep(t: Parsed, q: CqelsQueryView, c: usize)
    ensures
        construct_step(t)(q, c) matches Ok(r) ==> known_as(q.name, q.query_type)(r),
        ask_step(t)(q, c) matches Ok(r) ==> known_as(q.name, q.query_type)(r),
        describe_step(t)(q, c) matches Ok(r) ==> known_as(q.name, q.query_type)(r),
{
    lemma_from_keeps(t, c, q);
    lemma_where_keeps(t, c, q);
}

/// A query is of the kind that its node says, and has the name that it had.
pub proof fn law_query_is_of_its_kind(t: Parsed, i: usize, q: CqelsQueryView)
    ensures
        select_at(t, i, q) matches Ok(r) ==> r.query_type == CqelsQueryType::Select && r.name == q.name,
        construct_at(t, i, q) matches Ok(r) ==> r.query_type == CqelsQueryType::Construct && r.name == q.name,
        ask_at(t, i, q) matches Ok(r) ==> r.query_type == CqelsQueryType::Ask && r.name == q.name,
        describe_at(t, i, q) matches Ok(r) ==> r.query_type == CqelsQueryType::Describe && r.name == q.name,
{
    let cs = t.children(i);
    lemma_kind(t, cs, q, CqelsQueryType::Select, select_step(t));
    lemma_kind(t, cs, q, CqelsQueryType::Construct, construct_step(t));
    lemma_kind(t, cs, q, CqelsQueryType::Ask, ask_step(t));
    lemma_kind(t, cs, q, CqelsQueryType::Describe, describe_step(t));
}

proof fn lemma_kind(
    t: Parsed,
    cs: Seq<usize>,
    q: CqelsQueryView,
    kind: CqelsQueryType,
    step: spec_fn(CqelsQueryView, usize) -> Result<CqelsQueryView, ErrorView>,
)
    requires
        step == select_step(t) || step == construct_step(t) || step == ask_step(t) || step == describe_step(t),
    ensures
        led(cs, CqelsQueryView { query_type: kind, ..q }, step) matches Ok(r) ==> r.query_type == kind && r.name
            == q.name,
{
    let inv = known_as(q.name, kind);
    assert forall|m: CqelsQueryView, k: int| 0 <= k < cs.len() && inv(m) && (#[trigger] step(m, cs[k])) is Ok implies inv(
        step(m, cs[k])->Ok_0,
    ) by {
        lemma_select_keeps(t, m, cs[k]);
        lemma_others_keep(t, m, cs[k]);
    }
    lemma_led_keeps(cs, CqelsQueryView { query_type: kind, ..q }, step, inv);
}

/// A registered query has the name that is written, and is the query behind it.
pub proof fn law_registered_query_has_its_name(t: Parsed, i: usize, q: CqelsQueryView)
    requires
        t.children(i).len() >= 2,
    ensures
        register_at(t, i, q) matches Ok(r) ==> r.name == Some(t.text(t.children(i)[0])) && r.query_type
            == CqelsQueryType::Select,
{
    let named = CqelsQueryView { name: Some(t.text(t.children(i)[0])), ..q };
    law_query_is_of_its_kind(t, t.children(i)[1], named);
}

/// Each part of a query adds what it says: a prefix its namespace, a template its
/// triples, DESCRIBE its variables, DISTINCT that it stands there, ORDER BY its
/// conditions in their order.
pub proof fn law_parts_are_taken_up(t: Parsed, c: usize, q: CqelsQueryView)
    ensures
        t.rule(c) == Rule::PrefixDecl ==> match prefix_at(t, c) {
            Ok((prefix, uri)) => query_step(t)(q, c) matches Ok(r) && r.prefixes.contains_key(prefix)
                && r.prefixes[prefix] == uri && forall|p: Seq<char>|
                p != prefix ==> #[trigger] r.prefixes.contains_key(p) == q.prefixes.contains_key(p) && r.prefixes[p]
                    == q.prefixes[p],
            Err(e) => query_step(t)(q, c) == Err::<CqelsQueryView, ErrorView>(e),
        },
        t.rule(c) == Rule::ConstructTemplate ==> (construct_step(t)(q, c) matches Ok(r) && r.construct_template
            == q.construct_template + triples_in(t, c) && r.pattern_groups == q.pattern_groups),
        t.rule(c) == Rule::DescribeTarget ==> (describe_step(t)(q, c) matches Ok(r) && r.select_elements.len()
            == q.select_elements.len() + t.children_of(c, Rule::Variable).len() && forall|k: int|
            0 <= k < t.children_of(c, Rule::Variable).len() ==> r.select_elements[q.select_elements.len() + k]
                == SelectView::Variable(t.text(#[trigger] t.children_of(c, Rule::Variable)[k]))),
        t.rule(c) == Rule::DistinctKw ==> (select_element_step(t)(q, c) matches Ok(r) && r.distinct
            && r.select_elements == q.select_elements),
        t.rule(c) == Rule::SelectElement ==> (select_element_step(t)(q, c) matches Ok(r) && r.distinct == q.distinct),
        order_step(t)(q, c) matches Ok(r) && r.order_by_conditions == q.order_by_conditions.push(order_at(t, c)),
{
}

/// The groups of a pattern come behind those of the patterns before it.
pub proof fn law_groups_are_added_behind(t: Parsed, groups: Seq<GroupView>, c: usize)
    ensures
        match top_groups_at(t, c) {
            Ok(more) => group_step(t)(groups, c) == Ok::<Seq<GroupView>, ErrorView>(groups + more),
            Err(e) => group_step(t)(groups, c) == Err::<Seq<GroupView>, ErrorView>(e),
        },
{
}

/// A sequence is read exactly if it has two events or more and each can be read;
/// its events are then in the order in which they are written.
pub proof fn law_sequence_lists_its_events(t: Parsed, i: usize)
    ensures
        ({
            let cs = t.children_of(i, Rule::SeqArg);
            &&& sequence_at(t, i) is Ok <==> cs.len() >= 2 && forall|k: int|
                0 <= k < cs.len() ==> sequence_arg_at(t, #[trigger] cs[k]) is Ok
            &&& sequence_at(t, i) matches Ok(s) ==> s.len() == cs.len() && forall|k: int|
                0 <= k < cs.len() ==> s[k] == sequence_arg_at(t, #[trigger] cs[k])->Ok_0
        }),
{
    let cs = t.children_of(i, Rule::SeqArg);
    let f = sequence_args(t);
    law_results_are_collected_in_order(cs, f);
    match collected(cs, f) {
        Ok(s) => {
            assert forall|k: int| 0 <= k < cs.len() implies sequence_arg_at(t, #[trigger] cs[k]) is Ok
                && sequence_arg_at(t, cs[k])->Ok_0 == s[k] by {
                assert(f(cs[k]) is Ok);
            }
        },
        Err(e) => {
            let k = choose|k: int| 0 <= k < cs.len() && f(#[trigger] cs[k]) is Err;
            assert(sequence_arg_at(t, cs[k]) is Err);
        },
    }
}

/// Each clause of a CypherQL query adds what it says: MATCH its groups, WHERE its
/// expression, RETURN its items and DISTINCT, ORDER BY its conditions.
pub proof fn law_cypher_clauses_are_taken_up(t: Parsed, c: usize, q: CypherQueryView)
    ensures
        match pattern_group_at(t, c) {
            Ok(g) => match_step(t)(q, c) matches Ok(r) && r.pattern_groups == q.pattern_groups.push(g),
            Err(e) => match_step(t)(q, c) == Err::<CypherQueryView, ErrorView>(e),
        },
        t.rule(c) == Rule::WhereClause && t.children(c).len() > 0 ==> (clause_step(t)(q, c) matches Ok(r)
            && r.where_expression == Some(t.text(t.children(c)[0])) && r.having_filters == q.having_filters),
        t.rule(c) == Rule::DistinctKw ==> (return_step(t)(q, c) matches Ok(r) && r.distinct && r.return_expressions
            == q.return_expressions),
        return_item_step(t)(q, c) matches Ok(r) && r.return_expressions == q.return_expressions.push(
            return_item_at(t, c),
        ) && r.distinct == q.distinct,
        cypher_order_step(t)(q, c) matches Ok(r) && r.order_by_conditions == q.order_by_conditions.push(
            cypher_order_at(t, c),
        ),
{
}

/// Queries of a name.
pub open spec fn called(name: Option<Seq<char>>) -> spec_fn(CypherQueryView) -> bool {
    |m: CypherQueryView| m.name == name
}

/// A registered CypherQL query has the name that is written.
pub proof fn law_registered_cypher_query_has_its_name(t: Parsed, i: usize, q: CypherQueryView)
    requires
        t.children(i).len() > 0,
    ensures
        cypher_register_at(t, i, q) matches Ok(r) ==> r.name == Some(t.text(t.children(i)[0])),
{
    let name = Some(t.text(t.children(i)[0]));
    let named = CypherQueryView { name, ..q };
    if t.children(i).len() > 1 {
        let cs = t.children(t.children(i)[1]);
        let inv = called(name);
        let step = clause_step(t);
        assert forall|m: CypherQueryView, k: int| 0 <= k < cs.len() && inv(m) && (#[trigger] step(
            m,
            cs[k],
        )) is Ok implies inv(step(m, cs[k])->Ok_0) by {
            let c = cs[k];
            lemma_led_keeps(t.children_of(c, Rule::FromClause), m, cypher_from_step(t), inv);
            lemma_led_keeps(t.children_of(c, Rule::PatternGroup), m, match_step(t), inv);
            assert forall|n: CypherQueryView, j: int| 0 <= j < t.children(c).len() && inv(n) && (#[trigger] return_step(
                t,
            )(n, t.children(c)[j])) is Ok implies inv(return_step(t)(n, t.children(c)[j])->Ok_0) by {
                lemma_led_keeps(
                    t.children_of(t.children(c)[j], Rule::ReturnItem),
                    n,
                    return_item_step(t),
                    inv,
                );
            }
            lemma_led_keeps(t.children(c), m, return_step(t), inv);
            lemma_led_keeps(t.children_of(c, Rule::OrderItem), m, cypher_order_step(t), inv);
        }
        lemma_led_keeps(cs, named, step, inv);
        assert(continuous_at(t, t.children(i)[1], named) == led(cs, named, step));
    }
}

} // verus!
