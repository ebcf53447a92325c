//! What holds of every CypherQL query that is read.
use vstd::prelude::*;

use crate::parser::ast_cypher::{CypherPatternView, CypherQueryView, PatternGroupView};
use crate::parser::cypherql_spec::{
    chain_in, clause_step, continuous_at, cypher_parsed, element_at, elements_in, from_clause_step, match_step,
    no_pattern, node_at, order_step, pattern_group_at, pattern_part_at, pattern_parts, patterns_in, patterns_of,
    query_step, relationship_at, return_item_step, return_step,
};
use crate::parser::error::ErrorView;
use crate::parser::grammar::{Language, Rule};
use crate::parser::peg::parsed;
use crate::parser::shapes::{
    lemma_shape_of_named_part, lemma_shape_of_part, lemma_shape_of_path, lemma_shape_of_step,
};
use crate::parser::tree::{collected, led, Parsed};
use crate::parser::tree_laws::{
    below, law_parsed_nodes_stand_for_matches, lemma_children, lemma_child_of, lemma_children_of, top_rules,
    well_parsed,
};

verus! {

/// There is one node more than there are relationships, and the relationship at a
/// place starts at the node of that place and ends at the one behind it.
pub open spec fn linked(p: CypherPatternView) -> bool {
    &&& p.nodes.len() == p.relationships.len() + 1
    &&& forall|k: int|
        0 <= k < p.relationships.len() ==> (#[trigger] p.relationships[k]).start_node == p.nodes[k].variable
            && p.relationships[k].end_node == p.nodes[k + 1].variable
}

pub open spec fn all_linked(patterns: Seq<CypherPatternView>) -> bool {
    forall|k: int| 0 <= k < patterns.len() ==> linked(#[trigger] patterns[k])
}

pub open spec fn groups_linked(groups: Seq<PatternGroupView>) -> bool {
    forall|g: int| 0 <= g < groups.len() ==> all_linked((#[trigger] groups[g]).patterns)
}

/// One more step of a path.
proof fn lemma_step_links(t: Parsed, c: usize, p: CypherPatternView)
    requires
        well_parsed(t),
        t.language == Language::CypherQl,
        c < t.nodes.len(),
        t.rule(c) == Rule::PatternElementChain,
        linked(p),
    ensures
        linked(chain_in(t, t.children(c), p)),
{
    lemma_children(t, c);
    lemma_shape_of_step(t, c);
    let cs = t.children(c);
    assert(cs.len() == 2);
    let r = cs[0];
    let n = cs[1];
    assert(t.rule(r) == top_rules(below(t, c))[0]);
    assert(t.rule(n) == top_rules(below(t, c))[1]);
    let one = cs.drop_last();
    let none = one.drop_last();
    assert(none.len() == 0);
    assert(one.last() == r);
    assert(chain_in(t, none, p) == p);
    let half = chain_in(t, one, p);
    let rel = relationship_at(t, r, p.nodes.last().variable);
    assert(half.nodes == p.nodes);
    assert(half.relationships == p.relationships.push(rel));
    assert(rel.start_node == p.nodes.last().variable);
    let whole = chain_in(t, cs, p);
    assert(whole.nodes == p.nodes.push(node_at(t, n)));
    assert forall|k: int| 0 <= k < whole.relationships.len() implies (#[trigger] whole.relationships[k]).start_node
        == whole.nodes[k].variable && whole.relationships[k].end_node == whole.nodes[k + 1].variable by {
        if k < p.relationships.len() {
            assert(whole.relationships[k] == p.relationships[k]);
        }
    }
}

proof fn lemma_steps_link(t: Parsed, i: usize, k: int)
    requires
        well_parsed(t),
        t.language == Language::CypherQl,
        i < t.nodes.len(),
        1 <= k <= t.children(i).len(),
        forall|j: int| 0 <= j < t.children(i).len() ==> #[trigger] t.children(i)[j] < t.nodes.len(),
        t.rule(t.children(i)[0]) == Rule::NodePattern,
        forall|j: int|
            1 <= j < t.children(i).len() ==> t.rule(#[trigger] t.children(i)[j]) == Rule::PatternElementChain,
    ensures
        linked(elements_in(t, i, t.children(i).take(k), no_pattern())),
    decreases k,
{
    let cs = t.children(i);
    let some = cs.take(k);
    assert(some.last() == cs[k - 1]);
    assert(some.drop_last() =~= cs.take(k - 1));
    if k == 1 {
        assert(elements_in(t, i, cs.take(0), no_pattern()) == no_pattern());
    } else {
        lemma_steps_link(t, i, k - 1);
        lemma_step_links(t, cs[k - 1], elements_in(t, i, cs.take(k - 1), no_pattern()));
    }
}

/// A path is linked.
proof fn lemma_path_is_linked(t: Parsed, i: usize)
    requires
        well_parsed(t),
        t.language == Language::CypherQl,
        i < t.nodes.len(),
        t.rule(i) == Rule::PatternElement,
    ensures
        linked(element_at(t, i, no_pattern())),
    decreases t.nodes.len() - i,
{
    lemma_children(t, i);
    let steps = lemma_shape_of_path(t, i);
    let cs = t.children(i);
    let rules = top_rules(below(t, i));
    assert(cs.len() == rules.len());
    assert(t.rule(cs[0]) == rules[0]);
    assert(cs.take(cs.len() as int) =~= cs);
    if rules == seq![Rule::PatternElement] {
        assert(cs.drop_last() =~= Seq::<usize>::empty());
        assert(elements_in(t, i, cs.drop_last(), no_pattern()) == no_pattern());
        let c = cs[0];
        assert(cs.last() == c);
        lemma_path_is_linked(t, c);
        assert(elements_in(t, i, cs, no_pattern()) == element_at(t, c, no_pattern()));
    } else {
        assert forall|j: int| 1 <= j < cs.len() implies t.rule(#[trigger] cs[j]) == Rule::PatternElementChain by {
            assert(t.rule(cs[j]) == rules[j]);
            assert(rules[j] == steps[j - 1]);
        }
        lemma_steps_link(t, i, cs.len() as int);
    }
}

proof fn lemma_part_is_linked(t: Parsed, i: usize)
    requires
        well_parsed(t),
        t.language == Language::CypherQl,
        i < t.nodes.len(),
        t.rule(i) == Rule::PatternPart,
    ensures
        pattern_part_at(t, i) is Ok,
        linked(pattern_part_at(t, i)->Ok_0),
{
    lemma_shape_of_named_part(t, i);
    lemma_child_of(t, i, Rule::AnonymousPatternPart);
    let a = t.child_of(i, Rule::AnonymousPatternPart)->0;
    lemma_children(t, a);
    lemma_shape_of_part(t, a);
    assert(t.children(a).len() == 1);
    let e = t.children(a)[0];
    assert(t.rule(e) == top_rules(below(t, a))[0]);
    lemma_path_is_linked(t, e);
}

proof fn lemma_collected_all<V>(cs: Seq<usize>, f: spec_fn(usize) -> Result<V, ErrorView>, k: int)
    requires
        collected(cs, f) is Ok,
        0 <= k < cs.len(),
    ensures
        (collected(cs, f)->Ok_0).len() == cs.len(),
        f(cs[k]) == Ok::<V, ErrorView>((collected(cs, f)->Ok_0)[k]),
    decreases cs.len(),
{
    let front = cs.drop_last();
    if k < front.len() {
        lemma_collected_all(front, f, k);
    } else if front.len() > 0 {
        lemma_collected_all(front, f, 0);
    }
}

proof fn lemma_patterns_are_linked(t: Parsed, i: usize)
    requires
        well_parsed(t),
        t.language == Language::CypherQl,
        i < t.nodes.len(),
    ensures
        patterns_of(t, i) is Ok ==> all_linked(patterns_of(t, i)->Ok_0),
        patterns_in(t, i) is Ok ==> all_linked(patterns_in(t, i)->Ok_0),
{
    lemma_parts_are_linked(t, i);
    lemma_child_of(t, i, Rule::Pattern);
    if let Some(p) = t.child_of(i, Rule::Pattern) {
        lemma_parts_are_linked(t, p);
    }
}

proof fn lemma_parts_are_linked(t: Parsed, i: usize)
    requires
        well_parsed(t),
        t.language == Language::CypherQl,
        i < t.nodes.len(),
    ensures
        patterns_of(t, i) is Ok ==> all_linked(patterns_of(t, i)->Ok_0),
{
    if patterns_of(t, i) is Ok {
        let cs = t.children_of(i, Rule::PatternPart);
        lemma_children_of(t, i, Rule::PatternPart);
        let patterns = patterns_of(t, i)->Ok_0;
        if cs.len() > 0 {
            lemma_collected_all(cs, pattern_parts(t), 0);
        }
        assert forall|k: int| 0 <= k < patterns.len() implies linked(#[trigger] patterns[k]) by {
            lemma_collected_all(cs, pattern_parts(t), k);
            lemma_part_is_linked(t, cs[k]);
            assert(pattern_parts(t)(cs[k]) == pattern_part_at(t, cs[k]));
        }
    }
}

proof fn lemma_group_is_linked(t: Parsed, i: usize)
    requires
        well_parsed(t),
        t.language == Language::CypherQl,
        i < t.nodes.len(),
        pattern_group_at(t, i) is Ok,
    ensures
        all_linked((pattern_group_at(t, i)->Ok_0).patterns),
{
    lemma_children(t, i);
    let c = t.child(i, 0)->0;
    lemma_patterns_are_linked(t, c);
}

/// What each step keeps, all steps keep.
pub proof fn lemma_led_keeps<Q>(
    cs: Seq<usize>,
    q: Q,
    step: spec_fn(Q, usize) -> Result<Q, ErrorView>,
    inv: spec_fn(Q) -> bool,
)
    requires
        inv(q),
        forall|m: Q, k: int|
            0 <= k < cs.len() && inv(m) && (#[trigger] step(m, cs[k])) is Ok ==> inv(step(m, cs[k])->Ok_0),
    ensures
        led(cs, q, step) is Ok ==> inv(led(cs, q, step)->Ok_0),
    decreases cs.len(),
{
    if cs.len() > 0 {
        let front = cs.drop_last();
        assert forall|m: Q, k: int| 0 <= k < front.len() && inv(m) && (#[trigger] step(m, front[k])) is Ok implies inv(
            step(m, front[k])->Ok_0,
        ) by {
            assert(front[k] == cs[k]);
        }
        lemma_led_keeps(front, q, step, inv);
        assert(cs.last() == cs[cs.len() - 1]);
    }
}

spec fn query_linked() -> spec_fn(CypherQueryView) -> bool {
    |q: CypherQueryView| groups_linked(q.pattern_groups)
}

proof fn lemma_clause_keeps(t: Parsed, q: CypherQueryView, c: usize)
    requires
        well_parsed(t),
        t.language == Language::CypherQl,
        c < t.nodes.len(),
        groups_linked(q.pattern_groups),
        clause_step(t)(q, c) is Ok,
    ensures
        groups_linked((clause_step(t)(q, c)->Ok_0).pattern_groups),
{
    let inv = query_linked();
    match t.rule(c) {
        Rule::FromClauses => {
            lemma_led_keeps(t.children_of(c, Rule::FromClause), q, from_clause_step(t), inv);
        },
        Rule::MatchClause => {
            let cs = t.children_of(c, Rule::PatternGroup);
            lemma_children_of(t, c, Rule::PatternGroup);
            assert forall|m: CypherQueryView, k: int| 0 <= k < cs.len() && inv(m) && (#[trigger] match_step(t)(
                m,
                cs[k],
            )) is Ok implies inv(match_step(t)(m, cs[k])->Ok_0) by {
                lemma_group_is_linked(t, cs[k]);
            }
            lemma_led_keeps(cs, q, match_step(t), inv);
        },
        Rule::ReturnClause => {
            let cs = t.children(c);
            assert forall|m: CypherQueryView, k: int| 0 <= k < cs.len() && inv(m) && (#[trigger] return_step(t)(
                m,
                cs[k],
            )) is Ok implies inv(return_step(t)(m, cs[k])->Ok_0) by {
                lemma_led_keeps(t.children_of(cs[k], Rule::ReturnItem), m, return_item_step(t), inv);
            }
            lemma_led_keeps(cs, q, return_step(t), inv);
        },
        Rule::OrderByClause => {
            lemma_led_keeps(t.children_of(c, Rule::OrderItem), q, order_step(t), inv);
        },
        _ => {},
    }
}

proof fn lemma_continuous_keeps(t: Parsed, i: usize, q: CypherQueryView)
    requires
        well_parsed(t),
        t.language == Language::CypherQl,
        i < t.nodes.len(),
        groups_linked(q.pattern_groups),
        continuous_at(t, i, q) is Ok,
    ensures
        groups_linked((continuous_at(t, i, q)->Ok_0).pattern_groups),
{
    let inv = query_linked();
    let cs = t.children(i);
    lemma_children(t, i);
    assert forall|m: CypherQueryView, k: int| 0 <= k < cs.len() && inv(m) && (#[trigger] clause_step(t)(
        m,
        cs[k],
    )) is Ok implies inv(clause_step(t)(m, cs[k])->Ok_0) by {
        lemma_clause_keeps(t, m, cs[k]);
    }
    lemma_led_keeps(cs, q, clause_step(t), inv);
}

/// In every pattern of a query that is read, there is one node more than there
/// are relationships, and the relationship at a place starts at the variable of
/// the node of that place and ends at the variable of the node behind it.
pub proof fn law_relationships_link_neighbours(input: Seq<char>)
    requires
        input.len() <= usize::MAX,
        parsed(Language::CypherQl, input) is Some,
        (parsed(Language::CypherQl, input)->0).len() <= usize::MAX,
        cypher_parsed(input) is Ok,
    ensures
        forall|g: int, p: int|
            #![trigger cypher_parsed(input)->Ok_0.pattern_groups[g].patterns[p]]
            0 <= g < cypher_parsed(input)->Ok_0.pattern_groups.len() && 0 <= p
                < cypher_parsed(input)->Ok_0.pattern_groups[g].patterns.len() ==> {
                let pattern = cypher_parsed(input)->Ok_0.pattern_groups[g].patterns[p];
                &&& pattern.nodes.len() == pattern.relationships.len() + 1
                &&& forall|k: int|
                    0 <= k < pattern.relationships.len() ==> (#[trigger] pattern.relationships[k]).start_node
                        == pattern.nodes[k].variable && pattern.relationships[k].end_node == pattern.nodes[k
                        + 1].variable
            },
{
    law_parsed_nodes_stand_for_matches(Language::CypherQl, input);
    let nodes = parsed(Language::CypherQl, input)->0;
    let t = Parsed { language: Language::CypherQl, input, nodes };
    if nodes.len() > 0 {
        lemma_query_is_linked(t);
    }
    let q = cypher_parsed(input)->Ok_0;
    assert(groups_linked(q.pattern_groups));
    assert forall|g: int, p: int|
        #![trigger q.pattern_groups[g].patterns[p]]
        0 <= g < q.pattern_groups.len() && 0 <= p < q.pattern_groups[g].patterns.len() implies linked(
        q.pattern_groups[g].patterns[p],
    ) by {
        assert(all_linked(q.pattern_groups[g].patterns));
    }
}

/// The patterns of a query that is read are linked.
pub proof fn lemma_query_is_linked(t: Parsed)
    requires
        well_parsed(t),
        t.language == Language::CypherQl,
        t.nodes.len() > 0,
    ensures
        led(t.children(0), crate::parser::ast_cypher::blank_cypher(), query_step(t)) matches Ok(q) ==> groups_linked(
            q.pattern_groups,
        ),
{
    let inv = query_linked();
    let cs = t.children(0);
    let blank = crate::parser::ast_cypher::blank_cypher();
    lemma_children(t, 0);
    assert forall|m: CypherQueryView, k: int| 0 <= k < cs.len() && inv(m) && (#[trigger] query_step(t)(
        m,
        cs[k],
    )) is Ok implies inv(query_step(t)(m, cs[k])->Ok_0) by {
        let c = cs[k];
        lemma_children(t, c);
        match t.rule(c) {
            Rule::RegisterQuery => {
                let named = CypherQueryView { name: Some(t.text(t.child(c, 0)->0)), ..m };
                if let Some(s) = t.child(c, 1) {
                    lemma_continuous_keeps(t, s, named);
                }
            },
            Rule::ContinuousQuery => {
                lemma_continuous_keeps(t, c, m);
            },
            _ => {},
        }
    }
    lemma_led_keeps(cs, blank, query_step(t), inv);
}

} // verus!
