//! What holds of every CQELS-QL query that is read.
use vstd::prelude::*;

use crate::listing::concat;
use crate::parser::ast::{CqelsQueryView, GroupView, TripleView};
use crate::parser::cqelsql_spec::{
    ask_step, construct_step, cqels_parsed, describe_step, from_clause_step, group_at, group_step, groups_in, hoisted,
    implicitly_bound, lift_step, object_nodes, optional_at, order_step, predicate_at, predicate_triples, query_step,
    scope_one, scoped, select_at, select_element_step, select_step, top_groups_at, triple_with, triples, triples_in,
    triples_of, union_at, where_at,
};
use crate::parser::cypher_laws::lemma_led_keeps;
use crate::parser::grammar::{Language, Rule};
use crate::parser::peg::{matched, parsed};
use crate::parser::shapes::{lemma_shape_of_objects, lemma_shape_of_predicate, lemma_shape_of_triples};
use crate::parser::tree::{led, Parsed};
use crate::parser::tree_laws::{
    below, law_parsed_nodes_stand_for_matches, lemma_children, lemma_children_of, lemma_match_of, top_rules,
    well_parsed,
};

verus! {

/// What a node is matched from.
pub open spec fn source_of(t: Parsed, i: usize) -> Seq<char> {
    t.input.subrange(t.nodes[i as int].start as int, t.nodes[i as int].end as int)
}

/// The predicate that a text stands for: `a` is short for `rdf:type`.
pub open spec fn predicate_from(text: Seq<char>) -> Seq<char> {
    if text == "a"@ {
        "<http://www.w3.org/1999/02/22-rdf-syntax-ns#type>"@
    } else {
        text
    }
}

/// A triple is written below a node: its subject, its predicate and its object are
/// what nodes of these rules were matched from, and follow one another in the
/// input.
pub open spec fn written(t: Parsed, i: usize, triple: TripleView, s: usize, p: usize, o: usize) -> bool {
    &&& i < s && s < p && p < o && o < t.nodes.len()
    &&& t.rule(s) == Rule::Subject
    &&& t.rule(p) == Rule::Predicate
    &&& t.rule(o) == Rule::Object
    &&& t.nodes[i as int].start <= t.nodes[s as int].start
    &&& t.nodes[s as int].start <= t.nodes[s as int].end <= t.nodes[p as int].start
    &&& t.nodes[p as int].start <= t.nodes[p as int].end <= t.nodes[o as int].start
    &&& t.nodes[o as int].start <= t.nodes[o as int].end <= t.nodes[i as int].end
    &&& t.nodes[i as int].end <= t.input.len()
    &&& triple.subject == source_of(t, s)
    &&& triple.predicate == predicate_from(source_of(t, p))
    &&& triple.object == source_of(t, o)
}

/// `p` is the predicate and `o` an object of a list directly below `i`.
pub open spec fn listed(t: Parsed, i: usize, p: usize, o: usize) -> bool {
    exists|a: int, b: int|
        #![trigger t.children(i)[a], t.children(t.children(t.children(i)[a])[1])[b]]
        0 <= a < t.children(i).len() && t.rule(t.children(i)[a]) == Rule::PredicateObjectList && t.children(
            t.children(i)[a],
        ).len() == 2 && p == t.children(t.children(i)[a])[0] && 0 <= b < t.children(
            t.children(t.children(i)[a])[1],
        ).len() && o == t.children(t.children(t.children(i)[a])[1])[b]
}

/// Where a predicate holds from a position on and not before, the filter is the
/// rest.
proof fn lemma_filter_rest<A>(s: Seq<A>, n: int, p: spec_fn(A) -> bool)
    requires
        0 <= n <= s.len(),
        forall|i: int| 0 <= i < n ==> !p(#[trigger] s[i]),
        forall|i: int| n <= i < s.len() ==> p(#[trigger] s[i]),
    ensures
        s.filter(p) == s.skip(n),
    decreases s.len(),
{
    reveal(Seq::filter);
    if s.len() > 0 {
        let front = s.drop_last();
        if n < s.len() {
            lemma_filter_rest(front, n, p);
            assert(p(s[s.len() - 1]));
            assert(front.skip(n).push(s.last()) =~= s.skip(n));
        } else {
            lemma_filter_rest(front, n - 1, p);
            assert(!p(s[n - 1]));
            assert(s.skip(n) =~= front.skip(n - 1));
        }
    } else {
        assert(s.filter(p) =~= s.skip(n));
    }
}

/// What stands below a triple pattern: a subject and lists.
proof fn lemma_triple_parts(t: Parsed, i: usize)
    requires
        well_parsed(t),
        t.language == Language::CqelsQl,
        i < t.nodes.len(),
        t.rule(i) == Rule::TriplePattern,
    ensures
        t.children(i).len() >= 2,
        t.rule(t.children(i)[0]) == Rule::Subject,
        t.child_of(i, Rule::Subject) == Some(t.children(i)[0]),
        t.children_of(i, Rule::PredicateObjectList) == t.children(i).skip(1),
        forall|a: int|
            1 <= a < t.children(i).len() ==> t.rule(#[trigger] t.children(i)[a]) == Rule::PredicateObjectList,
{
    lemma_children(t, i);
    let more = lemma_shape_of_triples(t, i);
    let cs = t.children(i);
    let rules = top_rules(below(t, i));
    assert(t.rule(cs[0]) == rules[0]);
    assert forall|a: int| 1 <= a < cs.len() implies t.rule(#[trigger] cs[a]) == Rule::PredicateObjectList by {
        assert(t.rule(cs[a]) == rules[a]);
        assert(rules[a] == more[a - 1]);
    }
    lemma_filter_rest(cs, 1, t.has_rule(Rule::PredicateObjectList));
    lemma_only_first(cs, t.has_rule(Rule::Subject));
}

proof fn lemma_only_first<A>(s: Seq<A>, p: spec_fn(A) -> bool)
    requires
        s.len() > 0,
        p(s[0]),
        forall|i: int| 1 <= i < s.len() ==> !p(#[trigger] s[i]),
    ensures
        s.filter(p) == seq![s[0]],
    decreases s.len(),
{
    reveal(Seq::filter);
    let front = s.drop_last();
    if s.len() > 1 {
        lemma_only_first(front, p);
        assert(!p(s[s.len() - 1]));
    } else {
        assert(front.filter(p) =~= Seq::<A>::empty());
        assert(s.filter(p) =~= seq![s[0]]);
    }
}

proof fn lemma_all_kept<A>(s: Seq<A>, p: spec_fn(A) -> bool)
    requires
        forall|i: int| 0 <= i < s.len() ==> p(#[trigger] s[i]),
    ensures
        s.filter(p) == s,
    decreases s.len(),
{
    lemma_filter_rest(s, 0, p);
    assert(s.skip(0) =~= s);
}

/// What stands below a list: a predicate and its objects.
proof fn lemma_list_parts(t: Parsed, c: usize)
    requires
        well_parsed(t),
        t.language == Language::CqelsQl,
        c < t.nodes.len(),
        t.rule(c) == Rule::PredicateObjectList,
    ensures
        t.children(c).len() == 2,
        t.rule(t.children(c)[0]) == Rule::Predicate,
        t.rule(t.children(c)[1]) == Rule::ObjectList,
        t.child_of(c, Rule::Predicate) == Some(t.children(c)[0]),
        object_nodes(t, c) == t.children(t.children(c)[1]),
        forall|b: int|
            0 <= b < object_nodes(t, c).len() ==> t.rule(#[trigger] object_nodes(t, c)[b]) == Rule::Object,
        object_nodes(t, c).len() >= 1,
{
    lemma_children(t, c);
    lemma_shape_of_predicate(t, c);
    let cs = t.children(c);
    let rules = top_rules(below(t, c));
    assert(t.rule(cs[0]) == rules[0] && t.rule(cs[1]) == rules[1]);
    lemma_only_first(cs, t.has_rule(Rule::Predicate));
    lemma_filter_rest(cs, 1, t.has_rule(Rule::ObjectList));
    assert(cs.skip(1)[0] == cs[1]);
    let l = cs[1];
    lemma_children(t, l);
    lemma_shape_of_objects(t, l);
    let os = t.children(l);
    assert forall|b: int| 0 <= b < os.len() implies t.rule(#[trigger] os[b]) == Rule::Object by {
        assert(t.rule(os[b]) == top_rules(below(t, l))[b]);
    }
    lemma_all_kept(os, t.has_rule(Rule::Object));
}

/// The triples of one list.
proof fn lemma_list_is_written(t: Parsed, i: usize, a: int) -> (at: Seq<(usize, usize)>)
    requires
        well_parsed(t),
        t.language == Language::CqelsQl,
        i < t.nodes.len(),
        t.rule(i) == Rule::TriplePattern,
        1 <= a < t.children(i).len(),
    ensures
        ({
            let c = t.children(i)[a];
            let found = predicate_triples(t, source_of(t, t.children(i)[0]))(c);
            &&& at.len() == found.len()
            &&& forall|k: int|
                0 <= k < found.len() ==> written(t, i, #[trigger] found[k], t.children(i)[0], at[k].0, at[k].1)
            &&& forall|j: int, k: int| 0 <= j < k < at.len() ==> (#[trigger] at[j]).1 < (#[trigger] at[k]).1
            &&& forall|k: int|
                0 <= k < at.len() ==> c < (#[trigger] at[k]).1 && at[k].1 < c + 1 + t.nodes[c as int].size
            &&& forall|b: int|
                0 <= b < t.children(t.children(c)[1]).len() ==> at.contains(
                    (t.children(c)[0], #[trigger] t.children(t.children(c)[1])[b]),
                )
        }),
{
    lemma_children(t, i);
    lemma_triple_parts(t, i);
    let s = t.children(i)[0];
    let c = t.children(i)[a];
    lemma_list_parts(t, c);
    lemma_children(t, c);
    let p = t.children(c)[0];
    let l = t.children(c)[1];
    lemma_children(t, l);
    let os = t.children(l);
    let found = predicate_triples(t, source_of(t, s))(c);
    let at = Seq::new(os.len(), |k: int| (p, os[k]));
    let c1 = lemma_match_of(t, i);
    let c2 = lemma_match_of(t, s);
    let c3 = lemma_match_of(t, p);
    assert(t.text(p) == source_of(t, p));
    assert forall|k: int| 0 <= k < found.len() implies written(t, i, #[trigger] found[k], s, at[k].0, at[k].1) by {
        let c4 = lemma_match_of(t, os[k]);
        assert(t.children(i)[0] < t.children(i)[a]);
        assert(t.children(c)[0] < t.children(c)[1]);
        assert(found[k] == triple_with(t, source_of(t, s), predicate_at(t, c))(os[k]));
        assert(t.rule(os[k]) == Rule::Object) by {
            assert(object_nodes(t, c)[k] == os[k]);
        }
    }
    assert forall|b: int| 0 <= b < os.len() implies at.contains((p, #[trigger] os[b])) by {
        assert(at[b] == (p, os[b]));
    }
    assert forall|k: int| 0 <= k < at.len() implies c < (#[trigger] at[k]).1 && at[k].1 < c + 1
        + t.nodes[c as int].size by {
        assert(os[k] == at[k].1);
        assert(l < os[k]);
    }
    assert forall|j: int, k: int| 0 <= j < k < at.len() implies (#[trigger] at[j]).1 < (#[trigger] at[k]).1 by {
        assert(os[j] < os[k]);
    }
    at
}

/// The triples of the first lists.
proof fn lemma_lists_are_written(t: Parsed, i: usize, n: int) -> (at: Seq<(usize, usize)>)
    requires
        well_parsed(t),
        t.language == Language::CqelsQl,
        i < t.nodes.len(),
        t.rule(i) == Rule::TriplePattern,
        1 <= n <= t.children(i).len(),
    ensures
        ({
            let found = concat(
                t.children(i).subrange(1, n),
                predicate_triples(t, source_of(t, t.children(i)[0])),
            );
            &&& at.len() == found.len()
            &&& forall|k: int|
                0 <= k < found.len() ==> written(t, i, #[trigger] found[k], t.children(i)[0], at[k].0, at[k].1)
            &&& forall|j: int, k: int| 0 <= j < k < at.len() ==> (#[trigger] at[j]).1 < (#[trigger] at[k]).1
            &&& forall|k: int| 0 <= k < at.len() && n < t.children(i).len() ==> (#[trigger] at[k]).1 < t.children(i)[n]
            &&& forall|a: int, b: int|
                #![trigger t.children(i)[a], t.children(t.children(t.children(i)[a])[1])[b]]
                1 <= a < n && 0 <= b < t.children(t.children(t.children(i)[a])[1]).len() ==> at.contains(
                    (t.children(t.children(i)[a])[0], t.children(t.children(t.children(i)[a])[1])[b]),
                )
        }),
    decreases n,
{
    let cs = t.children(i);
    let f = predicate_triples(t, source_of(t, cs[0]));
    lemma_children(t, i);
    if n == 1 {
        assert(cs.subrange(1, 1) =~= Seq::<usize>::empty());
        Seq::empty()
    } else {
        let before = lemma_lists_are_written(t, i, n - 1);
        let more = lemma_list_is_written(t, i, n - 1);
        let at = before + more;
        assert(cs.subrange(1, n).drop_last() =~= cs.subrange(1, n - 1));
        assert(cs.subrange(1, n).last() == cs[n - 1]);
        let earlier = concat(cs.subrange(1, n - 1), f);
        let found = concat(cs.subrange(1, n), f);
        assert(found == earlier + f(cs[n - 1]));
        assert forall|k: int| 0 <= k < found.len() implies written(
            t,
            i,
            #[trigger] found[k],
            cs[0],
            at[k].0,
            at[k].1,
        ) by {
            if k < earlier.len() {
                assert(found[k] == earlier[k] && at[k] == before[k]);
            } else {
                let j = k - earlier.len();
                assert(found[k] == f(cs[n - 1])[j] && at[k] == more[j]);
            }
        }
        assert forall|j: int, k: int| 0 <= j < k < at.len() implies (#[trigger] at[j]).1 < (#[trigger] at[k]).1 by {
            if k < before.len() {
                assert(at[j] == before[j] && at[k] == before[k]);
            } else if j < before.len() {
                assert(at[j] == before[j] && at[k] == more[k - before.len()]);
                assert(before[j].1 < cs[n - 1]);
                assert(cs[n - 1] < more[k - before.len()].1);
            } else {
                assert(at[j] == more[j - before.len()] && at[k] == more[k - before.len()]);
            }
        }
        assert forall|k: int| 0 <= k < at.len() && n < cs.len() implies (#[trigger] at[k]).1 < cs[n] by {
            assert(cs[n - 1] < cs[n]);
            if k < before.len() {
                assert(at[k] == before[k]);
            } else {
                assert(at[k] == more[k - before.len()]);
            }
        }
        assert forall|a: int, b: int|
            #![trigger t.children(i)[a], t.children(t.children(t.children(i)[a])[1])[b]]
            1 <= a < n && 0 <= b < t.children(t.children(t.children(i)[a])[1]).len() implies at.contains(
            (t.children(t.children(i)[a])[0], t.children(t.children(t.children(i)[a])[1])[b]),
        ) by {
            let pair = (t.children(cs[a])[0], t.children(t.children(cs[a])[1])[b]);
            if a < n - 1 {
                assert(before.contains(pair));
                let k = choose|k: int| 0 <= k < before.len() && before[k] == pair;
                assert(at[k] == pair);
            } else {
                assert(more.contains(pair));
                let k = choose|k: int| 0 <= k < more.len() && more[k] == pair;
                assert(at[before.len() + k] == pair);
            }
        }
        at
    }
}

/// The triples of a triple pattern that is read are those that are written there:
/// each has the text of the subject, of a predicate and of one of its objects,
/// which follow one another in the input. There is one for each object, in the
/// order of the objects.
pub proof fn law_triples_are_as_written(t: Parsed, i: usize) -> (at: Seq<(usize, usize)>)
    requires
        well_parsed(t),
        t.language == Language::CqelsQl,
        i < t.nodes.len(),
        t.rule(i) == Rule::TriplePattern,
    ensures
        triples_of(t, i).len() >= 1,
        at.len() == triples_of(t, i).len(),
        forall|k: int|
            0 <= k < at.len() ==> written(t, i, #[trigger] triples_of(t, i)[k], t.children(i)[0], at[k].0, at[k].1),
        forall|j: int, k: int| 0 <= j < k < at.len() ==> (#[trigger] at[j]).1 < (#[trigger] at[k]).1,
        forall|p: usize, o: usize| #[trigger] listed(t, i, p, o) ==> at.contains((p, o)),
{
    lemma_triple_parts(t, i);
    lemma_children(t, i);
    let cs = t.children(i);
    let c2 = lemma_match_of(t, cs[0]);
    assert(t.text(cs[0]) == source_of(t, cs[0]));
    assert(cs.subrange(1, cs.len() as int) =~= cs.skip(1));
    let at = lemma_lists_are_written(t, i, cs.len() as int);
    assert forall|p: usize, o: usize| #[trigger] listed(t, i, p, o) implies at.contains((p, o)) by {
        let (a, b) = choose|a: int, b: int|
            #![trigger t.children(i)[a], t.children(t.children(t.children(i)[a])[1])[b]]
            0 <= a < t.children(i).len() && t.rule(t.children(i)[a]) == Rule::PredicateObjectList && t.children(
                t.children(i)[a],
            ).len() == 2 && p == t.children(t.children(i)[a])[0] && 0 <= b < t.children(
                t.children(t.children(i)[a])[1],
            ).len() && o == t.children(t.children(t.children(i)[a])[1])[b];
        assert(a != 0);
    }
    lemma_list_parts(t, cs[1]);
    let l = t.children(cs[1])[1];
    assert(t.children(l).len() >= 1);
    assert(at.contains((t.children(t.children(i)[1])[0], t.children(t.children(t.children(i)[1])[1])[0])));
    at
}

/// A rule matches from one position of the input to another.
pub open spec fn term_at(input: Seq<char>, rule: Rule, from: int, to: int) -> bool {
    exists|calls: nat|
        (#[trigger] matched(
            Language::CqelsQl,
            input,
            crate::parser::grammar::body(Language::CqelsQl, rule),
            from as nat,
            calls,
        )) is Some && (matched(
            Language::CqelsQl,
            input,
            crate::parser::grammar::body(Language::CqelsQl, rule),
            from as nat,
            calls,
        )->0).0 == to
}

/// The triple stands at places of the input: a subject, behind it a predicate,
/// and behind that an object.
pub open spec fn stands_at(
    input: Seq<char>,
    triple: TripleView,
    subject: (int, int),
    predicate: (int, int),
    object: (int, int),
) -> bool {
    &&& 0 <= subject.0 <= subject.1 <= predicate.0 <= predicate.1 <= object.0 <= object.1 <= input.len()
    &&& term_at(input, Rule::Subject, subject.0, subject.1)
    &&& term_at(input, Rule::Predicate, predicate.0, predicate.1)
    &&& term_at(input, Rule::Object, object.0, object.1)
    &&& triple.subject == input.subrange(subject.0, subject.1)
    &&& triple.predicate == predicate_from(input.subrange(predicate.0, predicate.1))
    &&& triple.object == input.subrange(object.0, object.1)
}

/// The triple is in the input.
pub open spec fn read_from(input: Seq<char>, triple: TripleView) -> bool {
    exists|s: (int, int), p: (int, int), o: (int, int)| #[trigger] stands_at(input, triple, s, p, o)
}

pub open spec fn all_read_from(input: Seq<char>, triples: Seq<TripleView>) -> bool {
    forall|k: int| 0 <= k < triples.len() ==> read_from(input, #[trigger] triples[k])
}

/// All triples of a group, at any depth, are in the input.
pub open spec fn group_read_from(input: Seq<char>, g: GroupView) -> bool
    decreases g,
{
    match g {
        GroupView::Stream { source, patterns } => all_read_from(input, patterns),
        GroupView::Window { window_iri, patterns } => all_read_from(input, patterns),
        GroupView::Static { patterns } => all_read_from(input, patterns),
        GroupView::NamedGraph { graph_uri, patterns } => all_read_from(input, patterns),
        GroupView::Default { patterns } => all_read_from(input, patterns),
        GroupView::Minus { patterns } => all_read_from(input, patterns),
        GroupView::Optional { groups } => forall|k: int|
            0 <= k < groups.len() ==> group_read_from(input, #[trigger] groups[k]),
        GroupView::Union { left, right } => (forall|k: int|
            0 <= k < left.len() ==> group_read_from(input, #[trigger] left[k])) && (forall|k: int|
            0 <= k < right.len() ==> group_read_from(input, #[trigger] right[k])),
        _ => true,
    }
}

pub open spec fn groups_read_from(input: Seq<char>, groups: Seq<GroupView>) -> bool {
    forall|k: int| 0 <= k < groups.len() ==> group_read_from(input, #[trigger] groups[k])
}

proof fn lemma_triples_read(t: Parsed, i: usize)
    requires
        well_parsed(t),
        t.language == Language::CqelsQl,
        i < t.nodes.len(),
        t.rule(i) == Rule::TriplePattern,
    ensures
        all_read_from(t.input, triples_of(t, i)),
{
    let at = law_triples_are_as_written(t, i);
    let found = triples_of(t, i);
    lemma_children(t, i);
    lemma_triple_parts(t, i);
    let s = t.children(i)[0];
    assert forall|k: int| 0 <= k < found.len() implies read_from(t.input, #[trigger] found[k]) by {
        let (p, o) = at[k];
        assert(written(t, i, triples_of(t, i)[k], s, p, o));
        let c1 = lemma_match_of(t, s);
        let c2 = lemma_match_of(t, p);
        let c3 = lemma_match_of(t, o);
        let a = (t.nodes[s as int].start as int, t.nodes[s as int].end as int);
        let b = (t.nodes[p as int].start as int, t.nodes[p as int].end as int);
        let c = (t.nodes[o as int].start as int, t.nodes[o as int].end as int);
        assert(term_at(t.input, Rule::Subject, a.0, a.1));
        assert(term_at(t.input, Rule::Predicate, b.0, b.1));
        assert(term_at(t.input, Rule::Object, c.0, c.1));
        assert(stands_at(t.input, found[k], a, b, c));
    }
}

proof fn lemma_concat_read(t: Parsed, cs: Seq<usize>)
    requires
        well_parsed(t),
        t.language == Language::CqelsQl,
        forall|k: int| 0 <= k < cs.len() ==> #[trigger] cs[k] < t.nodes.len() && t.rule(cs[k]) == Rule::TriplePattern,
    ensures
        all_read_from(t.input, concat(cs, triples(t))),
    decreases cs.len(),
{
    if cs.len() > 0 {
        lemma_concat_read(t, cs.drop_last());
        assert(cs.last() == cs[cs.len() - 1]);
        lemma_triples_read(t, cs.last());
        let before = concat(cs.drop_last(), triples(t));
        let all = concat(cs, triples(t));
        assert forall|k: int| 0 <= k < all.len() implies read_from(t.input, #[trigger] all[k]) by {
            if k < before.len() {
                assert(all[k] == before[k]);
            } else {
                assert(all[k] == triples_of(t, cs.last())[k - before.len()]);
            }
        }
    }
}

proof fn lemma_triples_in_read(t: Parsed, i: usize)
    requires
        well_parsed(t),
        t.language == Language::CqelsQl,
        i < t.nodes.len(),
    ensures
        all_read_from(t.input, triples_in(t, i)),
{
    lemma_children_of(t, i, Rule::TriplePattern);
    lemma_concat_read(t, t.children_of(i, Rule::TriplePattern));
}

proof fn lemma_group_read(t: Parsed, i: usize)
    requires
        well_parsed(t),
        t.language == Language::CqelsQl,
        i < t.nodes.len(),
        group_at(t, i) is Ok,
    ensures
        group_read_from(t.input, group_at(t, i)->Ok_0),
    decreases t.nodes.len() - i, 0nat, 0nat,
{
    lemma_children(t, i);
    let c = t.child(i, 0)->0;
    lemma_triples_in_read(t, c);
    match t.rule(c) {
        Rule::TriplePattern => {
            lemma_triples_read(t, c);
        },
        Rule::OptionalPattern => {
            lemma_optional_read(t, c);
        },
        Rule::UnionPattern => {
            lemma_union_read(t, c);
        },
        _ => {},
    }
}

proof fn lemma_optional_read(t: Parsed, i: usize)
    requires
        well_parsed(t),
        t.language == Language::CqelsQl,
        i < t.nodes.len(),
        optional_at(t, i) is Ok,
    ensures
        group_read_from(t.input, optional_at(t, i)->Ok_0),
        optional_at(t, i)->Ok_0 is Optional,
    decreases t.nodes.len() - i, 2nat, 0nat,
{
    let cs = t.children_of(i, Rule::PatternGroup);
    lemma_groups_read(t, i, cs);
}

proof fn lemma_union_read(t: Parsed, i: usize)
    requires
        well_parsed(t),
        t.language == Language::CqelsQl,
        i < t.nodes.len(),
        union_at(t, i) is Ok,
    ensures
        group_read_from(t.input, union_at(t, i)->Ok_0),
        union_at(t, i)->Ok_0 is Union,
    decreases t.nodes.len() - i, 2nat, 0nat,
{
    let cs = t.children_of(i, Rule::PatternGroup);
    lemma_groups_read(t, i, cs);
    let groups = groups_in(t, i, cs)->Ok_0;
    lemma_groups_count(t, i, cs);
    lemma_split_range(t, cs);
    let at = crate::parser::cqelsql_spec::union_split(t, cs);
    assert forall|k: int| 0 <= k < groups.take(at).len() implies group_read_from(
        t.input,
        #[trigger] groups.take(at)[k],
    ) by {
        assert(groups.take(at)[k] == groups[k]);
    }
    assert forall|k: int| 0 <= k < groups.skip(at).len() implies group_read_from(
        t.input,
        #[trigger] groups.skip(at)[k],
    ) by {
        assert(groups.skip(at)[k] == groups[at + k]);
    }
}

pub proof fn lemma_groups_count(t: Parsed, i: usize, cs: Seq<usize>)
    requires
        groups_in(t, i, cs) is Ok,
    ensures
        (groups_in(t, i, cs)->Ok_0).len() == cs.len(),
    decreases cs.len(),
{
    if cs.len() > 0 {
        lemma_groups_count(t, i, cs.drop_last());
    }
}

proof fn lemma_split_range(t: Parsed, cs: Seq<usize>)
    ensures
        0 <= crate::parser::cqelsql_spec::union_split(t, cs) <= cs.len(),
{
    lemma_behind_range(t, cs, 1);
}

proof fn lemma_behind_range(t: Parsed, cs: Seq<usize>, k: int)
    ensures
        crate::parser::cqelsql_spec::first_behind_union(t, cs, k) matches Some(at) ==> 1 <= at < cs.len(),
    decreases cs.len() - k,
{
    if 1 <= k < cs.len() {
        lemma_behind_range(t, cs, k + 1);
    }
}

proof fn lemma_groups_read(t: Parsed, i: usize, cs: Seq<usize>)
    requires
        well_parsed(t),
        t.language == Language::CqelsQl,
        i < t.nodes.len(),
        groups_in(t, i, cs) is Ok,
    ensures
        groups_read_from(t.input, groups_in(t, i, cs)->Ok_0),
    decreases t.nodes.len() - i, 1nat, cs.len(),
{
    if cs.len() > 0 {
        lemma_groups_read(t, i, cs.drop_last());
        lemma_group_read(t, cs.last());
        let before = groups_in(t, i, cs.drop_last())->Ok_0;
        let all = groups_in(t, i, cs)->Ok_0;
        assert(all == before.push(group_at(t, cs.last())->Ok_0));
    }
}

/// Scoping keeps the triples.
proof fn lemma_scoped_read(input: Seq<char>, g: GroupView, source: Seq<char>)
    requires
        group_read_from(input, g),
    ensures
        group_read_from(input, scope_one(source)(g)),
        group_read_from(input, scoped(g, source)),
{
    match g {
        GroupView::Optional { groups } => {
            lemma_scope_all_read(input, groups, source);
        },
        GroupView::Union { left, right } => {
            lemma_scope_all_read(input, left, source);
            lemma_scope_all_read(input, right, source);
        },
        _ => {},
    }
}

proof fn lemma_scope_all_read(input: Seq<char>, groups: Seq<GroupView>, source: Seq<char>)
    requires
        groups_read_from(input, groups),
    ensures
        groups_read_from(input, groups.map_values(scope_one(source))),
{
    let all = groups.map_values(scope_one(source));
    assert forall|k: int| 0 <= k < all.len() implies group_read_from(input, #[trigger] all[k]) by {
        assert(group_read_from(input, groups[k]));
        assert(all[k] == scope_one(source)(groups[k]));
        if let GroupView::Default { patterns } = groups[k] {
            assert(all_read_from(input, patterns));
        }
    }
}

spec fn groups_inv(input: Seq<char>) -> spec_fn(Seq<GroupView>) -> bool {
    |groups: Seq<GroupView>| groups_read_from(input, groups)
}

proof fn lemma_top_groups_read(t: Parsed, i: usize)
    requires
        well_parsed(t),
        t.language == Language::CqelsQl,
        i < t.nodes.len(),
        top_groups_at(t, i) is Ok,
    ensures
        groups_read_from(t.input, top_groups_at(t, i)->Ok_0),
{
    lemma_children(t, i);
    let g = t.child(i, 0)->0;
    if t.rule(g) == Rule::StreamPatternGroup {
        lemma_children(t, g);
        let source = t.text(t.child(g, 0)->0);
        let cs = t.children(g);
        let step = lift_step(t, source);
        let inv = groups_inv(t.input);
        assert forall|m: Seq<GroupView>, k: int| 0 <= k < cs.len() && inv(m) && (#[trigger] step(
            m,
            cs[k],
        )) is Ok implies inv(step(m, cs[k])->Ok_0) by {
            let c = cs[k];
            match t.rule(c) {
                Rule::OptionalPattern => {
                    lemma_optional_read(t, c);
                    lemma_scoped_read(t.input, optional_at(t, c)->Ok_0, source);
                },
                Rule::UnionPattern => {
                    lemma_union_read(t, c);
                    lemma_scoped_read(t.input, union_at(t, c)->Ok_0, source);
                },
                _ => {},
            }
        }
        assert(inv(Seq::empty()));
        lemma_led_keeps(cs, Seq::empty(), step, inv);
        lemma_triples_in_read(t, g);
        let lifted = led(cs, Seq::empty(), step)->Ok_0;
        let all = seq![GroupView::Stream { source, patterns: triples_in(t, g) }] + lifted;
        assert forall|k: int| 0 <= k < all.len() implies group_read_from(t.input, #[trigger] all[k]) by {
            if k > 0 {
                assert(all[k] == lifted[k - 1]);
            }
        }
    } else {
        lemma_group_read(t, i);
    }
}

proof fn lemma_hoisted_read(input: Seq<char>, groups: Seq<GroupView>, q: CqelsQueryView)
    requires
        groups_read_from(input, groups),
        query_read_from(input)(q),
    ensures
        query_read_from(input)(hoisted(groups, q)),
    decreases groups.len(),
{
    if groups.len() > 0 {
        lemma_hoisted_read(input, groups.drop_last(), q);
        assert(groups.last() == groups[groups.len() - 1]);
        let before = hoisted(groups.drop_last(), q);
        assert(groups_read_from(input, before.pattern_groups.push(groups.last())));
    }
}

/// All triples of a query are in the input.
pub open spec fn query_read_from(input: Seq<char>) -> spec_fn(CqelsQueryView) -> bool {
    |q: CqelsQueryView|
        groups_read_from(input, q.pattern_groups) && all_read_from(input, q.construct_template)
}

proof fn lemma_where_reads(t: Parsed, i: usize, q: CqelsQueryView)
    requires
        well_parsed(t),
        t.language == Language::CqelsQl,
        i < t.nodes.len(),
        query_read_from(t.input)(q),
        where_at(t, i, q) is Ok,
    ensures
        query_read_from(t.input)(where_at(t, i, q)->Ok_0),
{
    let cs = t.children_of(i, Rule::PatternGroup);
    lemma_children_of(t, i, Rule::PatternGroup);
    let inv = groups_inv(t.input);
    assert forall|m: Seq<GroupView>, k: int| 0 <= k < cs.len() && inv(m) && (#[trigger] group_step(t)(
        m,
        cs[k],
    )) is Ok implies inv(group_step(t)(m, cs[k])->Ok_0) by {
        lemma_top_groups_read(t, cs[k]);
        let more = top_groups_at(t, cs[k])->Ok_0;
        let all = m + more;
        assert forall|j: int| 0 <= j < all.len() implies group_read_from(t.input, #[trigger] all[j]) by {
            if j < m.len() {
                assert(all[j] == m[j]);
            } else {
                assert(all[j] == more[j - m.len()]);
            }
        }
    }
    assert(inv(Seq::empty()));
    lemma_led_keeps(cs, Seq::empty(), group_step(t), inv);
    let groups = led(cs, Seq::empty(), group_step(t))->Ok_0;
    if q.streams.len() == 1 {
        lemma_scope_all_read(t.input, groups, q.streams[0].name);
    }
    lemma_hoisted_read(t.input, implicitly_bound(groups, q), q);
}

proof fn lemma_from_reads(t: Parsed, i: usize, q: CqelsQueryView)
    requires
        query_read_from(t.input)(q),
    ensures
        crate::parser::cqelsql_spec::from_clauses_at(t, i, q) matches Ok(r) ==> query_read_from(t.input)(r),
{
    lemma_led_keeps(
        t.children_of(i, Rule::FromClause),
        q,
        from_clause_step(t),
        query_read_from(t.input),
    );
}

proof fn lemma_select_reads(t: Parsed, i: usize, q: CqelsQueryView)
    requires
        well_parsed(t),
        t.language == Language::CqelsQl,
        i < t.nodes.len(),
        query_read_from(t.input)(q),
        select_at(t, i, q) is Ok,
    ensures
        query_read_from(t.input)(select_at(t, i, q)->Ok_0),
{
    let inv = query_read_from(t.input);
    let cs = t.children(i);
    let step = select_step(t);
    lemma_children(t, i);
    assert forall|m: CqelsQueryView, k: int| 0 <= k < cs.len() && inv(m) && (#[trigger] step(m, cs[k])) is Ok implies inv(
        step(m, cs[k])->Ok_0,
    ) by {
        let c = cs[k];
        match t.rule(c) {
            Rule::SelectList => {
                lemma_led_keeps(t.children(c), m, select_element_step(t), inv);
            },
            Rule::FromClauses => {
                lemma_from_reads(t, c, m);
            },
            Rule::WhereClause => {
                lemma_where_reads(t, c, m);
            },
            Rule::OrderByClause => {
                lemma_led_keeps(t.children_of(c, Rule::OrderCondition), m, order_step(t), inv);
            },
            _ => {},
        }
    }
    lemma_led_keeps(
        cs,
        CqelsQueryView { query_type: crate::parser::ast::CqelsQueryType::Select, ..q },
        step,
        inv,
    );
}

proof fn lemma_construct_reads(t: Parsed, i: usize, q: CqelsQueryView)
    requires
        well_parsed(t),
        t.language == Language::CqelsQl,
        i < t.nodes.len(),
        query_read_from(t.input)(q),
        crate::parser::cqelsql_spec::construct_at(t, i, q) is Ok,
    ensures
        query_read_from(t.input)(crate::parser::cqelsql_spec::construct_at(t, i, q)->Ok_0),
{
    let inv = query_read_from(t.input);
    let cs = t.children(i);
    let step = construct_step(t);
    lemma_children(t, i);
    assert forall|m: CqelsQueryView, k: int| 0 <= k < cs.len() && inv(m) && (#[trigger] step(m, cs[k])) is Ok implies inv(
        step(m, cs[k])->Ok_0,
    ) by {
        let c = cs[k];
        match t.rule(c) {
            Rule::ConstructTemplate => {
                lemma_triples_in_read(t, c);
                let all = m.construct_template + triples_in(t, c);
                assert forall|j: int| 0 <= j < all.len() implies read_from(t.input, #[trigger] all[j]) by {
                    if j < m.construct_template.len() {
                        assert(all[j] == m.construct_template[j]);
                    } else {
                        assert(all[j] == triples_in(t, c)[j - m.construct_template.len()]);
                    }
                }
            },
            Rule::FromClauses => {
                lemma_from_reads(t, c, m);
            },
            Rule::WhereClause => {
                lemma_where_reads(t, c, m);
            },
            _ => {},
        }
    }
    lemma_led_keeps(
        cs,
        CqelsQueryView { query_type: crate::parser::ast::CqelsQueryType::Construct, ..q },
        step,
        inv,
    );
}

proof fn lemma_ask_reads(t: Parsed, i: usize, q: CqelsQueryView)
    requires
        well_parsed(t),
        t.language == Language::CqelsQl,
        i < t.nodes.len(),
        query_read_from(t.input)(q),
    ensures
        crate::parser::cqelsql_spec::ask_at(t, i, q) matches Ok(r) ==> query_read_from(t.input)(r),
        crate::parser::cqelsql_spec::describe_at(t, i, q) matches Ok(r) ==> query_read_from(t.input)(r),
{
    let inv = query_read_from(t.input);
    let cs = t.children(i);
    lemma_children(t, i);
    assert forall|m: CqelsQueryView, k: int| 0 <= k < cs.len() && inv(m) && (#[trigger] ask_step(t)(
        m,
        cs[k],
    )) is Ok implies inv(ask_step(t)(m, cs[k])->Ok_0) by {
        lemma_from_reads(t, cs[k], m);
        if t.rule(cs[k]) == Rule::WhereClause {
            lemma_where_reads(t, cs[k], m);
        }
    }
    assert forall|m: CqelsQueryView, k: int| 0 <= k < cs.len() && inv(m) && (#[trigger] describe_step(t)(
        m,
        cs[k],
    )) is Ok implies inv(describe_step(t)(m, cs[k])->Ok_0) by {
        lemma_from_reads(t, cs[k], m);
        if t.rule(cs[k]) == Rule::WhereClause {
            lemma_where_reads(t, cs[k], m);
        }
    }
    lemma_led_keeps(
        cs,
        CqelsQueryView { query_type: crate::parser::ast::CqelsQueryType::Ask, ..q },
        ask_step(t),
        inv,
    );
    lemma_led_keeps(
        cs,
        CqelsQueryView { query_type: crate::parser::ast::CqelsQueryType::Describe, ..q },
        describe_step(t),
        inv,
    );
}

/// Every triple of a query that is read, in its patterns at any depth and in its
/// template, stands in the input: its subject is the text of a place that the
/// grammar takes for a subject, behind it stands its predicate, and behind that
/// its object.
pub proof fn law_triples_stand_in_the_text(input: Seq<char>)
    requires
        input.len() <= usize::MAX,
        parsed(Language::CqelsQl, input) is Some,
        (parsed(Language::CqelsQl, input)->0).len() <= usize::MAX,
        cqels_parsed(input) is Ok,
    ensures
        groups_read_from(input, cqels_parsed(input)->Ok_0.pattern_groups),
        all_read_from(input, cqels_parsed(input)->Ok_0.construct_template),
{
    law_parsed_nodes_stand_for_matches(Language::CqelsQl, input);
    let nodes = parsed(Language::CqelsQl, input)->0;
    let t = Parsed { language: Language::CqelsQl, input, nodes };
    let inv = query_read_from(input);
    let blank = crate::parser::ast::blank_query();
    assert(inv(blank));
    if nodes.len() > 0 {
        let cs = t.children(0);
        lemma_children(t, 0);
        assert forall|m: CqelsQueryView, k: int| 0 <= k < cs.len() && inv(m) && (#[trigger] query_step(t)(
            m,
            cs[k],
        )) is Ok implies inv(query_step(t)(m, cs[k])->Ok_0) by {
            let c = cs[k];
            lemma_children(t, c);
            match t.rule(c) {
                Rule::RegisterQuery => {
                    let named = CqelsQueryView { name: Some(t.text(t.child(c, 0)->0)), ..m };
                    if let Some(s) = t.child(c, 1) {
                        lemma_select_reads(t, s, named);
                    }
                },
                Rule::SelectQuery => {
                    lemma_select_reads(t, c, m);
                },
                Rule::ConstructQuery => {
                    lemma_construct_reads(t, c, m);
                },
                Rule::AskQuery => {
                    lemma_ask_reads(t, c, m);
                },
                Rule::DescribeQuery => {
                    lemma_ask_reads(t, c, m);
                },
                _ => {},
            }
        }
        lemma_led_keeps(cs, blank, query_step(t), inv);
    }
}

} // verus!
