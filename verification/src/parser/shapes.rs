//! Which nodes stand directly below the nodes of a rule.
use vstd::prelude::*;

use crate::parser::grammar::{body, silent, Language, Rule, RULE_LIMIT};
use crate::parser::peg::{calls_at, call, matched, node_over, text, Node, Peg};
use crate::parser::tree::Parsed;
use crate::parser::tree_laws::{
    below, lemma_match_is_faithful, lemma_match_of, lemma_one_top, lemma_top_rules_concat, lemma_whole, top_rules,
    tops, well_parsed, whole,
};

verus! {

/// All rules are one rule.
pub open spec fn all_are(rules: Seq<Rule>, rule: Rule) -> bool {
    forall|k: int| 0 <= k < rules.len() ==> #[trigger] rules[k] == rule
}

/// Where the parts of a chain match.
pub proof fn lemma_chain(language: Language, input: Seq<char>, a: Peg, b: Peg, pos: nat, calls: nat) -> (r: (
    nat,
    Seq<Node>,
    nat,
    Seq<Node>,
))
    requires
        pos <= input.len() <= usize::MAX,
        matched(language, input, a.chain(b), pos, calls) is Some,
        (matched(language, input, a.chain(b), pos, calls)->0).1.len() <= usize::MAX,
    ensures
        pos <= r.0 <= input.len(),
        r.1.len() <= usize::MAX,
        r.3.len() <= usize::MAX,
        whole(r.1),
        whole(r.3),
        matched(language, input, a, pos, calls) == Some((r.0, r.1)),
        matched(language, input, b, r.0, r.2) == Some(((matched(language, input, a.chain(b), pos, calls)->0).0, r.3)),
        (matched(language, input, a.chain(b), pos, calls)->0).1 == r.1 + r.3,
        top_rules(r.1 + r.3) == top_rules(r.1) + top_rules(r.3),
{
    let (p, first) = matched(language, input, a, pos, calls)->0;
    let c = calls_at(pos, p, calls);
    let (q, second) = matched(language, input, b, p, c)->0;
    assert((first + second).len() == first.len() + second.len());
    lemma_match_is_faithful(language, input, a, pos, calls);
    lemma_match_is_faithful(language, input, b, p, c);
    lemma_whole(language, input, first, pos, p);
    lemma_whole(language, input, second, p, q);
    lemma_top_rules_concat(first, second);
    (p, first, c, second)
}

/// Where an expression matches behind a gap.
pub proof fn lemma_behind_gap(language: Language, input: Seq<char>, b: Peg, pos: nat, calls: nat) -> (r: (nat, nat))
    requires
        pos <= input.len() <= usize::MAX,
        matched(language, input, Peg::Gap.chain(b), pos, calls) is Some,
        (matched(language, input, Peg::Gap.chain(b), pos, calls)->0).1.len() <= usize::MAX,
    ensures
        pos <= r.0 <= input.len(),
        matched(language, input, b, r.0, r.1) == matched(language, input, Peg::Gap.chain(b), pos, calls),
{
    let (p, none, c, second) = lemma_chain(language, input, Peg::Gap, b, pos, calls);
    assert(none =~= Seq::<Node>::empty());
    assert(none + second =~= second);
    (p, c)
}

/// Where the parts of a chain with a gap between them match.
pub proof fn lemma_lay(language: Language, input: Seq<char>, a: Peg, b: Peg, pos: nat, calls: nat) -> (r: (
    nat,
    Seq<Node>,
    nat,
    nat,
    Seq<Node>,
))
    requires
        pos <= input.len() <= usize::MAX,
        matched(language, input, a.lay(b), pos, calls) is Some,
        (matched(language, input, a.lay(b), pos, calls)->0).1.len() <= usize::MAX,
    ensures
        pos <= r.0 <= r.2 <= input.len(),
        r.1.len() <= usize::MAX,
        r.4.len() <= usize::MAX,
        matched(language, input, a, pos, calls) == Some((r.0, r.1)),
        matched(language, input, b, r.2, r.3) == Some(((matched(language, input, a.lay(b), pos, calls)->0).0, r.4)),
        (matched(language, input, a.lay(b), pos, calls)->0).1 == r.1 + r.4,
        top_rules(r.1 + r.4) == top_rules(r.1) + top_rules(r.4),
{
    let (p, first, c, second) = lemma_chain(language, input, a, Peg::Gap.chain(b), pos, calls);
    let (at, d) = lemma_behind_gap(language, input, b, p, c);
    (p, first, at, d, second)
}

/// A rule that is called leaves one node at the top.
pub proof fn lemma_called(language: Language, input: Seq<char>, rule: Rule, pos: nat, calls: nat)
    requires
        pos <= input.len() <= usize::MAX,
        !silent(rule),
        matched(language, input, call(rule), pos, calls) is Some,
        (matched(language, input, call(rule), pos, calls)->0).1.len() <= usize::MAX,
    ensures
        top_rules((matched(language, input, call(rule), pos, calls)->0).1) == seq![rule],
{
    let (p, below) = matched(language, input, body(language, rule), pos, (calls - 1) as nat)->0;
    let n = Node { rule, start: pos as usize, end: p as usize, size: below.len() as usize };
    assert(node_over(rule, pos, p, below) == seq![n] + below);
    assert((seq![n] + below).len() == below.len() + 1);
    lemma_one_top(n, below);
}

/// A text leaves no node.
pub proof fn lemma_no_tops(s: Seq<Node>)
    requires
        s.len() == 0,
    ensures
        top_rules(s) == Seq::<Rule>::empty(),
{
    assert(tops(s) =~= Seq::<int>::empty());
    assert(top_rules(s) =~= Seq::<Rule>::empty());
}

/// The nodes at the top of a match of `a` are all of a rule, whereever it matches.
pub open spec fn yields_only(language: Language, input: Seq<char>, a: Peg, rule: Rule) -> bool {
    forall|pos: nat, calls: nat|
        pos <= input.len() && (#[trigger] matched(language, input, a, pos, calls)) is Some && (matched(
            language,
            input,
            a,
            pos,
            calls,
        )->0).1.len() <= usize::MAX ==> all_are(top_rules((matched(language, input, a, pos, calls)->0).1), rule)
}

/// So are those of a match of `a` as often as it matches.
pub proof fn lemma_many(language: Language, input: Seq<char>, a: Peg, rule: Rule, pos: nat, calls: nat)
    requires
        pos <= input.len() <= usize::MAX,
        yields_only(language, input, a, rule),
        (matched(language, input, a.many(), pos, calls)->0).1.len() <= usize::MAX,
    ensures
        matched(language, input, a.many(), pos, calls) is Some,
        all_are(top_rules((matched(language, input, a.many(), pos, calls)->0).1), rule),
    decreases input.len() - pos,
{
    let e = a.many();
    let nodes = (matched(language, input, e, pos, calls)->0).1;
    lemma_no_tops(Seq::empty());
    if let Some((p, first)) = matched(language, input, a, pos, calls) {
        if pos < p && p <= input.len() {
            let m = matched(language, input, e, p, RULE_LIMIT as nat);
            assert(m is Some);
            let (r, rest) = m->0;
            assert(nodes == first + rest);
            assert(nodes.len() == first.len() + rest.len());
            lemma_many(language, input, a, rule, p, RULE_LIMIT as nat);
            lemma_match_is_faithful(language, input, a, pos, calls);
            lemma_whole(language, input, first, pos, p);
            lemma_top_rules_concat(first, rest);
            let all = top_rules(nodes);
            assert forall|k: int| 0 <= k < all.len() implies #[trigger] all[k] == rule by {
                if k < top_rules(first).len() {
                    assert(all[k] == top_rules(first)[k]);
                } else {
                    assert(all[k] == top_rules(rest)[k - top_rules(first).len()]);
                }
            }
        }
    }
}

/// One node and then others of a rule, each behind a gap.
pub proof fn lemma_one_and_more(language: Language, input: Seq<char>, first: Rule, a: Peg, rule: Rule, pos: nat, calls: nat) -> (r:
    Seq<Rule>)
    requires
        pos <= input.len() <= usize::MAX,
        !silent(first),
        yields_only(language, input, Peg::Gap.chain(a), rule),
        matched(language, input, call(first).lay_many(a), pos, calls) is Some,
        (matched(language, input, call(first).lay_many(a), pos, calls)->0).1.len() <= usize::MAX,
    ensures
        top_rules((matched(language, input, call(first).lay_many(a), pos, calls)->0).1) == seq![first] + r,
        all_are(r, rule),
{
    let (p, one, c, rest) = lemma_chain(language, input, call(first), Peg::Gap.chain(a).many(), pos, calls);
    lemma_called(language, input, first, pos, calls);
    lemma_many(language, input, Peg::Gap.chain(a), rule, p, c);
    top_rules(rest)
}

/// A rule behind a gap yields only its nodes.
pub proof fn lemma_yields_call(language: Language, input: Seq<char>, rule: Rule)
    requires
        input.len() <= usize::MAX,
        !silent(rule),
    ensures
        yields_only(language, input, Peg::Gap.chain(call(rule)), rule),
{
    let a = Peg::Gap.chain(call(rule));
    assert forall|pos: nat, calls: nat|
        pos <= input.len() && (#[trigger] matched(language, input, a, pos, calls)) is Some && (matched(
            language,
            input,
            a,
            pos,
            calls,
        )->0).1.len() <= usize::MAX implies all_are(
        top_rules((matched(language, input, a, pos, calls)->0).1),
        rule,
    ) by {
        let (p, c) = lemma_behind_gap(language, input, call(rule), pos, calls);
        lemma_called(language, input, rule, p, c);
    }
}

/// So does a text and then a rule, behind a gap.
pub proof fn lemma_yields_after(language: Language, input: Seq<char>, mark: &'static str, rule: Rule)
    requires
        input.len() <= usize::MAX,
        !silent(rule),
    ensures
        yields_only(language, input, Peg::Gap.chain(text(mark).lay(call(rule))), rule),
{
    let inner = text(mark).lay(call(rule));
    let a = Peg::Gap.chain(inner);
    assert forall|pos: nat, calls: nat|
        pos <= input.len() && (#[trigger] matched(language, input, a, pos, calls)) is Some && (matched(
            language,
            input,
            a,
            pos,
            calls,
        )->0).1.len() <= usize::MAX implies all_are(
        top_rules((matched(language, input, a, pos, calls)->0).1),
        rule,
    ) by {
        let (p, c) = lemma_behind_gap(language, input, inner, pos, calls);
        let (x, none, at, d, second) = lemma_lay(language, input, text(mark), call(rule), p, c);
        lemma_no_tops(none);
        lemma_called(language, input, rule, at, d);
        assert(top_rules(none) + top_rules(second) =~= seq![rule]);
    }
}

/// So does a text and then a rule if it comes, behind a gap.
proof fn lemma_yields_after_maybe(language: Language, input: Seq<char>, mark: &'static str, rule: Rule)
    requires
        input.len() <= usize::MAX,
        !silent(rule),
    ensures
        yields_only(language, input, Peg::Gap.chain(text(mark).lay_maybe(call(rule))), rule),
{
    let inner = text(mark).lay_maybe(call(rule));
    let a = Peg::Gap.chain(inner);
    assert forall|pos: nat, calls: nat|
        pos <= input.len() && (#[trigger] matched(language, input, a, pos, calls)) is Some && (matched(
            language,
            input,
            a,
            pos,
            calls,
        )->0).1.len() <= usize::MAX implies all_are(
        top_rules((matched(language, input, a, pos, calls)->0).1),
        rule,
    ) by {
        let (p, c) = lemma_behind_gap(language, input, inner, pos, calls);
        let maybe = Peg::Gap.chain(call(rule)).maybe();
        let (x, none, d, second) = lemma_chain(language, input, text(mark), maybe, p, c);
        lemma_no_tops(none);
        assert(matched(language, input, maybe, x, d) is Some);
        if matched(language, input, Peg::Gap.chain(call(rule)), x, d) is Some {
            let (at, f) = lemma_behind_gap(language, input, call(rule), x, d);
            lemma_called(language, input, rule, at, f);
            assert(top_rules(none) + top_rules(second) =~= seq![rule]);
        } else {
            lemma_no_tops(second);
            assert(top_rules(none) + top_rules(second) =~= Seq::<Rule>::empty());
        }
    }
}

/// Below a step of a path stand a relationship and a node.
pub proof fn lemma_shape_of_step(t: Parsed, i: usize)
    requires
        well_parsed(t),
        t.language == Language::CypherQl,
        i < t.nodes.len(),
        t.rule(i) == Rule::PatternElementChain,
    ensures
        top_rules(below(t, i)) == seq![Rule::RelationshipPattern, Rule::NodePattern],
{
    let calls = lemma_match_of(t, i);
    let pos = t.nodes[i as int].start as nat;
    let (p, first, at, d, second) = lemma_lay(
        t.language,
        t.input,
        call(Rule::RelationshipPattern),
        call(Rule::NodePattern),
        pos,
        calls,
    );
    lemma_called(t.language, t.input, Rule::RelationshipPattern, pos, calls);
    lemma_called(t.language, t.input, Rule::NodePattern, at, d);
    assert(top_rules(first) + top_rules(second) =~= seq![Rule::RelationshipPattern, Rule::NodePattern]);
}

/// Below a path stand a node and then steps, or a path in brackets.
pub proof fn lemma_shape_of_path(t: Parsed, i: usize) -> (steps: Seq<Rule>)
    requires
        well_parsed(t),
        t.language == Language::CypherQl,
        i < t.nodes.len(),
        t.rule(i) == Rule::PatternElement,
    ensures
        all_are(steps, Rule::PatternElementChain),
        top_rules(below(t, i)) == seq![Rule::NodePattern] + steps || top_rules(below(t, i)) == seq![
            Rule::PatternElement,
        ],
{
    let calls = lemma_match_of(t, i);
    let pos = t.nodes[i as int].start as nat;
    let a = call(Rule::NodePattern).lay_many(call(Rule::PatternElementChain));
    let opened = text("(").lay(call(Rule::PatternElement));
    let b = opened.lay(text(")"));
    assert(body(t.language, t.rule(i)) == a.or(b));
    if matched(t.language, t.input, a, pos, calls) is Some {
        lemma_yields_call(t.language, t.input, Rule::PatternElementChain);
        lemma_one_and_more(
            t.language,
            t.input,
            Rule::NodePattern,
            call(Rule::PatternElementChain),
            Rule::PatternElementChain,
            pos,
            calls,
        )
    } else {
        let (p, first, at, d, second) = lemma_lay(t.language, t.input, opened, text(")"), pos, calls);
        lemma_no_tops(second);
        let (x, none, y, f, inner) = lemma_lay(t.language, t.input, text("("), call(Rule::PatternElement), pos, calls);
        lemma_no_tops(none);
        lemma_called(t.language, t.input, Rule::PatternElement, y, f);
        assert(top_rules(first) =~= seq![Rule::PatternElement]);
        assert(top_rules(first) + top_rules(second) =~= seq![Rule::PatternElement]);
        Seq::empty()
    }
}

/// Below a pattern without a name stands a path.
pub proof fn lemma_shape_of_part(t: Parsed, i: usize)
    requires
        well_parsed(t),
        t.language == Language::CypherQl,
        i < t.nodes.len(),
        t.rule(i) == Rule::AnonymousPatternPart,
    ensures
        top_rules(below(t, i)) == seq![Rule::PatternElement],
{
    let calls = lemma_match_of(t, i);
    let pos = t.nodes[i as int].start as nat;
    lemma_called(t.language, t.input, Rule::PatternElement, pos, calls);
}

/// Below a pattern stands one without a name.
pub proof fn lemma_shape_of_named_part(t: Parsed, i: usize)
    requires
        well_parsed(t),
        t.language == Language::CypherQl,
        i < t.nodes.len(),
        t.rule(i) == Rule::PatternPart,
    ensures
        top_rules(below(t, i)).contains(Rule::AnonymousPatternPart),
{
    let calls = lemma_match_of(t, i);
    let pos = t.nodes[i as int].start as nat;
    let name = call(Rule::Identifier).lay(text("=")).chain(Peg::Gap).maybe();
    assert(body(t.language, t.rule(i)) == name.chain(call(Rule::AnonymousPatternPart)));
    let (p, first, c, second) = lemma_chain(
        t.language,
        t.input,
        name,
        call(Rule::AnonymousPatternPart),
        pos,
        calls,
    );
    lemma_called(t.language, t.input, Rule::AnonymousPatternPart, p, c);
    let all = top_rules(below(t, i));
    assert(all[top_rules(first).len() as int] == Rule::AnonymousPatternPart);
}

/// Below a triple pattern stand a subject and then lists of predicates and
/// objects.
pub proof fn lemma_shape_of_triples(t: Parsed, i: usize) -> (more: Seq<Rule>)
    requires
        well_parsed(t),
        t.language == Language::CqelsQl,
        i < t.nodes.len(),
        t.rule(i) == Rule::TriplePattern,
    ensures
        all_are(more, Rule::PredicateObjectList),
        more.len() >= 1,
        top_rules(below(t, i)) == seq![Rule::Subject] + more,
{
    let calls = lemma_match_of(t, i);
    let pos = t.nodes[i as int].start as nat;
    let list = call(Rule::PredicateObjectList);
    let start = call(Rule::Subject).lay(list);
    let mark = text(";").lay_maybe(list);
    let lists = start.lay_many(mark);
    let stop = Peg::Gap.chain(text(".")).maybe();
    assert(body(t.language, t.rule(i)) == lists.chain(stop));
    let (p, front, c, last) = lemma_chain(t.language, t.input, lists, stop, pos, calls);
    assert(last.len() == 0) by {
        assert(matched(t.language, t.input, stop, p, c) is Some);
        if matched(t.language, t.input, Peg::Gap.chain(text(".")), p, c) is Some {
            let (at, d) = lemma_behind_gap(t.language, t.input, text("."), p, c);
        }
    }
    lemma_no_tops(last);
    let (q, head, d, tail) = lemma_chain(t.language, t.input, start, Peg::Gap.chain(mark).many(), pos, calls);
    lemma_yields_after_maybe(t.language, t.input, ";", Rule::PredicateObjectList);
    lemma_many(t.language, t.input, Peg::Gap.chain(mark), Rule::PredicateObjectList, q, d);
    let (r, subject, at, f, first) = lemma_lay(t.language, t.input, call(Rule::Subject), list, pos, calls);
    lemma_called(t.language, t.input, Rule::Subject, pos, calls);
    lemma_called(t.language, t.input, Rule::PredicateObjectList, at, f);
    let more = seq![Rule::PredicateObjectList] + top_rules(tail);
    assert(top_rules(head) =~= seq![Rule::Subject, Rule::PredicateObjectList]);
    assert(top_rules(below(t, i)) =~= seq![Rule::Subject] + more);
    assert forall|k: int| 0 <= k < more.len() implies #[trigger] more[k] == Rule::PredicateObjectList by {
        if k > 0 {
            assert(more[k] == top_rules(tail)[k - 1]);
        }
    }
    more
}

/// Below a list of a predicate and its objects stand the predicate and the
/// objects.
pub proof fn lemma_shape_of_predicate(t: Parsed, i: usize)
    requires
        well_parsed(t),
        t.language == Language::CqelsQl,
        i < t.nodes.len(),
        t.rule(i) == Rule::PredicateObjectList,
    ensures
        top_rules(below(t, i)) == seq![Rule::Predicate, Rule::ObjectList],
{
    let calls = lemma_match_of(t, i);
    let pos = t.nodes[i as int].start as nat;
    let (p, first, at, d, second) = lemma_lay(
        t.language,
        t.input,
        call(Rule::Predicate),
        call(Rule::ObjectList),
        pos,
        calls,
    );
    lemma_called(t.language, t.input, Rule::Predicate, pos, calls);
    lemma_called(t.language, t.input, Rule::ObjectList, at, d);
    assert(top_rules(first) + top_rules(second) =~= seq![Rule::Predicate, Rule::ObjectList]);
}

/// Below a list of objects stand objects, at least one.
pub proof fn lemma_shape_of_objects(t: Parsed, i: usize)
    requires
        well_parsed(t),
        t.language == Language::CqelsQl,
        i < t.nodes.len(),
        t.rule(i) == Rule::ObjectList,
    ensures
        top_rules(below(t, i)).len() >= 1,
        all_are(top_rules(below(t, i)), Rule::Object),
{
    let calls = lemma_match_of(t, i);
    let pos = t.nodes[i as int].start as nat;
    let a = text(",").lay(call(Rule::Object));
    lemma_yields_after(t.language, t.input, ",", Rule::Object);
    let more = lemma_one_and_more(t.language, t.input, Rule::Object, a, Rule::Object, pos, calls);
    let all = top_rules(below(t, i));
    assert forall|k: int| 0 <= k < all.len() implies #[trigger] all[k] == Rule::Object by {
        if k > 0 {
            assert(all[k] == more[k - 1]);
        }
    }
}

/// The rules at the top of a match, where the expression leaves no choice.
pub open spec fn plain_tops(e: Peg) -> Option<Seq<Rule>>
    decreases e,
{
    match e {
        Peg::Word(t) => Some(Seq::empty()),
        Peg::Text(t) => Some(Seq::empty()),
        Peg::AnyCase(t) => Some(Seq::empty()),
        Peg::One(c) => Some(Seq::empty()),
        Peg::Gap => Some(Seq::empty()),
        Peg::End => Some(Seq::empty()),
        Peg::Chain(a, b) => match (plain_tops(*a), plain_tops(*b)) {
            (Some(x), Some(y)) => Some(x + y),
            _ => None,
        },
        Peg::Call(rule) => if silent(rule) {
            None
        } else {
            Some(seq![rule])
        },
        _ => None,
    }
}

/// The nodes at the top of a match are those that the expression calls, where it
/// leaves no choice.
pub proof fn lemma_plain(language: Language, input: Seq<char>, e: Peg, pos: nat, calls: nat)
    requires
        pos <= input.len() <= usize::MAX,
        plain_tops(e) is Some,
        matched(language, input, e, pos, calls) is Some,
        (matched(language, input, e, pos, calls)->0).1.len() <= usize::MAX,
    ensures
        top_rules((matched(language, input, e, pos, calls)->0).1) == plain_tops(e)->0,
    decreases e,
{
    match e {
        Peg::Chain(a, b) => {
            let (p, first, c, second) = lemma_chain(language, input, *a, *b, pos, calls);
            lemma_plain(language, input, *a, pos, calls);
            lemma_plain(language, input, *b, p, c);
        },
        Peg::Call(rule) => {
            lemma_called(language, input, rule, pos, calls);
        },
        _ => {
            lemma_no_tops((matched(language, input, e, pos, calls)->0).1);
        },
    }
}

/// What is below a node whose rule leaves no choice.
pub proof fn lemma_shape_plain(t: Parsed, i: usize)
    requires
        well_parsed(t),
        i < t.nodes.len(),
        plain_tops(body(t.language, t.rule(i))) is Some,
    ensures
        top_rules(below(t, i)) == plain_tops(body(t.language, t.rule(i)))->0,
{
    let calls = lemma_match_of(t, i);
    lemma_plain(t.language, t.input, body(t.language, t.rule(i)), t.nodes[i as int].start as nat, calls);
}

/// The rules at the top of `a` and then, behind a gap, of `b` if it comes.
pub proof fn lemma_lay_maybe(language: Language, input: Seq<char>, a: Peg, b: Peg, pos: nat, calls: nat) -> (r: (
    nat,
    Seq<Node>,
    Seq<Node>,
))
    requires
        pos <= input.len() <= usize::MAX,
        matched(language, input, a.lay_maybe(b), pos, calls) is Some,
        (matched(language, input, a.lay_maybe(b), pos, calls)->0).1.len() <= usize::MAX,
        plain_tops(b) is Some,
    ensures
        pos <= r.0 <= input.len(),
        matched(language, input, a, pos, calls) == Some((r.0, r.1)),
        r.1.len() <= usize::MAX,
        top_rules((matched(language, input, a.lay_maybe(b), pos, calls)->0).1) == top_rules(r.1) + top_rules(r.2),
        top_rules(r.2) == plain_tops(b)->0 || top_rules(r.2) == Seq::<Rule>::empty(),
{
    let inner = Peg::Gap.chain(b);
    let (p, first, c, second) = lemma_chain(language, input, a, inner.maybe(), pos, calls);
    assert(matched(language, input, inner.maybe(), p, c) is Some);
    if matched(language, input, inner, p, c) is Some {
        let (at, d) = lemma_behind_gap(language, input, b, p, c);
        lemma_plain(language, input, b, at, d);
    } else {
        lemma_no_tops(second);
    }
    (p, first, second)
}

/// An expression that begins with a word or a text has it where it matches.
pub open spec fn first_mark(e: Peg) -> Option<Peg>
    decreases e,
{
    match e {
        Peg::Word(t) => Some(e),
        Peg::Text(t) => Some(e),
        Peg::Chain(a, b) => first_mark(*a),
        _ => None,
    }
}

/// The word or text at the start of a match.
pub proof fn lemma_first_mark(language: Language, input: Seq<char>, e: Peg, pos: nat, calls: nat)
    requires
        pos <= input.len(),
        matched(language, input, e, pos, calls) is Some,
    ensures
        first_mark(e) matches Some(Peg::Word(w)) ==> crate::parser::peg::any_case_at(input, pos as int, w@),
        first_mark(e) matches Some(Peg::Text(w)) ==> crate::parser::peg::text_at(input, pos as int, w@),
    decreases e,
{
    if let Peg::Chain(a, b) = e {
        lemma_first_mark(language, input, *a, pos, calls);
    }
}

/// An expression that ends with a text.
pub open spec fn last_mark(e: Peg) -> Option<&'static str>
    decreases e,
{
    match e {
        Peg::Text(t) => Some(t),
        Peg::Chain(a, b) => last_mark(*b),
        _ => None,
    }
}

/// The text at the end of a match.
pub proof fn lemma_last_mark(language: Language, input: Seq<char>, e: Peg, pos: nat, calls: nat)
    requires
        pos <= input.len(),
        matched(language, input, e, pos, calls) is Some,
    ensures
        last_mark(e) matches Some(w) ==> ({
            let q = (matched(language, input, e, pos, calls)->0).0;
            w@.len() <= q <= input.len() && crate::parser::peg::text_at(input, q - w@.len(), w@)
        }),
    decreases e,
{
    if let Peg::Chain(a, b) = e {
        let (p, first) = matched(language, input, *a, pos, calls)->0;
        lemma_last_mark(language, input, *b, p, calls_at(pos, p, calls));
    }
}

} // verus!
