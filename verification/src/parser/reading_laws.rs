//! What the texts, numbers, spans and windows of a query stand for.
use vstd::prelude::*;

use crate::parser::ast::{Duration, WindowSpec, WindowType};
use crate::parser::cypherql_spec::unquoted;
use crate::parser::error::ErrorView;
use crate::parser::grammar::{body, Language, Rule};
use crate::parser::peg::{any_case_at, call, word};
use crate::parser::shapes::{
    first_mark, lemma_first_mark, lemma_lay_maybe, lemma_plain, lemma_shape_plain, plain_tops,
};
use crate::parser::tree::{
    collected, counts, duration_at, duration_in, durations, found_before, found_from, lowercase, number_at, trimmed,
    unbracketed, unit_at, window_at, without_leading, without_trailing, Parsed,
};
use crate::parser::tree_laws::{below, lemma_children, lemma_match_of, top_rules, well_parsed};
use crate::text::{decimal_digits, is_number, is_white_space, number_upto, number_value};

verus! {

/// A number that is written in decimal digits is read back.
pub proof fn law_number_is_read_back(n: nat, limit: nat)
    requires
        n <= limit,
    ensures
        number_upto(decimal_digits(n), limit) == Some(n),
    decreases n,
{
    let s = decimal_digits(n);
    if n < 10 {
        assert(s.drop_last() =~= Seq::<char>::empty());
        assert(number_value(s.drop_last()) == 0);
        assert(s.last() as u32 == '0' as u32 + n);
    } else {
        let front = decimal_digits(n / 10);
        law_number_is_read_back(n / 10, limit);
        assert(s.drop_last() =~= front);
        assert(s.last() as u32 == '0' as u32 + n % 10);
        assert forall|i: int| 0 <= i < s.len() implies '0' <= #[trigger] s[i] && s[i] <= '9' by {
            if i < front.len() {
                assert(s[i] == front[i]);
            }
        }
    }
}

/// How many milliseconds a unit has.
pub open spec fn unit_millis(unit: Seq<char>) -> Option<int> {
    if unit == "ms"@ {
        Some(1)
    } else if unit == "s"@ {
        Some(1000)
    } else if unit == "m"@ {
        Some(60_000)
    } else if unit == "h"@ {
        Some(3_600_000)
    } else if unit == "d"@ {
        Some(86_400_000)
    } else {
        None
    }
}

/// A span has as many milliseconds as its number of units. It is there where the
/// unit is known and the seconds fit.
pub proof fn law_span_is_number_of_units(value: u64, unit: Seq<char>)
    ensures
        duration_in(value, unit) is Ok <==> unit_millis(unit) is Some && value * unit_millis(unit)->0 / 1000
            <= u64::MAX,
        duration_in(value, unit) matches Ok(d) ==> d.millis < 1000 && d.secs * 1000 + d.millis == value * unit_millis(
            unit,
        )->0,
{
    reveal_strlit("ms");
    reveal_strlit("s");
    reveal_strlit("m");
    reveal_strlit("h");
    reveal_strlit("d");
    assert("ms"@.len() == 2 && "s"@.len() == 1 && "m"@.len() == 1 && "h"@.len() == 1 && "d"@.len() == 1);
    assert("s"@[0] == 's' && "m"@[0] == 'm' && "h"@[0] == 'h' && "d"@[0] == 'd');
}

/// The text of a span of whole seconds, or of less than a second, stands for the
/// span: its number of its unit makes it.
pub proof fn law_span_text_stands_for_it(d: Duration) -> (r: (u64, Seq<char>))
    requires
        d.millis < 1000,
        d.secs > 0 ==> d.millis == 0,
    ensures
        d.rendered() == decimal_digits(r.0 as nat) + r.1,
        duration_in(r.0, r.1) == Ok::<Duration, ErrorView>(d),
{
    reveal_strlit("ms");
    reveal_strlit("s");
    reveal_strlit("m");
    reveal_strlit("h");
    reveal_strlit("d");
    assert("ms"@.len() == 2 && "s"@.len() == 1 && "m"@.len() == 1 && "h"@.len() == 1 && "d"@.len() == 1);
    assert("s"@[0] == 's' && "m"@[0] == 'm' && "h"@[0] == 'h' && "d"@[0] == 'd');
    let s = d.secs;
    if s > 0 && s % 86400 == 0 {
        ((s / 86400) as u64, "d"@)
    } else if s > 0 && s % 3600 == 0 {
        ((s / 3600) as u64, "h"@)
    } else if s > 0 && s % 60 == 0 {
        ((s / 60) as u64, "m"@)
    } else if s > 0 {
        (s, "s"@)
    } else {
        (d.millis, "ms"@)
    }
}

/// What stands in brackets is given without them.
pub proof fn law_brackets_are_taken_off(inner: Seq<char>)
    requires
        inner.len() > 0 ==> inner[0] != '<' && inner.last() != '>',
    ensures
        unbracketed(seq!['<'] + inner + seq!['>']) == inner,
        unbracketed(inner) == inner,
{
    let s = seq!['<'] + inner + seq!['>'];
    let tail = inner + seq!['>'];
    assert(s.skip(1) =~= tail);
    assert(without_leading(tail, '<') == tail);
    assert(without_leading(s, '<') == without_leading(s.skip(1), '<'));
    assert(tail.drop_last() =~= inner);
    assert(without_trailing(tail, '>') == without_trailing(tail.drop_last(), '>'));
}

/// A mark behind a text is taken off.
pub proof fn law_trailing_mark_is_taken_off(s: Seq<char>, c: char)
    requires
        s.len() > 0 ==> s.last() != c,
    ensures
        without_trailing(s.push(c), c) == s,
{
    assert(s.push(c).drop_last() =~= s);
    assert(without_trailing(s.push(c), c) == without_trailing(s.push(c).drop_last(), c));
}

/// What stands in quotes of one kind is given without them.
pub proof fn law_quotes_are_taken_off(inner: Seq<char>)
    ensures
        unquoted(seq!['\''] + inner + seq!['\'']) == inner,
        unquoted(seq!['"'] + inner + seq!['"']) == inner,
        inner.len() > 0 && inner[0] != '\'' && inner[0] != '"' ==> unquoted(inner) == inner,
{
    let a = seq!['\''] + inner + seq!['\''];
    let b = seq!['"'] + inner + seq!['"'];
    assert(a.subrange(1, a.len() - 1) =~= inner);
    assert(b.subrange(1, b.len() - 1) =~= inner);
}

/// A trimmed text has no white space at its ends, and what is cut off is white
/// space.
pub proof fn law_only_white_space_is_trimmed(s: Seq<char>) -> (r: (int, int))
    ensures
        0 <= r.0 <= r.1 <= s.len(),
        trimmed(s) == s.subrange(r.0, r.1),
        forall|i: int| 0 <= i < r.0 ==> is_white_space(#[trigger] s[i]),
        forall|i: int| r.1 <= i < s.len() ==> is_white_space(#[trigger] s[i]),
        r.0 < r.1 ==> !is_white_space(s[r.0]) && !is_white_space(s[r.1 - 1]),
    decreases s.len(),
{
    if s.len() > 0 && is_white_space(s[0]) {
        let rest = s.skip(1);
        let (a, b) = law_only_white_space_is_trimmed(rest);
        assert(rest.subrange(a, b) =~= s.subrange(a + 1, b + 1));
        assert forall|i: int| 0 <= i < a + 1 implies is_white_space(#[trigger] s[i]) by {
            if i > 0 {
                assert(rest[i - 1] == s[i]);
            }
        }
        assert forall|i: int| b + 1 <= i < s.len() implies is_white_space(#[trigger] s[i]) by {
            assert(rest[i - 1] == s[i]);
        }
        (a + 1, b + 1)
    } else if s.len() > 0 && is_white_space(s.last()) {
        let rest = s.drop_last();
        let (a, b) = law_only_white_space_is_trimmed(rest);
        assert(rest.subrange(a, b) =~= s.subrange(a, b));
        assert forall|i: int| 0 <= i < a implies is_white_space(#[trigger] s[i]) by {
            assert(rest[i] == s[i]);
        }
        assert forall|i: int| b <= i < s.len() implies is_white_space(#[trigger] s[i]) by {
            if i < rest.len() {
                assert(rest[i] == s[i]);
            }
        }
        (a, b)
    } else {
        assert(s.subrange(0, s.len() as int) =~= s);
        (0, s.len() as int)
    }
}

/// The first occurrence of a character has none before it.
pub proof fn law_first_occurrence(s: Seq<char>, c: char, from: int)
    requires
        0 <= from,
    ensures
        match found_from(s, c, from) {
            Some(i) => from <= i < s.len() && s[i] == c && forall|j: int| from <= j < i ==> #[trigger] s[j] != c,
            None => forall|j: int| from <= j < s.len() ==> #[trigger] s[j] != c,
        },
    decreases s.len() - from,
{
    if from < s.len() && s[from] != c {
        law_first_occurrence(s, c, from + 1);
    }
}

/// The last occurrence of a character has none behind it.
pub proof fn law_last_occurrence(s: Seq<char>, c: char, n: int)
    requires
        n <= s.len(),
    ensures
        match found_before(s, c, n) {
            Some(i) => 0 <= i < n && s[i] == c && forall|j: int| i < j < n ==> #[trigger] s[j] != c,
            None => forall|j: int| 0 <= j < n ==> #[trigger] s[j] != c,
        },
    decreases n,
{
    if n > 0 && s[n - 1] != c {
        law_last_occurrence(s, c, n - 1);
    }
}

/// A span that is read has as many milliseconds as the number that is written
/// there makes of the unit that is written behind it.
pub proof fn law_span_is_as_written(t: Parsed, i: usize) -> (r: (usize, usize))
    requires
        well_parsed(t),
        i < t.nodes.len(),
        t.rule(i) == Rule::Duration,
        duration_at(t, i) is Ok,
    ensures
        i < r.0 && r.0 < r.1 && r.1 < t.nodes.len(),
        t.nodes[i as int].start <= t.nodes[r.0 as int].start,
        t.nodes[r.0 as int].end <= t.nodes[r.1 as int].start,
        t.nodes[r.1 as int].end <= t.nodes[i as int].end,
        ({
            let number = t.input.subrange(t.nodes[r.0 as int].start as int, t.nodes[r.0 as int].end as int);
            let unit = t.input.subrange(t.nodes[r.1 as int].start as int, t.nodes[r.1 as int].end as int);
            let known = match t.language {
                Language::CqelsQl => unit,
                Language::CypherQl => lowercase(unit),
            };
            let d = duration_at(t, i)->Ok_0;
            &&& is_number(number)
            &&& unit_millis(known) is Some
            &&& d.millis < 1000
            &&& d.secs * 1000 + d.millis == number_value(number) * unit_millis(known)->0
        }),
{
    lemma_children(t, i);
    reveal_with_fuel(plain_tops, 8);
    lemma_shape_plain(t, i);
    let cs = t.children(i);
    let rules = top_rules(below(t, i));
    assert(rules =~= seq![Rule::Integer, Rule::TimeUnit]);
    assert(t.rule(cs[0]) == rules[0] && t.rule(cs[1]) == rules[1]);
    assert(cs =~= seq![cs[0], cs[1]]);
    lemma_pair_filter(cs[0], cs[1], t.has_rule(Rule::Integer));
    lemma_pair_filter(cs[0], cs[1], t.has_rule(Rule::TimeUnit));
    assert(cs[0] < cs[1]);
    let c0 = lemma_match_of(t, cs[0]);
    let c1 = lemma_match_of(t, cs[1]);
    let value = number_at(t, cs[0], "invalid duration value: "@)->Ok_0;
    law_span_is_number_of_units(value, unit_at(t, i));
    (cs[0], cs[1])
}

/// The filter of two elements.
pub proof fn lemma_pair_filter<A>(a: A, b: A, p: spec_fn(A) -> bool)
    ensures
        p(a) && p(b) ==> seq![a, b].filter(p) == seq![a, b],
        p(a) && !p(b) ==> seq![a, b].filter(p) == seq![a],
        !p(a) && p(b) ==> seq![a, b].filter(p) == seq![b],
        p(a) ==> seq![a].filter(p) == seq![a],
        !p(a) ==> seq![a].filter(p) == Seq::<A>::empty(),
{
    reveal(Seq::filter);
    let one = seq![a];
    assert(one.drop_last() =~= Seq::<A>::empty());
    assert(one.drop_last().filter(p) =~= Seq::<A>::empty());
    assert(one.filter(p) =~= if p(a) {
        seq![a]
    } else {
        Seq::<A>::empty()
    });
    let two = seq![a, b];
    assert(two.drop_last() =~= one);
    assert(two.last() == b);
    assert(p(a) && p(b) ==> two.filter(p) =~= seq![a, b]);
    assert(p(a) && !p(b) ==> two.filter(p) =~= seq![a]);
    assert(!p(a) && p(b) ==> two.filter(p) =~= seq![b]);
}

/// The results for one or two nodes.
pub proof fn lemma_collected_pair<V>(a: usize, b: usize, f: spec_fn(usize) -> Result<V, ErrorView>)
    ensures
        collected(seq![a], f) is Ok <==> f(a) is Ok,
        f(a) matches Ok(x) ==> collected(seq![a], f) == Ok::<Seq<V>, ErrorView>(seq![x]),
        collected(seq![a, b], f) is Ok <==> f(a) is Ok && f(b) is Ok,
        f(a) matches Ok(x) ==> f(b) matches Ok(y) ==> collected(seq![a, b], f) == Ok::<Seq<V>, ErrorView>(seq![x, y]),
{
    let none = Seq::<usize>::empty();
    assert(seq![a].drop_last() =~= none);
    assert(seq![a].last() == a);
    assert(collected(none, f) == Ok::<Seq<V>, ErrorView>(Seq::empty()));
    assert(seq![a, b].drop_last() =~= seq![a]);
    assert(seq![a, b].last() == b);
    if let Ok(x) = f(a) {
        assert(Seq::<V>::empty().push(x) =~= seq![x]);
        assert(collected(seq![a], f) == Ok::<Seq<V>, ErrorView>(seq![x]));
        if let Ok(y) = f(b) {
            assert(seq![x].push(y) =~= seq![x, y]);
        }
    }
}

/// A window with the keyword of a node `c`, and with the parts below it.
pub open spec fn window_from(t: Parsed, w: WindowSpec, c: usize, parts: Seq<usize>) -> bool {
    let start = t.nodes[c as int].start as int;
    &&& parts.len() <= 2
    &&& forall|k: int| 0 <= k < parts.len() ==> c < #[trigger] parts[k] && parts[k] < t.nodes.len()
    &&& parts.len() == 2 ==> t.nodes[parts[0] as int].end <= t.nodes[parts[1] as int].start
    &&& match w.window_type {
        WindowType::Now => any_case_at(t.input, start, "NOW"@) && parts.len() == 0 && w.duration is None
            && w.step is None && w.triple_count is None && w.triple_slide is None,
        WindowType::Range => any_case_at(t.input, start, "RANGE"@) && parts.len() == 1 && t.rule(parts[0])
            == Rule::Duration && duration_at(t, parts[0]) is Ok && w.duration == Some(
            duration_at(t, parts[0])->Ok_0,
        ) && w.step is None && w.triple_count is None && w.triple_slide is None,
        WindowType::Slide => (any_case_at(t.input, start, "RANGE"@) || any_case_at(t.input, start, "SLIDE"@))
            && parts.len() == 2 && t.rule(parts[0]) == Rule::Duration && t.rule(parts[1]) == Rule::Duration
            && duration_at(t, parts[0]) is Ok && duration_at(t, parts[1]) is Ok && w.duration == Some(
            duration_at(t, parts[0])->Ok_0,
        ) && w.step == Some(duration_at(t, parts[1])->Ok_0) && w.triple_count is None && w.triple_slide is None,
        WindowType::Triples => any_case_at(t.input, start, "TRIPLES"@) && parts.len() == 1 && t.rule(parts[0])
            == Rule::Integer && w.duration is None && w.step is None && w.triple_count is Some && w.triple_count->0
            == number_value(t.text(parts[0])) && w.triple_slide is None,
        WindowType::TriplesSlide => any_case_at(t.input, start, "TRIPLES"@) && parts.len() == 2 && t.rule(parts[0])
            == Rule::Integer && t.rule(parts[1]) == Rule::Integer && w.duration is None && w.step is None
            && w.triple_count is Some && w.triple_count->0 == number_value(t.text(parts[0])) && w.triple_slide is Some
            && w.triple_slide->0 == number_value(t.text(parts[1])),
    }
}

/// What stands below the nodes of the kinds of windows.
proof fn lemma_window_shape(t: Parsed, c: usize, head: &'static str, rule: Rule, tail: &'static str) -> (more: Seq<Rule>)
    requires
        well_parsed(t),
        c < t.nodes.len(),
        rule == Rule::Duration || rule == Rule::Integer,
        body(t.language, t.rule(c)) == word(head).lay(call(rule)).lay_maybe(word(tail).lay(call(rule))),
    ensures
        top_rules(below(t, c)) == seq![rule] + more,
        more == seq![rule] || more == Seq::<Rule>::empty(),
        any_case_at(t.input, t.nodes[c as int].start as int, head@),
{
    let calls = lemma_match_of(t, c);
    let start = t.nodes[c as int].start as nat;
    let a = word(head).lay(call(rule));
    let b = word(tail).lay(call(rule));
    reveal_with_fuel(first_mark, 8);
    reveal_with_fuel(plain_tops, 8);
    lemma_first_mark(t.language, t.input, a.lay_maybe(b), start, calls);
    assert(plain_tops(a)->0 =~= seq![rule]);
    assert(plain_tops(b)->0 =~= seq![rule]);
    let (p, x, y) = lemma_lay_maybe(t.language, t.input, a, b, start, calls);
    lemma_plain(t.language, t.input, a, start, calls);
    top_rules(y)
}

proof fn lemma_slide_shape(t: Parsed, c: usize)
    requires
        well_parsed(t),
        c < t.nodes.len(),
        t.rule(c) == Rule::WindowSlide || t.rule(c) == Rule::WindowNow,
    ensures
        t.rule(c) == Rule::WindowSlide ==> top_rules(below(t, c)) == seq![Rule::Duration] + seq![Rule::Duration]
            && any_case_at(t.input, t.nodes[c as int].start as int, "SLIDE"@),
        t.rule(c) == Rule::WindowNow ==> top_rules(below(t, c)) == Seq::<Rule>::empty() && any_case_at(
            t.input,
            t.nodes[c as int].start as int,
            "NOW"@,
        ),
{
    let calls = lemma_match_of(t, c);
    let start = t.nodes[c as int].start as nat;
    let e = body(t.language, t.rule(c));
    reveal_with_fuel(first_mark, 8);
    reveal_with_fuel(plain_tops, 10);
    lemma_first_mark(t.language, t.input, e, start, calls);
    assert(t.rule(c) == Rule::WindowSlide ==> plain_tops(e)->0 =~= seq![Rule::Duration] + seq![Rule::Duration]);
    lemma_shape_plain(t, c);
}

proof fn lemma_range_shape(t: Parsed, c: usize) -> (more: Seq<Rule>)
    requires
        well_parsed(t),
        c < t.nodes.len(),
        t.rule(c) == Rule::WindowRange,
    ensures
        top_rules(below(t, c)) == seq![Rule::Duration] + more,
        more == seq![Rule::Duration] || more == Seq::<Rule>::empty(),
        any_case_at(t.input, t.nodes[c as int].start as int, "RANGE"@),
{
    lemma_window_shape(t, c, "RANGE", Rule::Duration, "STEP")
}

proof fn lemma_count_shape(t: Parsed, c: usize) -> (more: Seq<Rule>)
    requires
        well_parsed(t),
        c < t.nodes.len(),
        t.rule(c) == Rule::WindowTriples,
    ensures
        top_rules(below(t, c)) == seq![Rule::Integer] + more,
        more == seq![Rule::Integer] || more == Seq::<Rule>::empty(),
        any_case_at(t.input, t.nodes[c as int].start as int, "TRIPLES"@),
{
    lemma_window_shape(t, c, "TRIPLES", Rule::Integer, "SLIDE")
}

/// What the parts of a window are.
proof fn lemma_parts_in_order(t: Parsed, c: usize)
    requires
        well_parsed(t),
        c < t.nodes.len(),
    ensures
        forall|k: int|
            0 <= k < t.children(c).len() ==> c < #[trigger] t.children(c)[k] && t.children(c)[k] < t.nodes.len(),
        t.children(c).len() == 2 ==> t.nodes[t.children(c)[0] as int].end <= t.nodes[t.children(c)[1] as int].start,
{
    lemma_children(t, c);
    if t.children(c).len() == 2 {
        assert(t.children(c)[0] < t.children(c)[1]);
    }
}

#[verifier::spinoff_prover]
#[verifier::rlimit(40)]
proof fn lemma_window_of_spans(t: Parsed, i: usize, c: usize)
    requires
        well_parsed(t),
        c < t.nodes.len(),
        t.child(i, 0) == Some(c),
        t.rule(c) == Rule::WindowRange || t.rule(c) == Rule::WindowSlide,
        window_at(t, i) is Ok,
    ensures
        window_from(t, window_at(t, i)->Ok_0, c, t.children(c)),
{
    let cs = t.children(c);
    lemma_parts_in_order(t, c);
    if t.rule(c) == Rule::WindowRange {
        let more = lemma_range_shape(t, c);
        lemma_window_parts(t, c, Rule::Duration, more);
    } else {
        lemma_slide_shape(t, c);
        lemma_window_parts(t, c, Rule::Duration, seq![Rule::Duration]);
    }
    let ds = lemma_spans(t, cs);
}

/// One or two spans that are read.
proof fn lemma_spans(t: Parsed, cs: Seq<usize>) -> (ds: Seq<Duration>)
    requires
        cs == seq![cs[0]] || cs == seq![cs[0], cs[1]],
        collected(cs, durations(t)) is Ok,
    ensures
        collected(cs, durations(t)) == Ok::<Seq<Duration>, ErrorView>(ds),
        ds.len() == cs.len(),
        duration_at(t, cs[0]) == Ok::<Duration, ErrorView>(ds[0]),
        cs.len() == 2 ==> duration_at(t, cs[1]) == Ok::<Duration, ErrorView>(ds[1]),
{
    if cs.len() == 2 {
        lemma_collected_pair(cs[0], cs[1], durations(t));
    } else {
        lemma_collected_pair(cs[0], cs[0], durations(t));
    }
    collected(cs, durations(t))->Ok_0
}

#[verifier::spinoff_prover]
#[verifier::rlimit(40)]
proof fn lemma_window_of_counts(t: Parsed, i: usize, c: usize)
    requires
        well_parsed(t),
        c < t.nodes.len(),
        t.child(i, 0) == Some(c),
        t.rule(c) == Rule::WindowTriples,
        window_at(t, i) is Ok,
    ensures
        window_from(t, window_at(t, i)->Ok_0, c, t.children(c)),
{
    let cs = t.children(c);
    lemma_parts_in_order(t, c);
    let more = lemma_count_shape(t, c);
    lemma_window_parts(t, c, Rule::Integer, more);
    let ns = lemma_numbers(t, cs);
}

/// One or two counts that are read.
proof fn lemma_numbers(t: Parsed, cs: Seq<usize>) -> (ns: Seq<u64>)
    requires
        cs == seq![cs[0]] || cs == seq![cs[0], cs[1]],
        collected(cs, counts(t)) is Ok,
    ensures
        collected(cs, counts(t)) == Ok::<Seq<u64>, ErrorView>(ns),
        ns.len() == cs.len(),
        ns[0] == number_value(t.text(cs[0])),
        cs.len() == 2 ==> ns[1] == number_value(t.text(cs[1])),
{
    if cs.len() == 2 {
        lemma_collected_pair(cs[0], cs[1], counts(t));
    } else {
        lemma_collected_pair(cs[0], cs[0], counts(t));
    }
    collected(cs, counts(t))->Ok_0
}

/// A window that is read is the one that is written there. It begins with its
/// keyword. Of two spans or counts that follow one another, the first is the
/// extent of the window and the second its step; a window with one has no step.
pub proof fn law_window_is_as_written(t: Parsed, i: usize) -> (r: (usize, Seq<usize>))
    requires
        well_parsed(t),
        i < t.nodes.len(),
        t.rule(i) == Rule::WindowSpec,
        window_at(t, i) is Ok,
    ensures
        i < r.0 && r.0 < t.nodes.len(),
        window_from(t, window_at(t, i)->Ok_0, r.0, r.1),
{
    lemma_parts_in_order(t, i);
    let c = t.child(i, 0)->0;
    assert(c == t.children(i)[0]);
    match t.rule(c) {
        Rule::WindowNow => {
            lemma_slide_shape(t, c);
            (c, Seq::empty())
        },
        Rule::WindowTriples => {
            lemma_window_of_counts(t, i, c);
            (c, t.children(c))
        },
        _ => {
            lemma_window_of_spans(t, i, c);
            (c, t.children(c))
        },
    }
}

/// One node of a rule, and perhaps a second.
proof fn lemma_window_parts(t: Parsed, c: usize, rule: Rule, more: Seq<Rule>)
    requires
        well_parsed(t),
        c < t.nodes.len(),
        top_rules(below(t, c)) == seq![rule] + more,
        more == seq![rule] || more == Seq::<Rule>::empty(),
    ensures
        t.children(c).len() == 1 + more.len(),
        t.children_of(c, rule) == t.children(c),
        t.children(c).len() == 1 ==> t.children(c) == seq![t.children(c)[0]],
        t.children(c).len() == 2 ==> t.children(c) == seq![t.children(c)[0], t.children(c)[1]],
        forall|k: int| 0 <= k < t.children(c).len() ==> t.rule(#[trigger] t.children(c)[k]) == rule,
{
    lemma_children(t, c);
    let cs = t.children(c);
    let rules = top_rules(below(t, c));
    assert forall|k: int| 0 <= k < cs.len() implies t.rule(#[trigger] cs[k]) == rule by {
        assert(t.rule(cs[k]) == rules[k]);
        if k > 0 {
            assert(rules[k] == more[k - 1]);
        }
    }
    if cs.len() == 2 {
        assert(cs =~= seq![cs[0], cs[1]]);
        lemma_pair_filter(cs[0], cs[1], t.has_rule(rule));
    } else {
        assert(cs =~= seq![cs[0]]);
        lemma_pair_filter(cs[0], cs[0], t.has_rule(rule));
    }
}

} // verus!
