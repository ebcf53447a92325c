//! Walking the nodes of a parsed query.
use vstd::prelude::*;

use crate::parser::ast::Duration;
use crate::parser::ast::{
    now_window, range_window, slide_window, triples_slide_window, triples_window, GraphDefinition, GraphDefinitionView,
    WindowSpec,
};
use crate::parser::error::{agrees, syntax, syntax_error, ErrorView, ParseError, ParseResult};
use crate::parser::grammar::{Language, Rule};
use crate::parser::peg::{parsed, Node, Source};
use crate::text::{is_white_space, number_upto, read_number, slice_text, to_chars, white_space};

verus! {

/// A parsed input: its characters and its nodes.
pub struct Parsed {
    pub language: Language,
    pub input: Seq<char>,
    pub nodes: Seq<Node>,
}

/// The nodes from a position to another that are not below one of them.
pub open spec fn siblings(nodes: Seq<Node>, from: int, to: int) -> Seq<usize>
    decreases
        (if from < to {
            to - from
        } else {
            0
        }),
{
    if from >= to {
        Seq::empty()
    } else {
        seq![from as usize] + siblings(nodes, from + 1 + nodes[from].size, to)
    }
}

impl Parsed {
    pub open spec fn rule(&self, i: usize) -> Rule {
        self.nodes[i as int].rule
    }

    /// Where the nodes below a node end.
    pub open spec fn below_end(&self, i: usize) -> int {
        if i + 1 + self.nodes[i as int].size <= self.nodes.len() {
            i + 1 + self.nodes[i as int].size
        } else {
            self.nodes.len() as int
        }
    }

    /// The nodes directly below a node.
    pub open spec fn children(&self, i: usize) -> Seq<usize> {
        siblings(self.nodes, i + 1, self.below_end(i))
    }

    /// The nodes of a rule directly below a node.
    pub open spec fn children_of(&self, i: usize, rule: Rule) -> Seq<usize> {
        self.children(i).filter(self.has_rule(rule))
    }

    pub open spec fn has_rule(&self, rule: Rule) -> spec_fn(usize) -> bool {
        |c: usize| self.rule(c) == rule
    }

    /// The first node of a rule directly below a node.
    pub open spec fn child_of(&self, i: usize, rule: Rule) -> Option<usize> {
        if self.children_of(i, rule).len() > 0 {
            Some(self.children_of(i, rule)[0])
        } else {
            None
        }
    }

    /// The `k`-th node directly below a node.
    pub open spec fn child(&self, i: usize, k: int) -> Option<usize> {
        if 0 <= k < self.children(i).len() {
            Some(self.children(i)[k])
        } else {
            None
        }
    }

    /// What a node matched.
    pub open spec fn text(&self, i: usize) -> Seq<char> {
        let n = self.nodes[i as int];
        if n.start <= n.end <= self.input.len() {
            self.input.subrange(n.start as int, n.end as int)
        } else {
            Seq::empty()
        }
    }

    /// What an optional node matched, nothing where there is none.
    pub open spec fn text_or_empty(&self, i: Option<usize>) -> Seq<char> {
        match i {
            Some(i) => self.text(i),
            None => Seq::empty(),
        }
    }
}

/// A parsed query.
pub struct Tree {
    pub source: Source,
    pub nodes: Vec<Node>,
}

impl View for Tree {
    type V = Parsed;

    open spec fn view(&self) -> Parsed {
        Parsed { language: self.source.language, input: self.source.input@, nodes: self.nodes@ }
    }
}

/// All are nodes, and come after another.
pub open spec fn nodes_after(t: Parsed, i: usize, s: Seq<usize>) -> bool {
    forall|j: int| 0 <= j < s.len() ==> i < #[trigger] s[j] && s[j] < t.nodes.len()
}

impl Tree {
    pub fn rule(&self, i: usize) -> (r: Rule)
        requires
            i < self@.nodes.len(),
        ensures
            r == self@.rule(i),
    {
        self.nodes[i].rule
    }

    pub fn children(&self, i: usize) -> (r: Vec<usize>)
        requires
            i < self@.nodes.len(),
        ensures
            r@ == self@.children(i),
            nodes_after(self@, i, r@),
    {
        let ghost nodes = self.nodes@;
        let size: usize = self.nodes[i].size;
        let stop: usize = if size <= self.nodes.len() - i - 1 {
            i + 1 + size
        } else {
            self.nodes.len()
        };
        let mut r: Vec<usize> = Vec::new();
        let mut at: usize = i + 1;
        assert(r@ + siblings(nodes, at as int, stop as int) =~= self@.children(i));
        while at < stop
            invariant
                nodes == self.nodes@,
                i < at,
                stop <= nodes.len(),
                r@ + siblings(nodes, at as int, stop as int) == self@.children(i),
                nodes_after(self@, i, r@),
            decreases stop - at,
        {
            let skip: usize = self.nodes[at].size;
            let ghost before = r@;
            let ghost here = at;
            r.push(at);
            if skip >= stop - at {
                proof {
                    assert(siblings(nodes, here + 1 + skip, stop as int) =~= Seq::empty());
                    assert(r@ + Seq::<usize>::empty() =~= before + (seq![here] + Seq::<usize>::empty()));
                }
                at = stop;
            } else {
                at = at + 1 + skip;
                assert(r@ + siblings(nodes, at as int, stop as int) =~= before + (seq![here] + siblings(
                    nodes,
                    at as int,
                    stop as int,
                )));
            }
        }
        assert(r@ + siblings(nodes, at as int, stop as int) =~= r@);
        r
    }

    pub fn children_of(&self, i: usize, rule: Rule) -> (r: Vec<usize>)
        requires
            i < self@.nodes.len(),
        ensures
            r@ == self@.children_of(i, rule),
            nodes_after(self@, i, r@),
    {
        let all = self.children(i);
        let ghost keeps = self@.has_rule(rule);
        let mut r: Vec<usize> = Vec::new();
        let mut k: usize = 0;
        reveal(Seq::filter);
        assert(all@.take(0).filter(keeps) =~= r@);
        while k < all.len()
            invariant
                i < self@.nodes.len(),
                keeps == self@.has_rule(rule),
                nodes_after(self@, i, all@),
                nodes_after(self@, i, r@),
                k <= all@.len(),
                r@ == all@.take(k as int).filter(keeps),
            decreases all@.len() - k,
        {
            reveal(Seq::filter);
            assert(all@.take(k + 1).drop_last() =~= all@.take(k as int));
            let c: usize = all[k];
            if self.rule(c) == rule {
                r.push(c);
            }
            k += 1;
        }
        assert(all@.take(k as int) =~= all@);
        r
    }

    pub fn child_of(&self, i: usize, rule: Rule) -> (r: Option<usize>)
        requires
            i < self@.nodes.len(),
        ensures
            r == self@.child_of(i, rule),
            r matches Some(c) ==> i < c && c < self@.nodes.len(),
    {
        let all = self.children_of(i, rule);
        if all.len() > 0 {
            Some(all[0])
        } else {
            None
        }
    }

    pub fn child(&self, i: usize, k: usize) -> (r: Option<usize>)
        requires
            i < self@.nodes.len(),
        ensures
            r == self@.child(i, k as int),
            r matches Some(c) ==> i < c && c < self@.nodes.len(),
    {
        let all = self.children(i);
        if k < all.len() {
            Some(all[k])
        } else {
            None
        }
    }

    pub fn text(&self, i: usize) -> (r: String)
        requires
            i < self@.nodes.len(),
        ensures
            r@ == self@.text(i),
    {
        let n = self.nodes[i];
        if n.start <= n.end && n.end <= self.source.input.len() {
            slice_text(self.source.input.as_slice(), n.start, n.end)
        } else {
            let r = String::new();
            assert(r@ =~= Seq::<char>::empty());
            r
        }
    }

    pub fn text_or_empty(&self, i: Option<usize>) -> (r: String)
        requires
            i matches Some(c) ==> c < self@.nodes.len(),
        ensures
            r@ == self@.text_or_empty(i),
    {
        match i {
            Some(c) => self.text(c),
            None => {
                let r = String::new();
                assert(r@ =~= Seq::<char>::empty());
                r
            },
        }
    }
}

/// Parses a text.
pub fn parse_tree(language: Language, input: &str) -> (r: Option<Tree>)
    ensures
        match parsed(language, input@) {
            None => r is None,
            Some(nodes) => r is Some && r->0@ == (Parsed { language, input: input@, nodes }),
        },
{
    let source = Source { language, input: to_chars(input) };
    match source.parse() {
        None => None,
        Some(nodes) => Some(Tree { source, nodes }),
    }
}

/// A state is led through some nodes, as long as no step fails.
pub open spec fn led<Q>(
    cs: Seq<usize>,
    q: Q,
    step: spec_fn(Q, usize) -> Result<Q, ErrorView>,
) -> Result<Q, ErrorView>
    decreases cs.len(),
{
    if cs.len() == 0 {
        Ok(q)
    } else {
        match led(cs.drop_last(), q, step) {
            Err(e) => Err(e),
            Ok(m) => step(m, cs.last()),
        }
    }
}

/// The results for some nodes, as long as none fails.
pub open spec fn collected<V>(cs: Seq<usize>, f: spec_fn(usize) -> Result<V, ErrorView>) -> Result<Seq<V>, ErrorView>
    decreases cs.len(),
{
    if cs.len() == 0 {
        Ok(Seq::empty())
    } else {
        match collected(cs.drop_last(), f) {
            Err(e) => Err(e),
            Ok(s) => match f(cs.last()) {
                Err(e) => Err(e),
                Ok(v) => Ok(s.push(v)),
            },
        }
    }
}

pub(crate) proof fn lemma_led_fails<Q>(
    cs: Seq<usize>,
    q: Q,
    step: spec_fn(Q, usize) -> Result<Q, ErrorView>,
    k: int,
)
    requires
        0 <= k <= cs.len(),
        led(cs.take(k), q, step) is Err,
    ensures
        led(cs, q, step) == led(cs.take(k), q, step),
    decreases cs.len() - k,
{
    if k < cs.len() {
        assert(cs.take(k + 1).drop_last() =~= cs.take(k));
        lemma_led_fails(cs, q, step, k + 1);
    } else {
        assert(cs.take(k) =~= cs);
    }
}

pub(crate) proof fn lemma_collected_fails<V>(cs: Seq<usize>, f: spec_fn(usize) -> Result<V, ErrorView>, k: int)
    requires
        0 <= k <= cs.len(),
        collected(cs.take(k), f) is Err,
    ensures
        collected(cs, f) is Err,
        collected(cs, f)->Err_0 == collected(cs.take(k), f)->Err_0,
    decreases cs.len() - k,
{
    if k < cs.len() {
        assert(cs.take(k + 1).drop_last() =~= cs.take(k));
        lemma_collected_fails(cs, f, k + 1);
    } else {
        assert(cs.take(k) =~= cs);
    }
}

/// Leads a state through some nodes.
pub(crate) fn lead<B: View, F: Fn(B, usize) -> ParseResult<B>>(
    cs: &Vec<usize>,
    start: B,
    f: F,
    Ghost(step): Ghost<spec_fn(B::V, usize) -> Result<B::V, ErrorView>>,
    Ghost(ok): Ghost<spec_fn(B) -> bool>,
) -> (r: ParseResult<B>)
    requires
        ok(start),
        forall|b: B, k: int| 0 <= k < cs@.len() && ok(b) ==> #[trigger] f.requires((b, cs@[k])),
        forall|b: B, c: usize, out: ParseResult<B>|
            ok(b) && #[trigger] f.ensures((b, c), out) ==> agrees(out, step(b@, c)) && (out is Ok ==> ok(out->Ok_0)),
    ensures
        agrees(r, led(cs@, start@, step)),
        r is Ok ==> ok(r->Ok_0),
{
    let ghost q = start@;
    let mut b = start;
    let mut k: usize = 0;
    while k < cs.len()
        invariant
            k <= cs@.len(),
            ok(b),
            forall|b: B, k: int| 0 <= k < cs@.len() && ok(b) ==> #[trigger] f.requires((b, cs@[k])),
            forall|b: B, c: usize, out: ParseResult<B>|
                ok(b) && #[trigger] f.ensures((b, c), out) ==> agrees(out, step(b@, c)) && (out is Ok ==> ok(
                    out->Ok_0,
                )),
            q == start@,
            led(cs@.take(k as int), q, step) == Ok::<B::V, ErrorView>(b@),
        decreases cs@.len() - k,
    {
        let c: usize = cs[k];
        let ghost before = b;
        assert(cs@.take(k + 1).drop_last() =~= cs@.take(k as int));
        assert(f.requires((b, cs@[k as int])));
        let out = f(b, c);
        assert(f.ensures((before, c), out));
        match out {
            Ok(next) => {
                b = next;
            },
            Err(e) => {
                proof {
                    lemma_led_fails(cs@, q, step, k + 1);
                }
                return Err(e);
            },
        }
        k += 1;
    }
    assert(cs@.take(k as int) =~= cs@);
    Ok(b)
}

/// What is left of a text without the leading occurrences of a character.
pub open spec fn without_leading(s: Seq<char>, c: char) -> Seq<char>
    decreases s.len(),
{
    if s.len() > 0 && s[0] == c {
        without_leading(s.skip(1), c)
    } else {
        s
    }
}

/// What is left of a text without the trailing occurrences of a character.
pub open spec fn without_trailing(s: Seq<char>, c: char) -> Seq<char>
    decreases s.len(),
{
    if s.len() > 0 && s.last() == c {
        without_trailing(s.drop_last(), c)
    } else {
        s
    }
}

/// An IRI without its brackets.
pub open spec fn unbracketed(s: Seq<char>) -> Seq<char> {
    without_trailing(without_leading(s, '<'), '>')
}

pub fn strip_leading(s: &str, c: char) -> (r: String)
    ensures
        r@ == without_leading(s@, c),
{
    let chars = to_chars(s);
    let mut from: usize = 0;
    assert(chars@.skip(0) =~= s@);
    while from < chars.len() && chars[from] == c
        invariant
            from <= chars@.len(),
            without_leading(s@, c) == without_leading(chars@.skip(from as int), c),
        decreases chars@.len() - from,
    {
        assert(chars@.skip(from as int).skip(1) =~= chars@.skip(from + 1));
        from += 1;
    }
    let r = slice_text(chars.as_slice(), from, chars.len());
    assert(r@ =~= chars@.skip(from as int));
    r
}

pub fn strip_trailing(s: &str, c: char) -> (r: String)
    ensures
        r@ == without_trailing(s@, c),
{
    let chars = to_chars(s);
    let mut to: usize = chars.len();
    assert(chars@.take(to as int) =~= s@);
    while to > 0 && chars[to - 1] == c
        invariant
            to <= chars@.len(),
            without_trailing(s@, c) == without_trailing(chars@.take(to as int), c),
        decreases to,
    {
        assert(chars@.take(to as int).drop_last() =~= chars@.take(to - 1));
        to -= 1;
    }
    let r = slice_text(chars.as_slice(), 0, to);
    assert(r@ =~= chars@.take(to as int));
    r
}

pub fn strip_brackets(s: &str) -> (r: String)
    ensures
        r@ == unbracketed(s@),
{
    strip_trailing(strip_leading(s, '<').as_str(), '>')
}

/// A text without the white space around it.
pub open spec fn trimmed(s: Seq<char>) -> Seq<char>
    decreases s.len(),
{
    if s.len() > 0 && is_white_space(s[0]) {
        trimmed(s.skip(1))
    } else if s.len() > 0 && is_white_space(s.last()) {
        trimmed(s.drop_last())
    } else {
        s
    }
}

/// A text without the white space around it.
pub fn trim(text: &str) -> (r: String)
    ensures
        r@ == trimmed(text@),
{
    let chars = to_chars(text);
    assert(chars@.subrange(0, chars@.len() as int) =~= chars@);
    trim_slice(&chars, 0, chars.len())
}

/// The part of a text between two positions, without the white space around it.
pub fn trim_slice(chars: &Vec<char>, from: usize, to: usize) -> (r: String)
    requires
        from <= to <= chars@.len(),
    ensures
        r@ == trimmed(chars@.subrange(from as int, to as int)),
{
    let mut a: usize = from;
    let mut b: usize = to;
    while a < b && white_space(chars[a])
        invariant
            from <= a <= b,
            b <= to,
            to <= chars@.len(),
            trimmed(chars@.subrange(from as int, to as int)) == trimmed(chars@.subrange(a as int, b as int)),
        decreases b - a,
    {
        assert(chars@.subrange(a as int, b as int).skip(1) =~= chars@.subrange(a + 1, b as int));
        a += 1;
    }
    while a < b && white_space(chars[b - 1])
        invariant
            from <= a <= b,
            b <= to,
            to <= chars@.len(),
            a < b ==> !is_white_space(chars@[a as int]),
            trimmed(chars@.subrange(from as int, to as int)) == trimmed(chars@.subrange(a as int, b as int)),
        decreases b - a,
    {
        assert(chars@.subrange(a as int, b as int).drop_last() =~= chars@.subrange(a as int, b - 1));
        b -= 1;
    }
    slice_text(chars.as_slice(), a, b)
}

/// Where a character first occurs from a position on.
pub open spec fn found_from(s: Seq<char>, c: char, i: int) -> Option<int>
    decreases s.len() - i,
{
    if i >= s.len() {
        None
    } else if s[i] == c {
        Some(i)
    } else {
        found_from(s, c, i + 1)
    }
}

/// Where a character last occurs before a position.
pub open spec fn found_before(s: Seq<char>, c: char, n: int) -> Option<int>
    decreases n,
{
    if n <= 0 {
        None
    } else if s[n - 1] == c {
        Some(n - 1)
    } else {
        found_before(s, c, n - 1)
    }
}

pub fn find_first(s: &Vec<char>, c: char) -> (r: Option<usize>)
    ensures
        match found_from(s@, c, 0) {
            None => r is None,
            Some(i) => r is Some && r->0 == i && 0 <= i < s@.len(),
        },
{
    let mut i: usize = 0;
    while i < s.len() && s[i] != c
        invariant
            i <= s@.len(),
            found_from(s@, c, 0) == found_from(s@, c, i as int),
        decreases s@.len() - i,
    {
        i += 1;
    }
    if i < s.len() {
        Some(i)
    } else {
        None
    }
}

pub fn find_last(s: &Vec<char>, c: char) -> (r: Option<usize>)
    ensures
        match found_before(s@, c, s@.len() as int) {
            None => r is None,
            Some(i) => r is Some && r->0 == i && 0 <= i < s@.len(),
        },
{
    let mut n: usize = s.len();
    while n > 0 && s[n - 1] != c
        invariant
            n <= s@.len(),
            found_before(s@, c, s@.len() as int) == found_before(s@, c, n as int),
        decreases n,
    {
        n -= 1;
    }
    if n > 0 {
        Some(n - 1)
    } else {
        None
    }
}

/// What is said of a number that does not fit.
pub open spec fn too_large() -> Seq<char> {
    "number too large to fit in target type"@
}

/// The number that a node matched.
pub open spec fn number_at(t: Parsed, c: usize, what: Seq<char>) -> Result<u64, ErrorView> {
    match number_upto(t.text(c), u64::MAX as nat) {
        Some(n) => Ok(n as u64),
        None => Err(syntax(what + too_large())),
    }
}

/// The span that a number of units makes, where it fits.
pub open spec fn duration_in(value: u64, unit: Seq<char>) -> Result<Duration, ErrorView> {
    if unit == "ms"@ {
        Ok(Duration { secs: value / 1000, millis: value % 1000 })
    } else if unit == "s"@ {
        Ok(Duration { secs: value, millis: 0 })
    } else if unit == "m"@ {
        whole_seconds(value * 60)
    } else if unit == "h"@ {
        whole_seconds(value * 3600)
    } else if unit == "d"@ {
        whole_seconds(value * 86400)
    } else {
        Err(syntax("unknown time unit: "@ + unit))
    }
}

pub open spec fn whole_seconds(secs: int) -> Result<Duration, ErrorView> {
    if secs <= u64::MAX {
        Ok(Duration { secs: secs as u64, millis: 0 })
    } else {
        Err(syntax("invalid duration value: "@ + too_large()))
    }
}

pub open spec fn lowercase(s: Seq<char>) -> Seq<char> {
    s.map_values(|c: char| lower(c))
}

/// The lower case of an ASCII letter; other characters stay.
pub open spec fn lower(c: char) -> char {
    if 'A' <= c && c <= 'Z' {
        ((c as u32 + 32) as u8) as char
    } else {
        c
    }
}

/// The unit of a span; CypherQL takes it in any case.
pub open spec fn unit_at(t: Parsed, i: usize) -> Seq<char> {
    let unit = t.text_or_empty(t.child_of(i, Rule::TimeUnit));
    match t.language {
        Language::CqelsQl => unit,
        Language::CypherQl => lowercase(unit),
    }
}

/// The span that a node stands for.
pub open spec fn duration_at(t: Parsed, i: usize) -> Result<Duration, ErrorView> {
    match t.child_of(i, Rule::Integer) {
        None => Err(syntax("expected duration"@)),
        Some(c) => match number_at(t, c, "invalid duration value: "@) {
            Err(e) => Err(e),
            Ok(value) => duration_in(value, unit_at(t, i)),
        },
    }
}

pub open spec fn durations(t: Parsed) -> spec_fn(usize) -> Result<Duration, ErrorView> {
    |c: usize| duration_at(t, c)
}

pub open spec fn counts(t: Parsed) -> spec_fn(usize) -> Result<u64, ErrorView> {
    |c: usize| number_at(t, c, "invalid count: "@)
}

/// The window that a node stands for.
pub open spec fn window_at(t: Parsed, i: usize) -> Result<WindowSpec, ErrorView> {
    match t.child(i, 0) {
        None => Err(syntax("invalid window specification"@)),
        Some(c) => match t.rule(c) {
            Rule::WindowNow => Ok(now_window()),
            Rule::WindowRange => match collected(t.children_of(c, Rule::Duration), durations(t)) {
                Err(e) => Err(e),
                Ok(ds) => if ds.len() >= 2 {
                    Ok(slide_window(ds[0], ds[1]))
                } else if ds.len() == 1 {
                    Ok(range_window(ds[0]))
                } else {
                    Ok(range_window(Duration { secs: 0, millis: 0 }))
                },
            },
            Rule::WindowTriples => match collected(t.children_of(c, Rule::Integer), counts(t)) {
                Err(e) => Err(e),
                Ok(ns) => if ns.len() >= 2 {
                    Ok(triples_slide_window(ns[0], ns[1]))
                } else if ns.len() == 1 {
                    Ok(triples_window(ns[0]))
                } else {
                    Err(syntax("missing triple count"@))
                },
            },
            Rule::WindowSlide => match collected(t.children_of(c, Rule::Duration), durations(t)) {
                Err(e) => Err(e),
                Ok(ds) => if ds.len() >= 2 {
                    Ok(slide_window(ds[0], ds[1]))
                } else {
                    Err(syntax("SLIDE requires duration and step"@))
                },
            },
            _ => Err(syntax("invalid window specification"@)),
        },
    }
}

/// The depth that a node gives, where it gives one that fits.
pub open spec fn depth_at(t: Parsed, i: usize) -> Option<u32> {
    match t.child_of(i, Rule::Integer) {
        None => None,
        Some(c) => match number_upto(t.text(c), u32::MAX as nat) {
            None => None,
            Some(n) => Some(n as u32),
        },
    }
}

/// The caching time that a node gives.
pub open spec fn cache_at(t: Parsed, i: usize) -> Result<Option<Duration>, ErrorView> {
    match t.child_of(i, Rule::CacheSpec) {
        None => Ok(None),
        Some(c) => match t.child_of(c, Rule::Duration) {
            None => Err(syntax("expected duration"@)),
            Some(d) => match duration_at(t, d) {
                Err(e) => Err(e),
                Ok(d) => Ok(Some(d)),
            },
        },
    }
}

/// The graph that a node stands for.
pub open spec fn graph_at(t: Parsed, i: usize, uri: Seq<char>) -> Result<GraphDefinitionView, ErrorView> {
    match cache_at(t, i) {
        Err(e) => Err(e),
        Ok(cache_duration) => Ok(GraphDefinitionView { uri, depth: depth_at(t, i), cache_duration }),
    }
}

/// A result with a plain value is as expected.
pub open spec fn same_outcome<T>(r: ParseResult<T>, expected: Result<T, ErrorView>) -> bool {
    match (r, expected) {
        (Ok(t), Ok(v)) => t == v,
        (Err(e), Err(v)) => e@ == v,
        _ => false,
    }
}

fn to_lower(c: char) -> (r: char)
    ensures
        r == lower(c),
{
    if 'A' <= c && c <= 'Z' {
        (c as u32 + 32) as u8 as char
    } else {
        c
    }
}

fn lower_text(s: &str) -> (r: String)
    ensures
        r@ == lowercase(s@),
{
    let mut r = String::new();
    assert(lowercase(s@.take(0)) =~= r@);
    for c in iter: s.chars()
        invariant
            iter.seq() == s@,
            iter.index() <= s@.len(),
            r@ == lowercase(s@.take(iter.index())),
    {
        let ghost k = iter.index();
        r.push(to_lower(c));
        assert(r@ =~= lowercase(s@.take(k + 1)));
    }
    assert(s@.take(s@.len() as int) =~= s@);
    r
}

/// A syntax error with a message in two parts.
pub fn syntax_error_of(what: &str, more: &str) -> (r: ParseError)
    ensures
        r@ == syntax(what@ + more@),
{
    let mut message = what.to_string();
    crate::text::append_text(&mut message, more);
    ParseError::Syntax(message)
}

fn seconds(value: u64, factor: u64) -> (r: ParseResult<Duration>)
    requires
        factor <= 86400,
    ensures
        same_outcome(r, whole_seconds(value * factor)),
{
    assert(value * factor <= u64::MAX * 86400) by (nonlinear_arith)
        requires
            value <= u64::MAX,
            factor <= 86400,
    ;
    let secs: u128 = (value as u128) * (factor as u128);
    if secs <= u64::MAX as u128 {
        Ok(Duration { secs: secs as u64, millis: 0 })
    } else {
        Err(syntax_error_of("invalid duration value: ", "number too large to fit in target type"))
    }
}

impl Tree {
    pub fn parse_duration_value(&self, i: usize) -> (r: ParseResult<Duration>)
        requires
            i < self@.nodes.len(),
        ensures
            same_outcome(r, duration_at(self@, i)),
    {
        let c: usize = match self.child_of(i, Rule::Integer) {
            None => {
                return Err(syntax_error("expected duration"));
            },
            Some(c) => c,
        };
        let value: u64 = match self.parse_number(c, "invalid duration value: ") {
            Err(e) => {
                return Err(e);
            },
            Ok(n) => n,
        };
        let mut unit = self.text_or_empty(self.child_of(i, Rule::TimeUnit));
        match self.source.language {
            Language::CqelsQl => {},
            Language::CypherQl => {
                unit = lower_text(unit.as_str());
            },
        }
        let unit = unit.as_str();
        if crate::names::same_name(unit, "ms") {
            Ok(Duration::from_millis(value))
        } else if crate::names::same_name(unit, "s") {
            Ok(Duration::from_secs(value))
        } else if crate::names::same_name(unit, "m") {
            seconds(value, 60)
        } else if crate::names::same_name(unit, "h") {
            seconds(value, 3600)
        } else if crate::names::same_name(unit, "d") {
            seconds(value, 86400)
        } else {
            Err(syntax_error_of("unknown time unit: ", unit))
        }
    }

    pub fn parse_number(&self, c: usize, what: &str) -> (r: ParseResult<u64>)
        requires
            c < self@.nodes.len(),
        ensures
            same_outcome(r, number_at(self@, c, what@)),
    {
        match read_number(self.text(c).as_str(), u64::MAX) {
            Some(n) => Ok(n),
            None => Err(syntax_error_of(what, "number too large to fit in target type")),
        }
    }

    fn parse_durations(&self, cs: &Vec<usize>) -> (r: ParseResult<Vec<Duration>>)
        requires
            forall|j: int| 0 <= j < cs@.len() ==> #[trigger] cs@[j] < self@.nodes.len(),
        ensures
            match collected(cs@, durations(self@)) {
                Ok(ds) => r is Ok && r->Ok_0@ == ds,
                Err(e) => r is Err && r->Err_0@ == e,
            },
    {
        let ghost f = durations(self@);
        let mut r: Vec<Duration> = Vec::new();
        let mut k: usize = 0;
        while k < cs.len()
            invariant
                f == durations(self@),
                forall|j: int| 0 <= j < cs@.len() ==> #[trigger] cs@[j] < self@.nodes.len(),
                k <= cs@.len(),
                collected(cs@.take(k as int), f) == Ok::<Seq<Duration>, ErrorView>(r@),
            decreases cs@.len() - k,
        {
            assert(cs@.take(k + 1).drop_last() =~= cs@.take(k as int));
            match self.parse_duration_value(cs[k]) {
                Ok(d) => {
                    r.push(d);
                },
                Err(e) => {
                    proof {
                        lemma_collected_fails(cs@, f, k + 1);
                    }
                    return Err(e);
                },
            }
            k += 1;
        }
        assert(cs@.take(k as int) =~= cs@);
        Ok(r)
    }

    fn parse_counts(&self, cs: &Vec<usize>) -> (r: ParseResult<Vec<u64>>)
        requires
            forall|j: int| 0 <= j < cs@.len() ==> #[trigger] cs@[j] < self@.nodes.len(),
        ensures
            match collected(cs@, counts(self@)) {
                Ok(ns) => r is Ok && r->Ok_0@ == ns,
                Err(e) => r is Err && r->Err_0@ == e,
            },
    {
        let ghost f = counts(self@);
        let mut r: Vec<u64> = Vec::new();
        let mut k: usize = 0;
        while k < cs.len()
            invariant
                f == counts(self@),
                forall|j: int| 0 <= j < cs@.len() ==> #[trigger] cs@[j] < self@.nodes.len(),
                k <= cs@.len(),
                collected(cs@.take(k as int), f) == Ok::<Seq<u64>, ErrorView>(r@),
            decreases cs@.len() - k,
        {
            assert(cs@.take(k + 1).drop_last() =~= cs@.take(k as int));
            match self.parse_number(cs[k], "invalid count: ") {
                Ok(n) => {
                    r.push(n);
                },
                Err(e) => {
                    proof {
                        lemma_collected_fails(cs@, f, k + 1);
                    }
                    return Err(e);
                },
            }
            k += 1;
        }
        assert(cs@.take(k as int) =~= cs@);
        Ok(r)
    }

    pub fn parse_window_spec(&self, i: usize) -> (r: ParseResult<WindowSpec>)
        requires
            i < self@.nodes.len(),
        ensures
            same_outcome(r, window_at(self@, i)),
    {
        let c: usize = match self.child(i, 0) {
            None => {
                return Err(syntax_error("invalid window specification"));
            },
            Some(c) => c,
        };
        match self.rule(c) {
            Rule::WindowNow => Ok(WindowSpec::now()),
            Rule::WindowRange => {
                let cs = self.children_of(c, Rule::Duration);
                match self.parse_durations(&cs) {
                    Err(e) => Err(e),
                    Ok(ds) => {
                        if ds.len() >= 2 {
                            Ok(WindowSpec::slide(ds[0], ds[1]))
                        } else if ds.len() == 1 {
                            Ok(WindowSpec::range(ds[0]))
                        } else {
                            Ok(WindowSpec::range(Duration::from_secs(0)))
                        }
                    },
                }
            },
            Rule::WindowTriples => {
                let cs = self.children_of(c, Rule::Integer);
                match self.parse_counts(&cs) {
                    Err(e) => Err(e),
                    Ok(ns) => {
                        if ns.len() >= 2 {
                            Ok(WindowSpec::triples_slide(ns[0], ns[1]))
                        } else if ns.len() == 1 {
                            Ok(WindowSpec::triples(ns[0]))
                        } else {
                            Err(syntax_error("missing triple count"))
                        }
                    },
                }
            },
            Rule::WindowSlide => {
                let cs = self.children_of(c, Rule::Duration);
                match self.parse_durations(&cs) {
                    Err(e) => Err(e),
                    Ok(ds) => {
                        if ds.len() >= 2 {
                            Ok(WindowSpec::slide(ds[0], ds[1]))
                        } else {
                            Err(syntax_error("SLIDE requires duration and step"))
                        }
                    },
                }
            },
            _ => Err(syntax_error("invalid window specification")),
        }
    }

    /// The graph that a node stands for, with its depth and caching time.
    pub fn parse_graph(&self, i: usize, uri: String) -> (r: ParseResult<GraphDefinition>)
        requires
            i < self@.nodes.len(),
        ensures
            agrees(r, graph_at(self@, i, uri@)),
    {
        let depth: Option<u32> = match self.child_of(i, Rule::Integer) {
            None => None,
            Some(c) => match read_number(self.text(c).as_str(), u32::MAX as u64) {
                None => None,
                Some(n) => Some(n as u32),
            },
        };
        let cache_duration: Option<Duration> = match self.child_of(i, Rule::CacheSpec) {
            None => None,
            Some(c) => match self.child_of(c, Rule::Duration) {
                None => {
                    return Err(syntax_error("expected duration"));
                },
                Some(d) => match self.parse_duration_value(d) {
                    Err(e) => {
                        return Err(e);
                    },
                    Ok(d) => Some(d),
                },
            },
        };
        Ok(GraphDefinition { uri, depth, cache_duration })
    }
}

} // verus!
