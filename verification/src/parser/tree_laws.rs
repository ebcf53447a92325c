//! What the nodes of a match are: each stands for a match of its rule, and those
//! below a node follow one another in the input.
use vstd::prelude::*;

use crate::parser::grammar::{body, silent, Language, Rule, RULE_LIMIT};
use crate::parser::peg::{after_gap, calls_at, line_end, matched, node_over, parsed, Node, Peg};
use crate::parser::tree::{siblings, Parsed};

verus! {

/// How much of a length is left from a position on.
pub open spec fn left_of(len: nat, from: int) -> int {
    if from < len {
        len - from
    } else {
        0
    }
}

/// The positions in a listing, from one on, of the nodes that are below no other.
pub open spec fn tops_from(s: Seq<Node>, from: int) -> Seq<int>
    decreases left_of(s.len(), from),
{
    if from < 0 || from >= s.len() {
        Seq::empty()
    } else {
        seq![from] + tops_from(s, from + 1 + s[from].size)
    }
}

/// The positions of the nodes that are below no other.
pub open spec fn tops(s: Seq<Node>) -> Seq<int> {
    tops_from(s, 0)
}

/// The rules of the nodes that are below no other, in order.
pub open spec fn top_rules(s: Seq<Node>) -> Seq<Rule> {
    tops(s).map_values(|k: int| s[k].rule)
}

/// What is below a node is in the listing.
pub open spec fn whole(s: Seq<Node>) -> bool {
    forall|k: int| 0 <= k < s.len() ==> k + 1 + (#[trigger] s[k]).size <= s.len()
}

/// A node stands for a match of its rule: of what is from its start to its end,
/// with what is below it.
pub open spec fn stands_for_match(language: Language, input: Seq<char>, s: Seq<Node>, k: int) -> bool {
    let n = s[k];
    &&& !silent(n.rule)
    &&& n.start <= n.end <= input.len()
    &&& k + 1 + n.size <= s.len()
    &&& exists|calls: nat| #[trigger]
        matched(language, input, body(language, n.rule), n.start as nat, calls) == Some(
            (n.end as nat, s.subrange(k + 1, k + 1 + n.size)),
        )
}

/// Each node stands for a match, between two positions, and those that are below
/// no other follow one another.
pub open spec fn faithful(language: Language, input: Seq<char>, s: Seq<Node>, from: nat, to: nat) -> bool {
    &&& forall|k: int| 0 <= k < s.len() ==> #[trigger] stands_for_match(language, input, s, k)
    &&& forall|k: int| 0 <= k < s.len() ==> from <= (#[trigger] s[k]).start && s[k].end <= to
    &&& forall|a: int, b: int|
        0 <= a < b < tops(s).len() ==> s[#[trigger] tops(s)[a]].end <= s[#[trigger] tops(s)[b]].start
}

proof fn lemma_line_end(input: Seq<char>, pos: nat)
    requires
        pos <= input.len(),
    ensures
        pos <= line_end(input, pos) <= input.len(),
    decreases input.len() - pos,
{
    if pos < input.len() && input[pos as int] != '\n' {
        lemma_line_end(input, pos + 1);
    }
}

proof fn lemma_after_gap(language: Language, input: Seq<char>, pos: nat)
    requires
        pos <= input.len(),
    ensures
        pos <= after_gap(language, input, pos) <= input.len(),
    decreases input.len() - pos,
{
    if pos < input.len() {
        lemma_line_end(input, pos + 1);
        if crate::parser::peg::is_space(input[pos as int]) {
            lemma_after_gap(language, input, pos + 1);
        } else if crate::parser::peg::comment_at(language, input, pos) {
            let stop = line_end(input, pos + 1);
            if !(stop <= pos || stop > input.len()) {
                lemma_after_gap(language, input, stop);
            }
        }
    }
}

/// The nodes of a listing followed by another.
pub proof fn lemma_tops_concat(a: Seq<Node>, b: Seq<Node>, from: int)
    requires
        whole(a),
        0 <= from <= a.len(),
    ensures
        tops_from(a + b, from) == tops_from(a, from) + tops(b).map_values(|k: int| k + a.len()),
    decreases a.len() - from,
{
    if from < a.len() {
        assert((a + b)[from] == a[from]);
        lemma_tops_concat(a, b, from + 1 + a[from].size);
        assert(seq![from] + (tops_from(a, from + 1 + a[from].size) + tops(b).map_values(|k: int| k + a.len())) =~= (
        seq![from] + tops_from(a, from + 1 + a[from].size)) + tops(b).map_values(|k: int| k + a.len()));
    } else {
        lemma_tops_behind(a, b, 0);
        assert(tops_from(a, from) =~= Seq::<int>::empty());
        assert(tops_from(a, from) + tops(b).map_values(|k: int| k + a.len()) =~= tops(b).map_values(
            |k: int| k + a.len(),
        ));
    }
}

proof fn lemma_tops_behind(a: Seq<Node>, b: Seq<Node>, from: int)
    requires
        0 <= from,
    ensures
        tops_from(a + b, from + a.len()) == tops_from(b, from).map_values(|k: int| k + a.len()),
    decreases left_of(b.len(), from),
{
    if from < b.len() {
        assert((a + b)[from + a.len()] == b[from]);
        lemma_tops_behind(a, b, from + 1 + b[from].size);
        assert((seq![from] + tops_from(b, from + 1 + b[from].size)).map_values(|k: int| k + a.len()) =~= seq![
            from + a.len(),
        ] + tops_from(b, from + 1 + b[from].size).map_values(|k: int| k + a.len()));
    } else {
        assert(tops_from(b, from).map_values(|k: int| k + a.len()) =~= Seq::<int>::empty());
    }
}

proof fn lemma_tops_range(s: Seq<Node>, from: int)
    requires
        0 <= from,
    ensures
        forall|j: int| 0 <= j < tops_from(s, from).len() ==> from <= #[trigger] tops_from(s, from)[j] < s.len(),
    decreases left_of(s.len(), from),
{
    if from < s.len() {
        let rest = tops_from(s, from + 1 + s[from].size);
        lemma_tops_range(s, from + 1 + s[from].size);
        assert forall|j: int| 0 <= j < tops_from(s, from).len() implies from <= #[trigger] tops_from(s, from)[j]
            < s.len() by {
            if j > 0 {
                assert(tops_from(s, from)[j] == rest[j - 1]);
            }
        }
    }
}

/// The rules of the nodes of two listings, one after the other.
pub proof fn lemma_top_rules_concat(a: Seq<Node>, b: Seq<Node>)
    requires
        whole(a),
    ensures
        top_rules(a + b) == top_rules(a) + top_rules(b),
{
    lemma_tops_concat(a, b, 0);
    lemma_tops_range(a, 0);
    lemma_tops_range(b, 0);
    assert forall|j: int| 0 <= j < top_rules(a + b).len() implies top_rules(a + b)[j] == (top_rules(a) + top_rules(
        b,
    ))[j] by {
        if j < tops(a).len() {
            assert(tops(a + b)[j] == tops(a)[j]);
            assert(0 <= tops(a)[j] < a.len());
        } else {
            let k = tops(b)[j - tops(a).len()];
            assert(tops(a + b)[j] == k + a.len());
            assert(0 <= k < b.len());
        }
    }
    assert(top_rules(a + b) =~= top_rules(a) + top_rules(b));
}

proof fn lemma_stands_within(language: Language, input: Seq<char>, pre: Seq<Node>, s: Seq<Node>, post: Seq<Node>, k: int)
    requires
        0 <= k < s.len(),
        stands_for_match(language, input, s, k),
    ensures
        stands_for_match(language, input, pre + s + post, pre.len() + k),
{
    let all = pre + s + post;
    let n = s[k];
    let at = pre.len() + k;
    assert(all[at] == n);
    assert(all.subrange(at + 1, at + 1 + n.size) =~= s.subrange(k + 1, k + 1 + n.size));
    let calls = choose|calls: nat| #[trigger]
        matched(language, input, body(language, n.rule), n.start as nat, calls) == Some(
            (n.end as nat, s.subrange(k + 1, k + 1 + n.size)),
        );
    assert(matched(language, input, body(language, n.rule), n.start as nat, calls) == Some(
        (n.end as nat, all.subrange(at + 1, at + 1 + n.size)),
    ));
}

pub proof fn lemma_whole(language: Language, input: Seq<char>, s: Seq<Node>, from: nat, to: nat)
    requires
        faithful(language, input, s, from, to),
    ensures
        whole(s),
{
    assert forall|k: int| 0 <= k < s.len() implies k + 1 + (#[trigger] s[k]).size <= s.len() by {
        assert(stands_for_match(language, input, s, k));
    }
}

proof fn lemma_faithful_concat(
    language: Language,
    input: Seq<char>,
    a: Seq<Node>,
    b: Seq<Node>,
    from: nat,
    mid: nat,
    to: nat,
)
    requires
        faithful(language, input, a, from, mid),
        faithful(language, input, b, mid, to),
        from <= mid <= to,
    ensures
        faithful(language, input, a + b, from, to),
{
    let all = a + b;
    lemma_whole(language, input, a, from, mid);
    assert forall|k: int| 0 <= k < all.len() implies #[trigger] stands_for_match(language, input, all, k) by {
        if k < a.len() {
            assert(stands_for_match(language, input, a, k));
            lemma_stands_within(language, input, Seq::empty(), a, b, k);
            assert(Seq::<Node>::empty() + a + b =~= all);
        } else {
            assert(stands_for_match(language, input, b, k - a.len()));
            lemma_stands_within(language, input, a, b, Seq::empty(), k - a.len());
            assert(a + b + Seq::<Node>::empty() =~= all);
        }
    }
    assert forall|k: int| 0 <= k < all.len() implies from <= (#[trigger] all[k]).start && all[k].end <= to by {
        if k < a.len() {
            assert(all[k] == a[k]);
        } else {
            assert(all[k] == b[k - a.len()]);
        }
    }
    lemma_tops_concat(a, b, 0);
    lemma_tops_range(a, 0);
    lemma_tops_range(b, 0);
    assert forall|x: int, y: int| 0 <= x < y < tops(all).len() implies all[#[trigger] tops(all)[x]].end
        <= all[#[trigger] tops(all)[y]].start by {
        if y < tops(a).len() {
            assert(tops(all)[x] == tops(a)[x] && tops(all)[y] == tops(a)[y]);
        } else if x >= tops(a).len() {
            let u = x - tops(a).len();
            let v = y - tops(a).len();
            assert(tops(all)[x] == tops(b)[u] + a.len());
            assert(tops(all)[y] == tops(b)[v] + a.len());
            assert(0 <= tops(b)[u] < b.len() && 0 <= tops(b)[v] < b.len());
        } else {
            let v = y - tops(a).len();
            assert(tops(all)[x] == tops(a)[x]);
            assert(tops(all)[y] == tops(b)[v] + a.len());
            assert(0 <= tops(a)[x] < a.len() && 0 <= tops(b)[v] < b.len());
            assert(a[tops(a)[x]].end <= mid);
            assert(mid <= b[tops(b)[v]].start);
        }
    }
}

proof fn lemma_faithful_none(language: Language, input: Seq<char>, from: nat, to: nat)
    ensures
        faithful(language, input, Seq::empty(), from, to),
{
}

proof fn lemma_faithful_wider(
    language: Language,
    input: Seq<char>,
    s: Seq<Node>,
    from: nat,
    to: nat,
    start: nat,
    end: nat,
)
    requires
        faithful(language, input, s, from, to),
        start <= from,
        to <= end,
    ensures
        faithful(language, input, s, start, end),
{
}

/// One node over what is below it.
pub proof fn lemma_one_top(n: Node, below: Seq<Node>)
    requires
        n.size == below.len(),
    ensures
        tops(seq![n] + below) == seq![0int],
        top_rules(seq![n] + below) == seq![n.rule],
{
    let s = seq![n] + below;
    assert(s[0] == n);
    assert(tops_from(s, 1 + n.size) =~= Seq::<int>::empty());
    assert(tops(s) =~= seq![0int]);
    assert(top_rules(s) =~= seq![n.rule]);
}

proof fn lemma_faithful_node(
    language: Language,
    input: Seq<char>,
    rule: Rule,
    from: nat,
    to: nat,
    below: Seq<Node>,
    calls: nat,
)
    requires
        input.len() <= usize::MAX,
        below.len() < usize::MAX,
        from <= to <= input.len(),
        faithful(language, input, below, from, to),
        matched(language, input, body(language, rule), from, calls) == Some((to, below)),
    ensures
        faithful(language, input, node_over(rule, from, to, below), from, to),
{
    if !silent(rule) {
        let n = Node { rule, start: from as usize, end: to as usize, size: below.len() as usize };
        let all = seq![n] + below;
        assert(all == node_over(rule, from, to, below));
        assert forall|k: int| 0 <= k < all.len() implies #[trigger] stands_for_match(language, input, all, k) by {
            if k == 0 {
                assert(all.subrange(1, 1 + n.size) =~= below);
                assert(matched(language, input, body(language, n.rule), n.start as nat, calls) == Some(
                    (n.end as nat, all.subrange(1, 1 + n.size)),
                ));
            } else {
                assert(stands_for_match(language, input, below, k - 1));
                lemma_stands_within(language, input, seq![n], below, Seq::empty(), k - 1);
                assert(seq![n] + below + Seq::<Node>::empty() =~= all);
            }
        }
        assert forall|k: int| 0 <= k < all.len() implies from <= (#[trigger] all[k]).start && all[k].end <= to by {
            if k > 0 {
                assert(all[k] == below[k - 1]);
            }
        }
        lemma_one_top(n, below);
    }
}

/// The nodes of a match are faithful.
#[verifier::rlimit(40)]
#[verifier::spinoff_prover]
pub proof fn lemma_match_is_faithful(language: Language, input: Seq<char>, e: Peg, pos: nat, calls: nat)
    requires
        pos <= input.len() <= usize::MAX,
        matched(language, input, e, pos, calls) is Some,
        (matched(language, input, e, pos, calls)->0).1.len() <= usize::MAX,
    ensures
        pos <= (matched(language, input, e, pos, calls)->0).0 <= input.len(),
        faithful(
            language,
            input,
            (matched(language, input, e, pos, calls)->0).1,
            pos,
            (matched(language, input, e, pos, calls)->0).0,
        ),
    decreases input.len() - pos, calls, e,
{
    let (q, nodes) = matched(language, input, e, pos, calls)->0;
    match e {
        Peg::Chain(a, b) => {
            let (p, first) = matched(language, input, *a, pos, calls)->0;
            let c = calls_at(pos, p, calls);
            let (r, second) = matched(language, input, *b, p, c)->0;
            assert(nodes == first + second);
            lemma_match_is_faithful(language, input, *a, pos, calls);
            lemma_match_is_faithful(language, input, *b, p, c);
            lemma_faithful_concat(language, input, first, second, pos, p, r);
        },
        Peg::Either(a, b) => {
            if matched(language, input, *a, pos, calls) is Some {
                lemma_match_is_faithful(language, input, *a, pos, calls);
            } else {
                lemma_match_is_faithful(language, input, *b, pos, calls);
            }
        },
        Peg::Many(a) => {
            if let Some((p, first)) = matched(language, input, *a, pos, calls) {
                if pos < p && p <= input.len() {
                    let m = matched(language, input, e, p, RULE_LIMIT as nat);
                    assert(m is Some);
                    let (r, rest) = m->0;
                    assert(nodes == first + rest);
                    lemma_match_is_faithful(language, input, *a, pos, calls);
                    lemma_match_is_faithful(language, input, e, p, RULE_LIMIT as nat);
                    lemma_faithful_concat(language, input, first, rest, pos, p, r);
                } else {
                    lemma_faithful_none(language, input, pos, q);
                }
            } else {
                lemma_faithful_none(language, input, pos, q);
            }
        },
        Peg::Maybe(a) => {
            if matched(language, input, *a, pos, calls) is Some {
                lemma_match_is_faithful(language, input, *a, pos, calls);
            } else {
                lemma_faithful_none(language, input, pos, q);
            }
        },
        Peg::Call(rule) => {
            let inner = body(language, rule);
            let m = matched(language, input, inner, pos, (calls - 1) as nat);
            let (p, below) = m->0;
            assert(nodes == node_over(rule, pos, p, below));
            lemma_match_is_faithful(language, input, inner, pos, (calls - 1) as nat);
            if !silent(rule) {
                assert(nodes.len() == below.len() + 1);
                lemma_faithful_node(language, input, rule, pos, p, below, (calls - 1) as nat);
            }
        },
        Peg::Gap => {
            lemma_after_gap(language, input, pos);
            lemma_faithful_none(language, input, pos, q);
        },
        _ => {
            lemma_faithful_none(language, input, pos, q);
        },
    }
}

/// The nodes of a parsed input are faithful.
#[verifier::opaque]
pub open spec fn well_parsed(t: Parsed) -> bool {
    &&& t.input.len() <= usize::MAX
    &&& t.nodes.len() <= usize::MAX
    &&& faithful(t.language, t.input, t.nodes, 0, t.input.len())
}

/// Each node of a parsed input stands for a match of its rule, and nodes side by
/// side follow one another in the input.
pub proof fn law_parsed_nodes_stand_for_matches(language: Language, input: Seq<char>)
    requires
        input.len() <= usize::MAX,
        parsed(language, input) is Some,
        (parsed(language, input)->0).len() <= usize::MAX,
    ensures
        well_parsed(Parsed { language, input, nodes: parsed(language, input)->0 }),
{
    reveal(well_parsed);
    let e = Peg::Call(Rule::Query);
    lemma_match_is_faithful(language, input, e, 0, RULE_LIMIT as nat);
    let (q, nodes) = matched(language, input, e, 0, RULE_LIMIT as nat)->0;
    lemma_faithful_wider(language, input, nodes, 0, q, 0, input.len());
}

/// What is below a node.
pub open spec fn below(t: Parsed, i: usize) -> Seq<Node> {
    t.nodes.subrange(i + 1, i + 1 + t.nodes[i as int].size)
}

proof fn lemma_siblings_are_tops(nodes: Seq<Node>, base: int, s: Seq<Node>, from: int)
    requires
        0 <= base,
        base + s.len() <= nodes.len() <= usize::MAX,
        s == nodes.subrange(base, base + s.len()),
        0 <= from,
    ensures
        siblings(nodes, base + from, base + s.len()) == tops_from(s, from).map_values(|k: int| (base + k) as usize),
    decreases left_of(s.len(), from),
{
    if from < s.len() {
        assert(nodes[base + from] == s[from]);
        lemma_siblings_are_tops(nodes, base, s, from + 1 + s[from].size);
        let rest = tops_from(s, from + 1 + s[from].size);
        assert((seq![from] + rest).map_values(|k: int| (base + k) as usize) =~= seq![(base + from) as usize]
            + rest.map_values(|k: int| (base + k) as usize));
    } else {
        assert(tops_from(s, from).map_values(|k: int| (base + k) as usize) =~= Seq::<usize>::empty());
    }
}

/// The nodes directly below a node: their rules are those at the top of what is
/// below it, they lie inside it, and follow one another.
pub proof fn lemma_children(t: Parsed, i: usize)
    requires
        well_parsed(t),
        i < t.nodes.len(),
    ensures
        stands_for_match(t.language, t.input, t.nodes, i as int),
        t.children(i).map_values(|c: usize| t.rule(c)) == top_rules(below(t, i)),
        t.children(i).len() == top_rules(below(t, i)).len(),
        forall|k: int|
            0 <= k < t.children(i).len() ==> i < #[trigger] t.children(i)[k] && t.children(i)[k] < t.nodes.len()
                && t.nodes[i as int].start <= t.nodes[t.children(i)[k] as int].start
                && t.nodes[t.children(i)[k] as int].end <= t.nodes[i as int].end && t.rule(t.children(i)[k])
                == top_rules(below(t, i))[k] && t.children(i)[k] + 1 + t.nodes[t.children(i)[k] as int].size <= i + 1
                + t.nodes[i as int].size,
        forall|a: int, b: int|
            0 <= a < b < t.children(i).len() ==> #[trigger] t.children(i)[a] < #[trigger] t.children(i)[b]
                && t.children(i)[a] + 1 + t.nodes[t.children(i)[a] as int].size <= t.children(i)[b] && t.nodes[t.children(i)[a] as int].end <= t.nodes[t.children(i)[b] as int].start,
{
    reveal(well_parsed);
    let n = t.nodes[i as int];
    assert(stands_for_match(t.language, t.input, t.nodes, i as int));
    let s = below(t, i);
    let calls = choose|calls: nat| #[trigger]
        matched(t.language, t.input, body(t.language, n.rule), n.start as nat, calls) == Some((n.end as nat, s));
    lemma_match_is_faithful(t.language, t.input, body(t.language, n.rule), n.start as nat, calls);
    lemma_siblings_are_tops(t.nodes, i + 1, s, 0);
    lemma_tops_range(s, 0);
    lemma_tops_ascend(s, 0);
    lemma_whole(t.language, t.input, s, n.start as nat, n.end as nat);
    let cs = t.children(i);
    assert(cs == tops(s).map_values(|k: int| (i + 1 + k) as usize));
    assert forall|k: int| 0 <= k < cs.len() implies i < #[trigger] cs[k] && cs[k] < t.nodes.len() && n.start
        <= t.nodes[cs[k] as int].start && t.nodes[cs[k] as int].end <= n.end && t.rule(cs[k]) == top_rules(s)[k] && cs[k]
        + 1 + t.nodes[cs[k] as int].size <= i + 1 + n.size by {
        let j = tops(s)[k];
        assert(0 <= j < s.len());
        assert(cs[k] == i + 1 + j);
        assert(t.nodes[cs[k] as int] == s[j]);
    }
    assert(cs.map_values(|c: usize| t.rule(c)) =~= top_rules(s));
    assert forall|a: int, b: int| 0 <= a < b < cs.len() implies #[trigger] cs[a] < #[trigger] cs[b] && cs[a] + 1
        + t.nodes[cs[a] as int].size <= cs[b] && t.nodes[cs[a] as int].end <= t.nodes[cs[b] as int].start by {
        let j = tops(s)[a];
        let k = tops(s)[b];
        assert(0 <= j < s.len() && 0 <= k < s.len());
        assert(t.nodes[cs[a] as int] == s[j]);
        assert(t.nodes[cs[b] as int] == s[k]);
    }
}

proof fn lemma_tops_ascend(s: Seq<Node>, from: int)
    requires
        0 <= from,
    ensures
        forall|a: int, b: int|
            0 <= a < b < tops_from(s, from).len() ==> #[trigger] tops_from(s, from)[a] + 1 + s[tops_from(
                s,
                from,
            )[a]].size <= #[trigger] tops_from(s, from)[b],
    decreases left_of(s.len(), from),
{
    if from < s.len() {
        let next = from + 1 + s[from].size;
        let rest = tops_from(s, next);
        lemma_tops_ascend(s, next);
        lemma_tops_range(s, next);
        assert forall|a: int, b: int| 0 <= a < b < tops_from(s, from).len() implies #[trigger] tops_from(s, from)[a] + 1
            + s[tops_from(s, from)[a]].size <= #[trigger] tops_from(s, from)[b] by {
            assert(tops_from(s, from)[b] == rest[b - 1]);
            if a > 0 {
                assert(tops_from(s, from)[a] == rest[a - 1]);
            }
        }
    }
}

/// The nodes of a rule directly below a node.
pub proof fn lemma_children_of(t: Parsed, i: usize, rule: Rule)
    requires
        well_parsed(t),
        i < t.nodes.len(),
    ensures
        forall|k: int|
            0 <= k < t.children_of(i, rule).len() ==> i < #[trigger] t.children_of(i, rule)[k] && t.children_of(
                i,
                rule,
            )[k] < t.nodes.len() && t.rule(t.children_of(i, rule)[k]) == rule,
        top_rules(below(t, i)).contains(rule) ==> t.children_of(i, rule).len() > 0,
{
    lemma_children(t, i);
    let cs = t.children(i);
    let p = t.has_rule(rule);
    assert forall|k: int| 0 <= k < cs.filter(p).len() implies i < #[trigger] cs.filter(p)[k] && cs.filter(p)[k]
        < t.nodes.len() && t.rule(cs.filter(p)[k]) == rule by {
        crate::listing::lemma_filter_member(cs, p, k);
        let j = choose|j: int| 0 <= j < cs.len() && cs[j] == cs.filter(p)[k];
        assert(i < cs[j]);
    }
    if top_rules(below(t, i)).contains(rule) {
        let j = choose|j: int| 0 <= j < top_rules(below(t, i)).len() && top_rules(below(t, i))[j] == rule;
        assert(t.rule(cs[j]) == rule);
        crate::listing::lemma_filter_keeps(cs, p, cs[j]);
    }
}

/// The first node of a rule directly below a node.
pub proof fn lemma_child_of(t: Parsed, i: usize, rule: Rule)
    requires
        well_parsed(t),
        i < t.nodes.len(),
    ensures
        t.child_of(i, rule) matches Some(c) ==> i < c && c < t.nodes.len() && t.rule(c) == rule,
        top_rules(below(t, i)).contains(rule) ==> t.child_of(i, rule) is Some,
{
    lemma_children_of(t, i, rule);
    if t.children_of(i, rule).len() > 0 {
        assert(i < t.children_of(i, rule)[0]);
    }
}

/// The match that a node stands for.
pub proof fn lemma_match_of(t: Parsed, i: usize) -> (calls: nat)
    requires
        well_parsed(t),
        i < t.nodes.len(),
    ensures
        t.nodes[i as int].start <= t.nodes[i as int].end <= t.input.len(),
        matched(t.language, t.input, body(t.language, t.rule(i)), t.nodes[i as int].start as nat, calls) == Some(
            (t.nodes[i as int].end as nat, below(t, i)),
        ),
        below(t, i).len() <= usize::MAX,
        t.input.len() <= usize::MAX,
        t.nodes.len() <= usize::MAX,
        t.text(i) == t.input.subrange(t.nodes[i as int].start as int, t.nodes[i as int].end as int),
{
    reveal(well_parsed);
    let n = t.nodes[i as int];
    assert(stands_for_match(t.language, t.input, t.nodes, i as int));
    choose|calls: nat| #[trigger]
        matched(t.language, t.input, body(t.language, n.rule), n.start as nat, calls) == Some(
            (n.end as nat, below(t, i)),
        )
}

} // verus!
