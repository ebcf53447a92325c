//! What the GYO reduction builds: a forest with the running intersection
//! property, and one tree where the hypergraph is acyclic.
use vstd::prelude::*;

use crate::names::lemma_ascending_distinct;
use crate::operator::hypergraph::{
    bare_tree, ears, holds, hosts, inhabited, is_least, is_partial_reduction, is_reduction, least,
    lemma_finite_listing, listing, lone_variables, reduced_at, tied, without,
};

verus! {

/// Relation `a` hangs below `b`.
pub open spec fn below(host: Map<Seq<char>, Seq<char>>, a: Seq<char>, b: Seq<char>) -> bool {
    host.contains_key(a) && host[a] == b
}

/// The relations in an order in which each one that hangs below another comes
/// before it: the ties of the tree are exactly those of hanging, so that no
/// ties close a circle. Whatever variable a relation that hangs below another
/// shares with any relation after it, the other has too.
pub open spec fn hangs_in_order(
    edges: Map<Seq<char>, Set<Seq<char>>>,
    tree: Map<Seq<char>, Set<Seq<char>>>,
    order: Seq<Seq<char>>,
    host: Map<Seq<char>, Seq<char>>,
) -> bool {
    &&& order.no_duplicates()
    &&& order.to_set() == edges.dom()
    &&& tree.dom() == edges.dom()
    &&& forall|a: Seq<char>, b: Seq<char>| #[trigger] holds(tree, a, b) <==> below(host, a, b) || below(host, b, a)
    &&& forall|n: Seq<char>| #[trigger] host.contains_key(n) ==> edges.contains_key(n)
    &&& forall|i: int|
        0 <= i < order.len() && host.contains_key(#[trigger] order[i]) ==> exists|j: int|
            i < j < order.len() && host[order[i]] == #[trigger] order[j]
    &&& forall|i: int, j: int, v: Seq<char>|
        0 <= i < j < order.len() && host.contains_key(order[i]) && #[trigger] holds(edges, order[i], v)
            && #[trigger] holds(edges, order[j], v) ==> holds(edges, host[order[i]], v)
}

/// The tree is a forest of the relations with the running intersection
/// property.
pub open spec fn is_join_forest(edges: Map<Seq<char>, Set<Seq<char>>>, tree: Map<Seq<char>, Set<Seq<char>>>) -> bool {
    exists|order: Seq<Seq<char>>, host: Map<Seq<char>, Seq<char>>| #[trigger] hangs_in_order(edges, tree, order, host)
}

/// The forest is one tree: every relation but the last hangs below another.
pub open spec fn is_join_tree(edges: Map<Seq<char>, Set<Seq<char>>>, tree: Map<Seq<char>, Set<Seq<char>>>) -> bool {
    exists|order: Seq<Seq<char>>, host: Map<Seq<char>, Seq<char>>| #[trigger]
        hangs_in_order(edges, tree, order, host) && forall|i: int|
            0 <= i < order.len() - 1 ==> host.contains_key(#[trigger] order[i])
}

/// In a join forest ties go both ways and join relations.
pub proof fn law_ties_are_mutual(
    edges: Map<Seq<char>, Set<Seq<char>>>,
    tree: Map<Seq<char>, Set<Seq<char>>>,
    a: Seq<char>,
    b: Seq<char>,
)
    requires
        is_join_forest(edges, tree),
    ensures
        holds(tree, a, b) == holds(tree, b, a),
        holds(tree, a, b) ==> a != b && edges.contains_key(a) && edges.contains_key(b),
{
    let (order, host) = choose|order: Seq<Seq<char>>, host: Map<Seq<char>, Seq<char>>| #[trigger]
        hangs_in_order(edges, tree, order, host);
    assert(holds(tree, a, b) == holds(tree, b, a));
    if holds(tree, a, b) {
        let (c, d) = if below(host, a, b) {
            (a, b)
        } else {
            (b, a)
        };
        assert(below(host, c, d));
        assert(edges.dom().contains(c));
        assert(order.to_set().contains(c));
        let i = choose|i: int| 0 <= i < order.len() && order[i] == c;
        assert(host.contains_key(order[i]));
        let j = choose|j: int| i < j < order.len() && host[order[i]] == #[trigger] order[j];
        assert(order.to_set().contains(order[j]));
        assert(order[i] != order[j]);
    }
}

/// A reduction underway: what was removed so far, and below what.
spec fn underway(
    edges0: Map<Seq<char>, Set<Seq<char>>>,
    edges: Map<Seq<char>, Set<Seq<char>>>,
    tree: Map<Seq<char>, Set<Seq<char>>>,
    removed: Seq<Seq<char>>,
    host: Map<Seq<char>, Seq<char>>,
) -> bool {
    &&& removed.no_duplicates()
    &&& edges.dom().finite()
    &&& forall|n: Seq<char>| #[trigger] edges.contains_key(n) ==> edges0.contains_key(n) && !removed.contains(n)
    &&& forall|n: Seq<char>| #[trigger] removed.contains(n) ==> edges0.contains_key(n)
    &&& forall|n: Seq<char>| #[trigger] edges0.contains_key(n) ==> removed.contains(n) || edges.contains_key(n)
    &&& tree.dom() == edges0.dom()
    &&& forall|a: Seq<char>, b: Seq<char>| #[trigger] holds(tree, a, b) <==> below(host, a, b) || below(host, b, a)
    &&& forall|n: Seq<char>| #[trigger] host.contains_key(n) ==> removed.contains(n)
    &&& forall|i: int|
        0 <= i < removed.len() && host.contains_key(#[trigger] removed[i]) ==> edges.contains_key(host[removed[i]])
            || exists|j: int| i < j < removed.len() && host[removed[i]] == #[trigger] removed[j]
    &&& shrunk_alone(edges0, edges)
    &&& forall|i: int, j: int, v: Seq<char>|
        0 <= i < j < removed.len() && host.contains_key(removed[i]) && #[trigger] holds(edges0, removed[i], v)
            && #[trigger] holds(edges0, removed[j], v) ==> holds(edges0, host[removed[i]], v)
    &&& forall|i: int, f: Seq<char>, v: Seq<char>|
        0 <= i < removed.len() && host.contains_key(removed[i]) && #[trigger] holds(edges0, removed[i], v)
            && edges.contains_key(f) && #[trigger] holds(edges0, f, v) ==> holds(edges0, host[removed[i]], v)
    &&& forall|i: int|
        0 <= i < removed.len() && !host.contains_key(#[trigger] removed[i]) ==> i == removed.len() - 1
            && edges.dom() == Set::<Seq<char>>::empty()
}

/// What is left of a relation are variables of it, and a variable that it lost
/// no other relation that is left ever had.
spec fn shrunk_alone(edges0: Map<Seq<char>, Set<Seq<char>>>, edges: Map<Seq<char>, Set<Seq<char>>>) -> bool {
    &&& forall|e: Seq<char>, v: Seq<char>| #[trigger] holds(edges, e, v) ==> holds(edges0, e, v)
    &&& forall|e: Seq<char>, f: Seq<char>, v: Seq<char>|
        edges.contains_key(e) && edges.contains_key(f) && e != f && #[trigger] holds(edges0, e, v) && #[trigger] holds(
            edges0,
            f,
            v,
        ) ==> holds(edges, e, v)
}

proof fn lemma_start(edges0: Map<Seq<char>, Set<Seq<char>>>)
    requires
        edges0.dom().finite(),
    ensures
        underway(edges0, edges0, bare_tree(edges0), Seq::empty(), Map::empty()),
{
    assert(bare_tree(edges0).dom() =~= edges0.dom());
}

proof fn lemma_variable_goes(
    edges0: Map<Seq<char>, Set<Seq<char>>>,
    edges: Map<Seq<char>, Set<Seq<char>>>,
    tree: Map<Seq<char>, Set<Seq<char>>>,
    removed: Seq<Seq<char>>,
    host: Map<Seq<char>, Seq<char>>,
    v: Seq<char>,
)
    requires
        underway(edges0, edges, tree, removed, host),
        lone_variables(edges).contains(v),
    ensures
        underway(edges0, without(edges, v), tree, removed, host),
{
    let less = without(edges, v);
    assert(less.dom() =~= edges.dom());
    assert forall|n: Seq<char>| #[trigger] less.contains_key(n) == edges.contains_key(n) by {
        assert(less.dom().contains(n) == edges.dom().contains(n));
    }
    assert forall|e: Seq<char>, w: Seq<char>| #[trigger] holds(less, e, w) implies holds(edges0, e, w) by {
        assert(holds(edges, e, w));
    }
    assert forall|e: Seq<char>, f: Seq<char>, w: Seq<char>|
        less.contains_key(e) && less.contains_key(f) && e != f && #[trigger] holds(edges0, e, w) && #[trigger] holds(
            edges0,
            f,
            w,
        ) implies holds(less, e, w) by {
        assert(holds(edges, e, w));
        assert(holds(edges, f, w));
        if w == v {
            let g = choose|g: Seq<char>| #[trigger]
                holds(edges, g, v) && forall|h: Seq<char>| #[trigger] holds(edges, h, v) ==> h == g;
            assert(e == g && f == g);
        }
    }
    assert(shrunk_alone(edges0, less));
}

/// The relations that were removed, and then `e`.
proof fn lemma_one_more(removed: Seq<Seq<char>>, e: Seq<char>)
    requires
        removed.no_duplicates(),
        !removed.contains(e),
    ensures
        removed.push(e).no_duplicates(),
        forall|n: Seq<char>| #[trigger] removed.push(e).contains(n) <==> removed.contains(n) || n == e,
{
    let more = removed.push(e);
    assert forall|n: Seq<char>| #[trigger] more.contains(n) <==> removed.contains(n) || n == e by {
        if removed.contains(n) {
            let i = choose|i: int| 0 <= i < removed.len() && removed[i] == n;
            assert(more[i] == n);
        }
        assert(more[removed.len() as int] == e);
    }
    assert forall|i: int, j: int| 0 <= i < more.len() && 0 <= j < more.len() && i != j implies more[i] != more[j] by {
        if i < removed.len() && j == removed.len() {
            assert(removed.contains(removed[i]));
        } else if j < removed.len() && i == removed.len() {
            assert(removed.contains(removed[j]));
        }
    }
}

#[verifier::spinoff_prover]
proof fn lemma_ear_goes(
    edges0: Map<Seq<char>, Set<Seq<char>>>,
    edges: Map<Seq<char>, Set<Seq<char>>>,
    tree: Map<Seq<char>, Set<Seq<char>>>,
    removed: Seq<Seq<char>>,
    host: Map<Seq<char>, Seq<char>>,
    e: Seq<char>,
    p: Seq<char>,
)
    requires
        underway(edges0, edges, tree, removed, host),
        edges.contains_key(e),
        hosts(edges, e).contains(p),
    ensures
        underway(edges0, edges.remove(e), tied(tree, e, p), removed.push(e), host.insert(e, p)),
{
    let less = edges.remove(e);
    let more = removed.push(e);
    let up = host.insert(e, p);
    let t = tied(tree, e, p);
    lemma_one_more(removed, e);
    assert(!host.contains_key(e));
    assert(t.dom() =~= edges0.dom()) by {
        assert(edges0.dom().contains(e) && edges0.dom().contains(p));
    }
    assert forall|n: Seq<char>| #[trigger] less.contains_key(n) <==> edges.contains_key(n) && n != e by {}
    assert forall|a: Seq<char>, b: Seq<char>| #[trigger] holds(t, a, b) <==> below(up, a, b) || below(up, b, a) by {
        assert(holds(tree, a, b) <==> below(host, a, b) || below(host, b, a));
        assert(tree.dom().contains(e) && tree.dom().contains(p));
    }
    assert forall|i: int| 0 <= i < more.len() && up.contains_key(#[trigger] more[i]) implies less.contains_key(
        up[more[i]],
    ) || exists|j: int| i < j < more.len() && up[more[i]] == #[trigger] more[j] by {
        if i < removed.len() {
            assert(more[i] == removed[i]);
            assert(removed.contains(removed[i]));
            assert(host.contains_key(removed[i]));
            let h = host[removed[i]];
            if edges.contains_key(h) {
                if h == e {
                    assert(more[removed.len() as int] == e);
                }
            } else {
                let j = choose|j: int| i < j < removed.len() && host[removed[i]] == #[trigger] removed[j];
                assert(more[j] == removed[j]);
            }
        } else {
            assert(less.contains_key(p));
        }
    }
    assert forall|x: Seq<char>, v: Seq<char>| #[trigger] holds(less, x, v) implies holds(edges0, x, v) by {
        assert(holds(edges, x, v));
    }
    assert forall|x: Seq<char>, f: Seq<char>, v: Seq<char>|
        less.contains_key(x) && less.contains_key(f) && x != f && #[trigger] holds(edges0, x, v) && #[trigger] holds(
            edges0,
            f,
            v,
        ) implies holds(less, x, v) by {
        assert(holds(edges, x, v));
    }
    // Whatever the ear shares with a relation that is left, its host has.
    assert forall|f: Seq<char>, v: Seq<char>|
        less.contains_key(f) && holds(edges0, e, v) && #[trigger] holds(edges0, f, v) implies holds(edges0, p, v) by {
        assert(holds(edges, e, v));
        assert(edges[e].subset_of(edges[p]));
        assert(holds(edges, p, v));
    }
    assert forall|i: int, j: int, v: Seq<char>|
        0 <= i < j < more.len() && up.contains_key(more[i]) && #[trigger] holds(edges0, more[i], v) && #[trigger] holds(
            edges0,
            more[j],
            v,
        ) implies holds(edges0, up[more[i]], v) by {
        assert(more[i] == removed[i]);
        assert(removed.contains(removed[i]));
        assert(holds(edges0, removed[i], v));
        if j < removed.len() {
            assert(holds(edges0, removed[j], v));
        } else {
            assert(holds(edges0, e, v));
        }
    }
    assert forall|i: int, f: Seq<char>, v: Seq<char>|
        0 <= i < more.len() && up.contains_key(more[i]) && #[trigger] holds(edges0, more[i], v) && less.contains_key(f)
            && #[trigger] holds(edges0, f, v) implies holds(edges0, up[more[i]], v) by {
        if i < removed.len() {
            assert(more[i] == removed[i]);
            assert(removed.contains(removed[i]));
            assert(holds(edges0, removed[i], v));
        }
    }
    assert forall|i: int| 0 <= i < more.len() && !up.contains_key(#[trigger] more[i]) implies i == more.len() - 1
        && less.dom() == Set::<Seq<char>>::empty() by {
        assert(more[i] == removed[i]);
        assert(!host.contains_key(removed[i]));
        assert(edges.dom().contains(e));
    }
}

#[verifier::spinoff_prover]
proof fn lemma_last_goes(
    edges0: Map<Seq<char>, Set<Seq<char>>>,
    edges: Map<Seq<char>, Set<Seq<char>>>,
    tree: Map<Seq<char>, Set<Seq<char>>>,
    removed: Seq<Seq<char>>,
    host: Map<Seq<char>, Seq<char>>,
    e: Seq<char>,
)
    requires
        underway(edges0, edges, tree, removed, host),
        edges.contains_key(e),
        edges.dom().len() == 1,
    ensures
        underway(edges0, edges.remove(e), tree, removed.push(e), host),
{
    let less = edges.remove(e);
    let more = removed.push(e);
    lemma_one_more(removed, e);
    assert(!host.contains_key(e));
    assert(less.dom() =~= edges.dom().remove(e));
    assert(edges.dom().contains(e));
    assert(less.dom().len() == 0);
    assert(less.dom() =~= Set::<Seq<char>>::empty());
    assert forall|n: Seq<char>| #[trigger] less.contains_key(n) implies false by {
        assert(less.dom().contains(n));
    }
    assert forall|n: Seq<char>| #[trigger] edges0.contains_key(n) implies more.contains(n) by {
        if edges.contains_key(n) && n != e {
            assert(less.contains_key(n));
        }
    }
    assert forall|i: int| 0 <= i < more.len() && host.contains_key(#[trigger] more[i]) implies exists|j: int|
        i < j < more.len() && host[more[i]] == #[trigger] more[j] by {
        assert(more[i] == removed[i]);
        let h = host[removed[i]];
        if edges.contains_key(h) {
            if h != e {
                assert(less.contains_key(h));
            }
            assert(more[removed.len() as int] == h);
        } else {
            let j = choose|j: int| i < j < removed.len() && host[removed[i]] == #[trigger] removed[j];
            assert(more[j] == removed[j]);
        }
    }
    assert forall|i: int, j: int, v: Seq<char>|
        0 <= i < j < more.len() && host.contains_key(more[i]) && #[trigger] holds(edges0, more[i], v)
            && #[trigger] holds(edges0, more[j], v) implies holds(edges0, host[more[i]], v) by {
        assert(more[i] == removed[i]);
        assert(holds(edges0, removed[i], v));
        if j < removed.len() {
            assert(holds(edges0, removed[j], v));
        } else {
            assert(holds(edges0, e, v));
        }
    }
    assert forall|i: int| 0 <= i < more.len() && !host.contains_key(#[trigger] more[i]) implies i == more.len() - 1 by {
        if i < removed.len() {
            assert(!host.contains_key(removed[i]));
        }
    }
}

/// The first member of a set that has one is a member.
pub proof fn lemma_least_in(s: Set<Seq<char>>, all: Set<Seq<char>>)
    requires
        inhabited(s),
        all.finite(),
        s.subset_of(all),
    ensures
        s.contains(least(s)),
{
    vstd::set_lib::lemma_set_subset_finite(all, s);
    lemma_finite_listing(s);
    let l = listing(s);
    let some = choose|n: Seq<char>| s.contains(n);
    assert(l.to_set().contains(some));
    assert(l.len() > 0);
    assert(l.to_set().contains(l[0]));
    assert forall|m: Seq<char>| #[trigger] s.contains(m) implies m == l[0] || crate::names::name_less(l[0], m) by {
        assert(l.to_set().contains(m));
        let i = choose|i: int| 0 <= i < l.len() && l[i] == m;
        if i > 0 {
            assert(crate::names::name_less(l[0], l[i]));
        }
    }
    assert(is_least(s, l[0]));
}

/// After each step of a reduction, what was removed hangs as it should.
proof fn lemma_run_hangs(
    edges0: Map<Seq<char>, Set<Seq<char>>>,
    run: Seq<(Map<Seq<char>, Set<Seq<char>>>, Map<Seq<char>, Set<Seq<char>>>)>,
    all: Set<Seq<char>>,
    k: int,
) -> (r: (Seq<Seq<char>>, Map<Seq<char>, Seq<char>>))
    requires
        is_partial_reduction(edges0, run),
        edges0.dom().finite(),
        all.finite(),
        forall|e: Seq<char>, v: Seq<char>| #[trigger] holds(edges0, e, v) ==> all.contains(v),
        0 <= k < run.len(),
    ensures
        underway(edges0, run[k].0, run[k].1, r.0, r.1),
    decreases k,
{
    if k == 0 {
        lemma_start(edges0);
        (Seq::empty(), Map::empty())
    } else {
        let (removed, host) = lemma_run_hangs(edges0, run, all, k - 1);
        let (edges, tree) = run[k - 1];
        assert(reduced_at(run, k - 1));
        if inhabited(ears(edges)) {
            let e = least(ears(edges));
            lemma_least_in(ears(edges), edges.dom());
            if inhabited(hosts(edges, e)) {
                let p = least(hosts(edges, e));
                lemma_least_in(hosts(edges, e), edges.dom());
                lemma_ear_goes(edges0, edges, tree, removed, host, e, p);
                (removed.push(e), host.insert(e, p))
            } else {
                lemma_last_goes(edges0, edges, tree, removed, host, e);
                (removed.push(e), host)
            }
        } else {
            let v = least(lone_variables(edges));
            assert forall|w: Seq<char>| lone_variables(edges).contains(w) implies all.contains(w) by {
                let g = choose|g: Seq<char>| #[trigger]
                    holds(edges, g, w) && forall|h: Seq<char>| #[trigger] holds(edges, h, w) ==> h == g;
                assert(holds(edges0, g, w));
            }
            lemma_least_in(lone_variables(edges), all);
            lemma_variable_goes(edges0, edges, tree, removed, host, v);
            (removed, host)
        }
    }
}

/// A reduction ends with a join forest, and with one join tree where nothing is
/// left.
pub proof fn lemma_reduction_builds_forest(
    edges0: Map<Seq<char>, Set<Seq<char>>>,
    run: Seq<(Map<Seq<char>, Set<Seq<char>>>, Map<Seq<char>, Set<Seq<char>>>)>,
    all: Set<Seq<char>>,
)
    requires
        is_reduction(edges0, run),
        edges0.dom().finite(),
        all.finite(),
        forall|e: Seq<char>, v: Seq<char>| #[trigger] holds(edges0, e, v) ==> all.contains(v),
    ensures
        is_join_forest(edges0, run[run.len() - 1].1),
        run[run.len() - 1].0 == Map::<Seq<char>, Set<Seq<char>>>::empty() ==> is_join_tree(
            edges0,
            run[run.len() - 1].1,
        ),
{
    let (edges, tree) = run[run.len() - 1];
    let (removed, host) = lemma_run_hangs(edges0, run, all, run.len() - 1);
    let rest = listing(edges.dom());
    lemma_finite_listing(edges.dom());
    lemma_ascending_distinct(rest);
    let order = removed + rest;
    lemma_order(edges0, edges, tree, removed, host, rest);
    assert(hangs_in_order(edges0, tree, order, host));
    if edges == Map::<Seq<char>, Set<Seq<char>>>::empty() {
        if rest.len() > 0 {
            assert(rest.to_set().contains(rest[0]));
        }
        assert forall|i: int| 0 <= i < order.len() - 1 implies host.contains_key(#[trigger] order[i]) by {
            assert(order[i] == removed[i]);
        }
    }
}

#[verifier::spinoff_prover]
proof fn lemma_order(
    edges0: Map<Seq<char>, Set<Seq<char>>>,
    edges: Map<Seq<char>, Set<Seq<char>>>,
    tree: Map<Seq<char>, Set<Seq<char>>>,
    removed: Seq<Seq<char>>,
    host: Map<Seq<char>, Seq<char>>,
    rest: Seq<Seq<char>>,
)
    requires
        underway(edges0, edges, tree, removed, host),
        rest.no_duplicates(),
        rest.to_set() == edges.dom(),
    ensures
        hangs_in_order(edges0, tree, removed + rest, host),
{
    let order = removed + rest;
    let n = removed.len() as int;
    assert forall|i: int| 0 <= i < rest.len() implies edges.contains_key(#[trigger] rest[i]) by {
        assert(rest.to_set().contains(rest[i]));
    }
    assert forall|i: int, j: int| 0 <= i < order.len() && 0 <= j < order.len() && i != j implies order[i]
        != order[j] by {
        if i < n && j >= n {
            assert(removed.contains(removed[i]));
            assert(edges.contains_key(rest[j - n]));
        } else if j < n && i >= n {
            assert(removed.contains(removed[j]));
            assert(edges.contains_key(rest[i - n]));
        } else if i >= n {
            assert(rest[i - n] != rest[j - n]);
        }
    }
    assert(order.to_set() =~= edges0.dom()) by {
        assert forall|x: Seq<char>| order.to_set().contains(x) implies edges0.dom().contains(x) by {
            let i = choose|i: int| 0 <= i < order.len() && order[i] == x;
            if i < n {
                assert(removed.contains(removed[i]));
            } else {
                assert(edges.contains_key(rest[i - n]));
            }
            assert(edges0.contains_key(x));
        }
        assert forall|x: Seq<char>| edges0.dom().contains(x) implies order.to_set().contains(x) by {
            assert(edges0.contains_key(x));
            if removed.contains(x) {
                let i = choose|i: int| 0 <= i < removed.len() && removed[i] == x;
                assert(order[i] == x);
            } else {
                assert(rest.to_set().contains(x));
                let i = choose|i: int| 0 <= i < rest.len() && rest[i] == x;
                assert(order[n + i] == x);
            }
        }
    }
    assert forall|x: Seq<char>| #[trigger] host.contains_key(x) implies edges0.contains_key(x) by {
        assert(removed.contains(x));
    }
    assert forall|i: int| 0 <= i < order.len() && host.contains_key(#[trigger] order[i]) implies i < n by {
        if i >= n {
            assert(edges.contains_key(rest[i - n]));
        }
    }
    assert forall|i: int| 0 <= i < order.len() && host.contains_key(#[trigger] order[i]) implies exists|j: int|
        i < j < order.len() && host[order[i]] == #[trigger] order[j] by {
        assert(order[i] == removed[i]);
        let h = host[removed[i]];
        if edges.contains_key(h) {
            assert(rest.to_set().contains(h));
            let k = choose|k: int| 0 <= k < rest.len() && rest[k] == h;
            assert(order[n + k] == h);
        } else {
            let j = choose|j: int| i < j < removed.len() && host[removed[i]] == #[trigger] removed[j];
            assert(order[j] == removed[j]);
        }
    }
    assert forall|i: int, j: int, v: Seq<char>|
        0 <= i < j < order.len() && host.contains_key(order[i]) && #[trigger] holds(edges0, order[i], v)
            && #[trigger] holds(edges0, order[j], v) implies holds(edges0, host[order[i]], v) by {
        assert(order[i] == removed[i]);
        assert(holds(edges0, removed[i], v));
        if j < n {
            assert(holds(edges0, removed[j], v));
        } else {
            assert(edges.contains_key(rest[j - n]));
            assert(holds(edges0, rest[j - n], v));
        }
    }
}

/// Ties lead along the path, over relations that are all `kept`.
pub open spec fn is_path(
    tree: Map<Seq<char>, Set<Seq<char>>>,
    kept: spec_fn(Seq<char>) -> bool,
    path: Seq<Seq<char>>,
) -> bool {
    &&& path.len() > 0
    &&& forall|i: int| 0 <= i < path.len() ==> kept(#[trigger] path[i])
    &&& forall|i: int, j: int|
        0 <= i && j == i + 1 && j < path.len() ==> holds(tree, #[trigger] path[i], #[trigger] path[j])
}

/// A path over `kept` relations leads from `a` to `b`.
pub open spec fn joined_over(
    tree: Map<Seq<char>, Set<Seq<char>>>,
    kept: spec_fn(Seq<char>) -> bool,
    a: Seq<char>,
    b: Seq<char>,
) -> bool {
    exists|path: Seq<Seq<char>>| #[trigger] is_path(tree, kept, path) && path[0] == a && path.last() == b
}

/// From a kept relation up to the last one that is kept.
proof fn lemma_climb(
    edges: Map<Seq<char>, Set<Seq<char>>>,
    tree: Map<Seq<char>, Set<Seq<char>>>,
    order: Seq<Seq<char>>,
    host: Map<Seq<char>, Seq<char>>,
    kept: spec_fn(Seq<char>) -> bool,
    i: int,
    top: int,
) -> (path: Seq<Seq<char>>)
    requires
        hangs_in_order(edges, tree, order, host),
        0 <= i <= top < order.len(),
        kept(order[i]),
        forall|k: int| top < k < order.len() ==> !kept(#[trigger] order[k]),
        forall|k: int|
            0 <= k < top && kept(#[trigger] order[k]) ==> host.contains_key(order[k]) && kept(host[order[k]]),
    ensures
        is_path(tree, kept, path),
        path[0] == order[i],
        path.last() == order[top],
    decreases top - i,
{
    if i == top {
        seq![order[i]]
    } else {
        let j = choose|j: int| i < j < order.len() && host[order[i]] == #[trigger] order[j];
        let rest = lemma_climb(edges, tree, order, host, kept, j, top);
        let path = seq![order[i]] + rest;
        assert(below(host, order[i], order[j]));
        assert(holds(tree, order[i], order[j]));
        assert forall|k: int| 0 <= k < path.len() implies kept(#[trigger] path[k]) by {
            if k > 0 {
                assert(path[k] == rest[k - 1]);
            }
        }
        assert forall|k: int, l: int| 0 <= k && l == k + 1 && l < path.len() implies holds(
            tree,
            #[trigger] path[k],
            #[trigger] path[l],
        ) by {
            if k > 0 {
                assert(path[k] == rest[k - 1] && path[l] == rest[l - 1]);
            } else {
                assert(path[1] == rest[0]);
            }
        }
        assert(path.last() == rest.last());
        path
    }
}

/// Two paths to one relation make up a path.
proof fn lemma_up_and_down(
    tree: Map<Seq<char>, Set<Seq<char>>>,
    kept: spec_fn(Seq<char>) -> bool,
    up: Seq<Seq<char>>,
    other: Seq<Seq<char>>,
)
    requires
        is_path(tree, kept, up),
        is_path(tree, kept, other),
        up.last() == other.last(),
        forall|a: Seq<char>, b: Seq<char>| #[trigger] holds(tree, a, b) == holds(tree, b, a),
    ensures
        joined_over(tree, kept, up[0], other[0]),
{
    let n = up.len() as int;
    let m = other.len() as int;
    let path = Seq::new(
        (n + m - 1) as nat,
        |k: int|
            if k < n {
                up[k]
            } else {
                other[m - 2 - (k - n)]
            },
    );
    assert forall|k: int| 0 <= k < path.len() implies kept(#[trigger] path[k]) by {
        if k < n {
            assert(kept(up[k]));
        } else {
            assert(kept(other[m - 2 - (k - n)]));
        }
    }
    assert forall|k: int, l: int| 0 <= k && l == k + 1 && l < path.len() implies holds(
        tree,
        #[trigger] path[k],
        #[trigger] path[l],
    ) by {
        if l < n {
            assert(holds(tree, up[k], up[l]));
        } else if k < n {
            assert(path[k] == other[m - 1]);
            assert(holds(tree, other[m - 2], other[m - 1]));
        } else {
            assert(holds(tree, other[m - 2 - (l - n)], other[m - 2 - (k - n)]));
        }
    }
    assert(is_path(tree, kept, path));
    assert(path[0] == up[0]);
    assert(path.last() == other[0]);
}

/// The last position of a kept relation.
proof fn lemma_last_kept(order: Seq<Seq<char>>, kept: spec_fn(Seq<char>) -> bool, n: int, some: int) -> (top: int)
    requires
        0 <= some < n <= order.len(),
        kept(order[some]),
        forall|k: int| n <= k < order.len() ==> !kept(#[trigger] order[k]),
    ensures
        some <= top < order.len(),
        kept(order[top]),
        forall|k: int| top < k < order.len() ==> !kept(#[trigger] order[k]),
    decreases n,
{
    if kept(order[n - 1]) {
        n - 1
    } else {
        lemma_last_kept(order, kept, n - 1, some)
    }
}

/// The variable is one of the relation's.
pub open spec fn having(edges: Map<Seq<char>, Set<Seq<char>>>, v: Seq<char>) -> spec_fn(Seq<char>) -> bool {
    |n: Seq<char>| holds(edges, n, v)
}

/// The relation is one of the hypergraph.
pub open spec fn among(edges: Map<Seq<char>, Set<Seq<char>>>) -> spec_fn(Seq<char>) -> bool {
    |n: Seq<char>| edges.contains_key(n)
}

/// In a join tree all relations hang together, and those with a variable in
/// common do so over relations with that variable.
pub proof fn law_join_tree_connects(
    edges: Map<Seq<char>, Set<Seq<char>>>,
    tree: Map<Seq<char>, Set<Seq<char>>>,
    a: Seq<char>,
    b: Seq<char>,
    v: Seq<char>,
)
    requires
        is_join_tree(edges, tree),
        edges.contains_key(a),
        edges.contains_key(b),
    ensures
        joined_over(tree, among(edges), a, b),
        holds(edges, a, v) && holds(edges, b, v) ==> joined_over(tree, having(edges, v), a, b),
{
    let (order, host) = choose|order: Seq<Seq<char>>, host: Map<Seq<char>, Seq<char>>| #[trigger]
        hangs_in_order(edges, tree, order, host) && forall|i: int|
            0 <= i < order.len() - 1 ==> host.contains_key(#[trigger] order[i]);
    assert(order.to_set().contains(a) && order.to_set().contains(b));
    let i = choose|i: int| 0 <= i < order.len() && order[i] == a;
    let j = choose|j: int| 0 <= j < order.len() && order[j] == b;
    assert forall|x: Seq<char>, y: Seq<char>| #[trigger] holds(tree, x, y) == holds(tree, y, x) by {}
    let all = among(edges);
    assert forall|k: int| 0 <= k < order.len() - 1 && all(#[trigger] order[k]) implies host.contains_key(order[k])
        && all(host[order[k]]) by {
        let l = choose|l: int| k < l < order.len() && host[order[k]] == #[trigger] order[l];
        assert(order.to_set().contains(order[l]));
    }
    let up = lemma_climb(edges, tree, order, host, all, i, order.len() - 1);
    let other = lemma_climb(edges, tree, order, host, all, j, order.len() - 1);
    lemma_up_and_down(tree, all, up, other);
    if holds(edges, a, v) && holds(edges, b, v) {
        let kept = having(edges, v);
        let top = lemma_last_kept(order, kept, order.len() as int, i);
        if j > top {
            assert(!kept(order[j]));
        }
        assert forall|k: int| 0 <= k < top && kept(#[trigger] order[k]) implies host.contains_key(order[k]) && kept(
            host[order[k]],
        ) by {
            assert(holds(edges, order[k], v) && holds(edges, order[top], v));
        }
        let up = lemma_climb(edges, tree, order, host, kept, i, top);
        let other = lemma_climb(edges, tree, order, host, kept, j, top);
        lemma_up_and_down(tree, kept, up, other);
    }
}

} // verus!
