//! A hypergraph is acyclic by reduction exactly where it has a join tree.
use vstd::prelude::*;

use crate::operator::hypergraph::{
    bare_tree, ears, gyo_acyclic, gyo_step, holds, hosts, inhabited, is_partial_reduction, is_reduction, least,
    lemma_reduction_end, lemma_run_grows, lone_variables, reduced_at, without,
};
use crate::operator::join_forest::{hangs_in_order, is_join_tree, lemma_least_in, lemma_reduction_builds_forest};

verus! {

/// The relations have a join tree: a tree of them in which those with a variable
/// in common hang together over relations that have it.
pub open spec fn has_join_tree(edges: Map<Seq<char>, Set<Seq<char>>>) -> bool {
    exists|tree: Map<Seq<char>, Set<Seq<char>>>| #[trigger] is_join_tree(edges, tree)
}

/// The relations in an order in which each but the last hangs below the one at
/// `up`. What it shares with a later relation, that one has too.
spec fn hung(edges: Map<Seq<char>, Set<Seq<char>>>, order: Seq<Seq<char>>, up: Seq<int>) -> bool {
    &&& order.no_duplicates()
    &&& up.len() == order.len()
    &&& forall|i: int| 0 <= i < order.len() ==> edges.contains_key(#[trigger] order[i])
    &&& forall|n: Seq<char>| #[trigger] edges.contains_key(n) ==> order.contains(n)
    &&& forall|i: int| 0 <= i < order.len() - 1 ==> i < #[trigger] up[i] < order.len()
    &&& forall|i: int, j: int, v: Seq<char>|
        0 <= i < j < order.len() && #[trigger] holds(edges, order[i], v) && #[trigger] holds(edges, order[j], v)
            ==> holds(edges, order[up[i]], v)
}

proof fn lemma_tree_hangs(edges: Map<Seq<char>, Set<Seq<char>>>, tree: Map<Seq<char>, Set<Seq<char>>>) -> (r: (
    Seq<Seq<char>>,
    Seq<int>,
))
    requires
        is_join_tree(edges, tree),
    ensures
        hung(edges, r.0, r.1),
{
    let (order, host) = choose|order: Seq<Seq<char>>, host: Map<Seq<char>, Seq<char>>| #[trigger]
        hangs_in_order(edges, tree, order, host) && forall|i: int|
            0 <= i < order.len() - 1 ==> host.contains_key(#[trigger] order[i]);
    let up = Seq::new(
        order.len(),
        |i: int| choose|j: int| i < j < order.len() && host[order[i]] == #[trigger] order[j],
    );
    assert forall|i: int| 0 <= i < order.len() - 1 implies i < #[trigger] up[i] < order.len() && host[order[i]]
        == order[up[i]] by {
        assert(host.contains_key(order[i]));
        let j = choose|j: int| i < j < order.len() && host[order[i]] == #[trigger] order[j];
        assert(up[i] == j);
    }
    assert forall|i: int| 0 <= i < order.len() implies edges.contains_key(#[trigger] order[i]) by {
        assert(order.to_set().contains(order[i]));
        assert(edges.dom().contains(order[i]));
    }
    assert forall|n: Seq<char>| #[trigger] edges.contains_key(n) implies order.contains(n) by {
        assert(order.to_set().contains(n));
    }
    assert forall|i: int, j: int, v: Seq<char>|
        0 <= i < j < order.len() && #[trigger] holds(edges, order[i], v) && #[trigger] holds(edges, order[j], v)
        implies holds(edges, order[up[i]], v) by {
        assert(host.contains_key(order[i]));
    }
    (order, up)
}

/// Where relations hang together, the first one can go or has a variable to
/// itself.
proof fn lemma_step_left(edges: Map<Seq<char>, Set<Seq<char>>>, order: Seq<Seq<char>>, up: Seq<int>)
    requires
        hung(edges, order, up),
        edges.dom().finite(),
        order.len() > 0,
    ensures
        inhabited(ears(edges)) || inhabited(lone_variables(edges)),
{
    let e = order[0];
    assert(edges.contains_key(e));
    if order.len() == 1 {
        if edges[e] =~= Set::<Seq<char>>::empty() {
            assert(edges.dom() =~= set![e]) by {
                assert forall|n: Seq<char>| edges.dom().contains(n) implies n == e by {
                    assert(edges.contains_key(n));
                    assert(order.contains(n));
                }
            }
            assert(ears(edges).contains(e));
        } else {
            let v = choose|v: Seq<char>| edges[e].contains(v);
            assert(holds(edges, e, v));
            assert forall|f: Seq<char>| #[trigger] holds(edges, f, v) implies f == e by {
                assert(edges.contains_key(f));
                assert(order.contains(f));
            }
            assert(lone_variables(edges).contains(v));
        }
    } else {
        let p = order[up[0]];
        assert(edges.contains_key(p));
        assert(order[0] != order[up[0]]);
        if edges[e].subset_of(edges[p]) {
            assert(hosts(edges, e).contains(p));
            assert(ears(edges).contains(e));
        } else {
            let v = choose|v: Seq<char>| edges[e].contains(v) && !edges[p].contains(v);
            assert(holds(edges, e, v) && !holds(edges, p, v));
            assert forall|f: Seq<char>| #[trigger] holds(edges, f, v) implies f == e by {
                assert(edges.contains_key(f));
                let j = choose|j: int| 0 <= j < order.len() && order[j] == f;
                if j > 0 {
                    assert(holds(edges, order[0], v) && holds(edges, order[j], v));
                }
            }
            assert(lone_variables(edges).contains(v));
        }
    }
}

proof fn lemma_hung_without(edges: Map<Seq<char>, Set<Seq<char>>>, order: Seq<Seq<char>>, up: Seq<int>, w: Seq<char>)
    requires
        hung(edges, order, up),
    ensures
        hung(without(edges, w), order, up),
{
    let less = without(edges, w);
    assert forall|n: Seq<char>, v: Seq<char>| #[trigger] holds(less, n, v) <==> holds(edges, n, v) && v != w by {}
    assert forall|n: Seq<char>| #[trigger] less.contains_key(n) <==> edges.contains_key(n) by {}
    assert forall|i: int, j: int, v: Seq<char>|
        0 <= i < j < order.len() && #[trigger] holds(less, order[i], v) && #[trigger] holds(less, order[j], v)
        implies holds(less, order[up[i]], v) by {
        assert(holds(edges, order[i], v) && holds(edges, order[j], v));
    }
}

/// A position in a listing that has lost the one at `a`.
spec fn shifted(a: int, x: int) -> int {
    if x > a {
        x - 1
    } else {
        x
    }
}

/// A position in a listing before it lost the one at `a`.
spec fn unshifted(a: int, x: int) -> int {
    if x >= a {
        x + 1
    } else {
        x
    }
}

proof fn lemma_less_holds(edges: Map<Seq<char>, Set<Seq<char>>>, e: Seq<char>)
    ensures
        forall|n: Seq<char>, v: Seq<char>| #[trigger]
            holds(edges.remove(e), n, v) <==> holds(edges, n, v) && n != e,
        forall|n: Seq<char>| #[trigger] edges.remove(e).contains_key(n) <==> edges.contains_key(n) && n != e,
{
}

/// A relation whose variables the one above it all has can go: what hangs below
/// it hangs below that one.
#[verifier::spinoff_prover]
proof fn lemma_fold_up(edges: Map<Seq<char>, Set<Seq<char>>>, order: Seq<Seq<char>>, up: Seq<int>, a: int) -> (r: (
    Seq<Seq<char>>,
    Seq<int>,
))
    requires
        hung(edges, order, up),
        0 <= a < order.len() - 1,
        edges[order[a]].subset_of(edges[order[up[a]]]),
    ensures
        hung(edges.remove(order[a]), r.0, r.1),
{
    let e = order[a];
    let less = edges.remove(e);
    lemma_less_holds(edges, e);
    let short = order.remove(a);
    let to = |i: int|
        if up[i] == a {
            up[a]
        } else {
            up[i]
        };
    let hosts_up = Seq::new(short.len(), |k: int| shifted(a, to(unshifted(a, k))));
    assert(edges.contains_key(order[a]));
    assert forall|k: int| 0 <= k < short.len() implies short[k] == order[unshifted(a, k)] by {}
    assert(short.no_duplicates());
    assert forall|k: int| 0 <= k < short.len() implies less.contains_key(#[trigger] short[k]) by {
        assert(edges.contains_key(order[unshifted(a, k)]));
        assert(order[unshifted(a, k)] != order[a]);
    }
    assert forall|n: Seq<char>| #[trigger] less.contains_key(n) implies short.contains(n) by {
        assert(order.contains(n));
        let i = choose|i: int| 0 <= i < order.len() && order[i] == n;
        assert(short[shifted(a, i)] == n);
    }
    assert forall|k: int| 0 <= k < short.len() - 1 implies k < #[trigger] hosts_up[k] < short.len() by {
        let i = unshifted(a, k);
        assert(i < up[i] < order.len());
        assert(a < up[a] < order.len());
    }
    assert forall|k: int, l: int, v: Seq<char>|
        0 <= k < l < short.len() && #[trigger] holds(less, short[k], v) && #[trigger] holds(less, short[l], v)
        implies holds(less, short[hosts_up[k]], v) by {
        let i = unshifted(a, k);
        let j = unshifted(a, l);
        assert(holds(edges, order[i], v) && holds(edges, order[j], v));
        assert(holds(edges, order[up[i]], v));
        assert(i < up[i] < order.len());
        assert(a < up[a] < order.len());
        let target = to(i);
        assert(target != a);
        if up[i] == a {
            assert(edges[e].contains(v));
            assert(edges.contains_key(order[up[a]]));
            assert(holds(edges, order[target], v));
        }
        assert(short[hosts_up[k]] == order[target]);
        assert(order[target] != order[a]);
    }
    (short, hosts_up)
}

/// A relation whose variables one that hangs below it all has can go: that one
/// takes its place.
#[verifier::spinoff_prover]
proof fn lemma_fold_down(
    edges: Map<Seq<char>, Set<Seq<char>>>,
    order: Seq<Seq<char>>,
    up: Seq<int>,
    a: int,
    b: int,
) -> (r: (Seq<Seq<char>>, Seq<int>))
    requires
        hung(edges, order, up),
        0 <= b < a < order.len(),
        up[b] == a,
        edges[order[a]].subset_of(edges[order[b]]),
    ensures
        hung(edges.remove(order[a]), r.0, r.1),
{
    let e = order[a];
    let n = order[b];
    let less = edges.remove(e);
    lemma_less_holds(edges, e);
    let moved = order.update(a, n);
    let short = moved.remove(b);
    let to = |i: int|
        if up[i] == b {
            a
        } else {
            up[i]
        };
    let hosts_up = Seq::new(short.len(), |k: int| shifted(b, to(unshifted(b, k))));
    assert(edges.contains_key(order[a]) && edges.contains_key(order[b]));
    assert(order[a] != order[b]);
    assert forall|k: int| 0 <= k < short.len() implies short[k] == moved[unshifted(b, k)] && unshifted(b, k) != b by {}
    assert forall|k: int, l: int| 0 <= k < short.len() && 0 <= l < short.len() && k != l implies short[k] != short[l] by {
        let i = unshifted(b, k);
        let j = unshifted(b, l);
        assert(order[i] != order[j]);
        assert(order[i] != order[b] && order[j] != order[b]);
    }
    assert(short.no_duplicates());
    assert forall|k: int| 0 <= k < short.len() implies less.contains_key(#[trigger] short[k]) by {
        let i = unshifted(b, k);
        assert(edges.contains_key(order[i]));
        if i != a {
            assert(order[i] != order[a]);
        }
    }
    assert forall|x: Seq<char>| #[trigger] less.contains_key(x) implies short.contains(x) by {
        assert(order.contains(x));
        let i = choose|i: int| 0 <= i < order.len() && order[i] == x;
        if i == b {
            assert(short[shifted(b, a)] == x);
        } else {
            assert(short[shifted(b, i)] == x);
        }
    }
    assert forall|k: int| 0 <= k < short.len() - 1 implies k < #[trigger] hosts_up[k] < short.len() by {
        let i = unshifted(b, k);
        assert(i < up[i] < order.len());
    }
    assert forall|k: int, l: int, v: Seq<char>|
        0 <= k < l < short.len() && #[trigger] holds(less, short[k], v) && #[trigger] holds(less, short[l], v)
        implies holds(less, short[hosts_up[k]], v) by {
        let i = unshifted(b, k);
        let j = unshifted(b, l);
        assert(i < up[i] < order.len());
        let target = to(i);
        assert(target != b);
        assert(short[hosts_up[k]] == moved[target]);
        if i == a {
            // What `n` shares with a later relation, `e` has, and so the one above it.
            assert(holds(edges, order[b], v) && holds(edges, order[j], v));
            assert(holds(edges, order[a], v));
            assert(holds(edges, order[up[a]], v));
            assert(order[up[a]] != order[a]);
        } else if j == a {
            assert(holds(edges, order[i], v) && holds(edges, order[b], v));
            if i < b {
                assert(holds(edges, order[up[i]], v));
            } else {
                assert(holds(edges, order[a], v));
                assert(holds(edges, order[up[i]], v));
            }
            lemma_target(edges, order, up, a, b, i, v);
        } else {
            assert(holds(edges, order[i], v) && holds(edges, order[j], v));
            assert(holds(edges, order[up[i]], v));
            lemma_target(edges, order, up, a, b, i, v);
        }
    }
    (short, hosts_up)
}

/// What is above a relation still has a variable when `order[b]` stands in for
/// `order[a]`.
proof fn lemma_target(
    edges: Map<Seq<char>, Set<Seq<char>>>,
    order: Seq<Seq<char>>,
    up: Seq<int>,
    a: int,
    b: int,
    i: int,
    v: Seq<char>,
)
    requires
        hung(edges, order, up),
        0 <= b < a < order.len(),
        edges[order[a]].subset_of(edges[order[b]]),
        0 <= i < order.len() - 1,
        holds(edges, order[up[i]], v),
    ensures
        ({
            let target = if up[i] == b {
                a
            } else {
                up[i]
            };
            holds(edges.remove(order[a]), order.update(a, order[b])[target], v)
        }),
{
    lemma_less_holds(edges, order[a]);
    assert(i < up[i] < order.len());
    assert(order[a] != order[b]);
    assert(edges.contains_key(order[b]));
    if up[i] != b && up[i] != a {
        assert(order[up[i]] != order[a]);
    }
}

/// A relation contained in another can go: what is left hangs together.
proof fn lemma_hung_less(
    edges: Map<Seq<char>, Set<Seq<char>>>,
    order: Seq<Seq<char>>,
    up: Seq<int>,
    a: int,
    p: int,
) -> (r: (Seq<Seq<char>>, Seq<int>))
    requires
        hung(edges, order, up),
        0 <= a < order.len(),
        0 <= p < order.len(),
        a != p,
        edges[order[a]].subset_of(edges[order[p]]),
    ensures
        hung(edges.remove(order[a]), r.0, r.1),
    decreases order.len() - p,
{
    let e = order[a];
    assert(edges.contains_key(order[a]) && edges.contains_key(order[p]));
    if a < p {
        assert(a < up[a] < order.len());
        assert(edges.contains_key(order[up[a]]));
        assert(edges[e].subset_of(edges[order[up[a]]])) by {
            assert forall|v: Seq<char>| edges[e].contains(v) implies edges[order[up[a]]].contains(v) by {
                assert(holds(edges, order[a], v) && holds(edges, order[p], v));
                assert(holds(edges, order[up[a]], v));
            }
        }
        lemma_fold_up(edges, order, up, a)
    } else {
        let q = up[p];
        assert(p < up[p] < order.len());
        if q == a {
            lemma_fold_down(edges, order, up, a, p)
        } else {
            assert(edges.contains_key(order[q]));
            assert(edges[e].subset_of(edges[order[q]])) by {
                assert forall|v: Seq<char>| edges[e].contains(v) implies edges[order[q]].contains(v) by {
                    assert(holds(edges, order[p], v) && holds(edges, order[a], v));
                    assert(holds(edges, order[up[p]], v));
                }
            }
            lemma_hung_less(edges, order, up, a, q)
        }
    }
}

/// The last relation can go.
proof fn lemma_hung_none(edges: Map<Seq<char>, Set<Seq<char>>>, e: Seq<char>)
    requires
        edges.contains_key(e),
        edges.dom().finite(),
        edges.dom().len() == 1,
    ensures
        hung(edges.remove(e), Seq::empty(), Seq::empty()),
{
    assert(edges.remove(e).dom() =~= edges.dom().remove(e));
    assert(edges.dom().contains(e));
    assert(edges.remove(e).dom().len() == 0);
    assert forall|n: Seq<char>| #[trigger] edges.remove(e).contains_key(n) implies false by {
        assert(edges.remove(e).dom().contains(n));
    }
}

/// A step leaves relations that hang together so.
proof fn lemma_step_keeps(
    edges: Map<Seq<char>, Set<Seq<char>>>,
    tree: Map<Seq<char>, Set<Seq<char>>>,
    order: Seq<Seq<char>>,
    up: Seq<int>,
    all: Set<Seq<char>>,
) -> (r: (Seq<Seq<char>>, Seq<int>))
    requires
        hung(edges, order, up),
        edges.dom().finite(),
        all.finite(),
        forall|e: Seq<char>, v: Seq<char>| #[trigger] holds(edges, e, v) ==> all.contains(v),
        gyo_step((edges, tree)) is Some,
    ensures
        hung((gyo_step((edges, tree))->0).0, r.0, r.1),
        (gyo_step((edges, tree))->0).0.dom().finite(),
        (gyo_step((edges, tree))->0).0.dom().subset_of(edges.dom()),
        forall|e: Seq<char>, v: Seq<char>| #[trigger]
            holds((gyo_step((edges, tree))->0).0, e, v) ==> holds(edges, e, v),
{
    if inhabited(ears(edges)) {
        let e = least(ears(edges));
        lemma_least_in(ears(edges), edges.dom());
        lemma_less_holds(edges, e);
        if inhabited(hosts(edges, e)) {
            let p = least(hosts(edges, e));
            lemma_least_in(hosts(edges, e), edges.dom());
            assert(order.contains(e) && order.contains(p));
            let i = choose|i: int| 0 <= i < order.len() && order[i] == e;
            let j = choose|j: int| 0 <= j < order.len() && order[j] == p;
            lemma_hung_less(edges, order, up, i, j)
        } else {
            lemma_hung_none(edges, e);
            (Seq::empty(), Seq::empty())
        }
    } else {
        let v = least(lone_variables(edges));
        let less = without(edges, v);
        assert(less.dom() =~= edges.dom());
        assert forall|e: Seq<char>, w: Seq<char>| #[trigger] holds(less, e, w) implies holds(edges, e, w) by {}
        lemma_hung_without(edges, order, up, v);
        (order, up)
    }
}

proof fn lemma_run_keeps(
    edges0: Map<Seq<char>, Set<Seq<char>>>,
    run: Seq<(Map<Seq<char>, Set<Seq<char>>>, Map<Seq<char>, Set<Seq<char>>>)>,
    order: Seq<Seq<char>>,
    up: Seq<int>,
    all: Set<Seq<char>>,
    k: int,
) -> (r: (Seq<Seq<char>>, Seq<int>))
    requires
        is_partial_reduction(edges0, run),
        hung(edges0, order, up),
        edges0.dom().finite(),
        all.finite(),
        forall|e: Seq<char>, v: Seq<char>| #[trigger] holds(edges0, e, v) ==> all.contains(v),
        0 <= k < run.len(),
    ensures
        hung(run[k].0, r.0, r.1),
        run[k].0.dom().finite(),
        forall|e: Seq<char>, v: Seq<char>| #[trigger] holds(run[k].0, e, v) ==> all.contains(v),
    decreases k,
{
    if k == 0 {
        (order, up)
    } else {
        let (o, u) = lemma_run_keeps(edges0, run, order, up, all, k - 1);
        assert(reduced_at(run, k - 1));
        let r = lemma_step_keeps(run[k - 1].0, run[k - 1].1, o, u, all);
        assert forall|e: Seq<char>, v: Seq<char>| #[trigger] holds(run[k].0, e, v) implies all.contains(v) by {
            assert(holds(run[k - 1].0, e, v));
        }
        r
    }
}

/// A reduction of relations that have a join tree leaves nothing.
pub proof fn lemma_reduction_is_complete(
    edges0: Map<Seq<char>, Set<Seq<char>>>,
    run: Seq<(Map<Seq<char>, Set<Seq<char>>>, Map<Seq<char>, Set<Seq<char>>>)>,
    all: Set<Seq<char>>,
)
    requires
        is_reduction(edges0, run),
        has_join_tree(edges0),
        edges0.dom().finite(),
        all.finite(),
        forall|e: Seq<char>, v: Seq<char>| #[trigger] holds(edges0, e, v) ==> all.contains(v),
    ensures
        run[run.len() - 1].0 == Map::<Seq<char>, Set<Seq<char>>>::empty(),
{
    let tree = choose|tree: Map<Seq<char>, Set<Seq<char>>>| #[trigger] is_join_tree(edges0, tree);
    let (order, up) = lemma_tree_hangs(edges0, tree);
    let n = run.len() - 1;
    let (o, u) = lemma_run_keeps(edges0, run, order, up, all, n);
    let edges = run[n].0;
    if o.len() > 0 {
        lemma_step_left(edges, o, u);
    }
    assert forall|e: Seq<char>| !edges.dom().contains(e) by {
        if edges.contains_key(e) {
            assert(o.contains(e));
        }
    }
    assert(edges =~= Map::<Seq<char>, Set<Seq<char>>>::empty());
}

/// A reduction can be carried on until no step is left.
proof fn lemma_reduction_goes_on(
    edges0: Map<Seq<char>, Set<Seq<char>>>,
    run: Seq<(Map<Seq<char>, Set<Seq<char>>>, Map<Seq<char>, Set<Seq<char>>>)>,
    left: Set<Seq<char>>,
) -> (r: Seq<(Map<Seq<char>, Set<Seq<char>>>, Map<Seq<char>, Set<Seq<char>>>)>)
    requires
        is_partial_reduction(edges0, run),
        run[run.len() - 1].0.dom().finite(),
        left.finite(),
        forall|e: Seq<char>, v: Seq<char>| #[trigger] holds(run[run.len() - 1].0, e, v) ==> left.contains(v),
    ensures
        is_reduction(edges0, r),
    decreases run[run.len() - 1].0.dom().len() + left.len(),
{
    let (edges, tree) = run[run.len() - 1];
    match gyo_step((edges, tree)) {
        None => run,
        Some(next) => {
            lemma_run_grows(edges0, run, next);
            let longer = run.push(next);
            if inhabited(ears(edges)) {
                let e = least(ears(edges));
                lemma_least_in(ears(edges), edges.dom());
                lemma_less_holds(edges, e);
                assert(next.0.dom() =~= edges.dom().remove(e));
                assert(edges.dom().contains(e));
                assert forall|f: Seq<char>, v: Seq<char>| #[trigger] holds(next.0, f, v) implies left.contains(v) by {
                    assert(holds(edges, f, v));
                }
                lemma_reduction_goes_on(edges0, longer, left)
            } else {
                let v = least(lone_variables(edges));
                assert forall|w: Seq<char>| lone_variables(edges).contains(w) implies left.contains(w) by {
                    let g = choose|g: Seq<char>| #[trigger]
                        holds(edges, g, w) && forall|h: Seq<char>| #[trigger] holds(edges, h, w) ==> h == g;
                    assert(holds(edges, g, w));
                }
                lemma_least_in(lone_variables(edges), left);
                assert(next.0.dom() =~= edges.dom());
                assert forall|f: Seq<char>, w: Seq<char>| #[trigger] holds(next.0, f, w) implies left.remove(
                    v,
                ).contains(w) by {
                    assert(holds(edges, f, w));
                }
                lemma_reduction_goes_on(edges0, longer, left.remove(v))
            }
        },
    }
}

/// The test for acyclicity is sound and complete: a hypergraph of finitely many
/// relations and variables passes it exactly where its relations have a join
/// tree.
pub proof fn law_acyclic_means_join_tree(edges: Map<Seq<char>, Set<Seq<char>>>, all: Set<Seq<char>>)
    requires
        edges.dom().finite(),
        all.finite(),
        forall|e: Seq<char>, v: Seq<char>| #[trigger] holds(edges, e, v) ==> all.contains(v),
    ensures
        gyo_acyclic(edges) == has_join_tree(edges),
{
    let start = seq![(edges, bare_tree(edges))];
    let run = lemma_reduction_goes_on(edges, start, all);
    lemma_reduction_end(edges, run);
    lemma_reduction_builds_forest(edges, run, all);
    if has_join_tree(edges) {
        lemma_reduction_is_complete(edges, run, all);
    }
}

} // verus!
