//! Greedy elimination of the vertices of a graph by minimum fill.
use vstd::prelude::*;

use crate::name_sets::{copy_sets, has_member, no_sets, put_set, set_map, sets_wf};
use crate::names::{
    lemma_ascending_distinct, lemma_less_asymmetric, lemma_less_irreflexive, name_less, text, NameMap, NameSet,
};
use crate::operator::graph_search::undirected;
use crate::operator::hypergraph::lemma_keys;

verus! {

/// The pairs of neighbours of `v`, in order, that no edge joins.
pub open spec fn missing_pairs(
    g: Map<Seq<char>, Set<Seq<char>>>,
    neighbors: Set<Seq<char>>,
) -> Set<(Seq<char>, Seq<char>)> {
    Set::new(
        |p: (Seq<char>, Seq<char>)|
            neighbors.contains(p.0) && neighbors.contains(p.1) && name_less(p.0, p.1) && !(g.contains_key(p.0)
                && g[p.0].contains(p.1)),
    )
}

/// How many edges the elimination of `v` adds.
pub open spec fn fill(g: Map<Seq<char>, Set<Seq<char>>>, v: Seq<char>) -> nat {
    missing_pairs(g, g[v]).len()
}

/// `v` is cheaper than `w`: less fill, or as much fill and fewer neighbours, or
/// the same of both and first in order.
pub open spec fn cheaper(g: Map<Seq<char>, Set<Seq<char>>>, v: Seq<char>, w: Seq<char>) -> bool {
    ||| fill(g, v) < fill(g, w)
    ||| fill(g, v) == fill(g, w) && g[v].len() < g[w].len()
    ||| fill(g, v) == fill(g, w) && g[v].len() == g[w].len() && name_less(v, w)
}

pub open spec fn is_cheapest(g: Map<Seq<char>, Set<Seq<char>>>, v: Seq<char>) -> bool {
    &&& g.contains_key(v)
    &&& forall|w: Seq<char>| #[trigger] g.contains_key(w) ==> w == v || cheaper(g, v, w)
}

pub open spec fn cheapest(g: Map<Seq<char>, Set<Seq<char>>>) -> Seq<char> {
    choose|v: Seq<char>| is_cheapest(g, v)
}

proof fn lemma_cheapest(g: Map<Seq<char>, Set<Seq<char>>>, v: Seq<char>)
    requires
        is_cheapest(g, v),
    ensures
        cheapest(g) == v,
{
    let w = cheapest(g);
    assert(is_cheapest(g, w));
    if w != v {
        assert(g.contains_key(w) && g.contains_key(v));
        if name_less(v, w) {
            lemma_less_asymmetric(v, w);
        }
    }
}

/// The graph without `v`, whose neighbours are now all joined.
pub open spec fn eliminate(g: Map<Seq<char>, Set<Seq<char>>>, v: Seq<char>) -> Map<Seq<char>, Set<Seq<char>>> {
    Map::new(
        |u: Seq<char>| g.contains_key(u) && u != v,
        |u: Seq<char>|
            if g[v].contains(u) {
                g[u].union(g[v]).remove(u).remove(v)
            } else {
                g[u]
            },
    )
}

/// The vertices in the order in which they go, the cheapest first each time.
pub open spec fn elimination(g: Map<Seq<char>, Set<Seq<char>>>) -> Seq<Seq<char>>
    decreases g.dom().len(),
    when g.dom().finite()
{
    if g.dom().len() == 0 || !g.contains_key(cheapest(g)) {
        Seq::empty()
    } else {
        let v = cheapest(g);
        proof {
            assert(eliminate(g, v).dom() =~= g.dom().remove(v));
        }
        seq![v] + elimination(eliminate(g, v))
    }
}

/// Eliminating keeps a graph undirected.
proof fn lemma_eliminate(g: Map<Seq<char>, Set<Seq<char>>>, v: Seq<char>)
    requires
        undirected(g),
        g.contains_key(v),
    ensures
        undirected(eliminate(g, v)),
        eliminate(g, v).dom() == g.dom().remove(v),
{
    let e = eliminate(g, v);
    assert(e.dom() =~= g.dom().remove(v));
    assert forall|a: Seq<char>, b: Seq<char>| e.contains_key(a) && #[trigger] e[a].contains(b) implies a != b
        && e.contains_key(b) && e[b].contains(a) by {
        if g[v].contains(a) {
            if g[a].contains(b) {
                assert(g[b].contains(a));
            } else {
                assert(g[v].contains(b));
            }
            assert(g[v].contains(b) || g[b].contains(a));
        } else {
            assert(g[a].contains(b));
            assert(g[b].contains(a));
            if b == v {
                assert(g[v].contains(a));
            }
        }
    }
}

/// Counts the pairs of neighbours that no edge joins.
#[verifier::rlimit(30)]
fn compute_fill_in(neighbors: &NameSet, graph: &NameMap<NameSet>) -> (r: u128)
    requires
        neighbors.wf(),
        sets_wf(graph),
    ensures
        r == missing_pairs(set_map(graph), neighbors@).len(),
{
    let ghost g = set_map(graph);
    let ghost l = neighbors.listed();
    let mut missing: u128 = 0;
    let ghost mut seen: Set<(Seq<char>, Seq<char>)> = Set::empty();
    let mut i: usize = 0;
    let n: usize = neighbors.len();
    while i < n
        invariant
            neighbors.wf(),
            sets_wf(graph),
            g == set_map(graph),
            l == neighbors.listed(),
            n == l.len(),
            i <= n,
            seen.finite(),
            seen.len() == missing,
            missing <= i * n,
            forall|p: (Seq<char>, Seq<char>)| #[trigger] seen.contains(p) <==> pair_before(g, l, i as int, 0, p),
        decreases n - i,
    {
        let u = neighbors.get(i);
        let mut j: usize = i + 1;
        while j < n
            invariant
                neighbors.wf(),
                sets_wf(graph),
                g == set_map(graph),
                l == neighbors.listed(),
                n == l.len(),
                i < j <= n,
                u@ == l[i as int],
                seen.finite(),
                seen.len() == missing,
                missing <= i * n + j,
                forall|p: (Seq<char>, Seq<char>)| #[trigger]
                    seen.contains(p) <==> pair_before(g, l, i as int, j as int, p),
            decreases n - j,
        {
            let v = neighbors.get(j);
            proof {
                lemma_ascending_distinct(l);
                assert(i * n + j + 1 <= u128::MAX) by (nonlinear_arith)
                    requires
                        i < usize::MAX,
                        j < usize::MAX,
                        n <= usize::MAX,
                ;
            }
            let ghost seen0 = seen;
            if !has_member(graph, u, v) {
                missing += 1;
                proof {
                    let q = (l[i as int], l[j as int]);
                    assert(!seen.contains(q)) by {
                        if pair_before(g, l, i as int, j as int, q) {
                            let (a, b) = choose|a: int, b: int|
                                #![trigger l[a], l[b]]
                                0 <= a < b < l.len() && (a < i || a == i && b < j) && q == (l[a], l[b]);
                            assert(a == i && b == j);
                        }
                    }
                    seen = seen.insert(q);
                }
            }
            proof {
                assert forall|p: (Seq<char>, Seq<char>)| #[trigger]
                    seen.contains(p) <==> pair_before(g, l, i as int, j + 1, p) by {
                    let q = (l[i as int], l[j as int]);
                    if pair_before(g, l, i as int, j + 1, p) && !pair_before(g, l, i as int, j as int, p) {
                        let (a, b) = choose|a: int, b: int|
                            #![trigger l[a], l[b]]
                            0 <= a < b < l.len() && (a < i || a == i && b < j + 1) && p == (l[a], l[b]);
                        assert(a == i && b == j);
                    }
                    if p == q && seen.contains(p) && !seen0.contains(p) {
                        assert(p == (l[i as int], l[j as int]));
                        assert(pair_before(g, l, i as int, j + 1, p));
                    }
                    if pair_before(g, l, i as int, j as int, p) {
                        let (a, b) = choose|a: int, b: int|
                            #![trigger l[a], l[b]]
                            0 <= a < b < l.len() && (a < i || a == i && b < j) && p == (l[a], l[b]);
                        assert(0 <= a < b < l.len() && (a < i || a == i && b < j + 1) && p == (l[a], l[b]));
                    }
                }
            }
            j += 1;
        }
        proof {
            assert forall|p: (Seq<char>, Seq<char>)| #[trigger] seen.contains(p) <==> pair_before(
                g,
                l,
                i + 1,
                0,
                p,
            ) by {
                if pair_before(g, l, i as int, j as int, p) {
                    let (a, b) = choose|a: int, b: int|
                        #![trigger l[a], l[b]]
                        0 <= a < b < l.len() && (a < i || a == i && b < j) && p == (l[a], l[b]);
                    assert(0 <= a < b < l.len() && (a < i + 1 || a == i + 1 && b < 0) && p == (l[a], l[b]));
                }
                if pair_before(g, l, i + 1, 0, p) {
                    let (a, b) = choose|a: int, b: int|
                        #![trigger l[a], l[b]]
                        0 <= a < b < l.len() && (a < i + 1 || a == i + 1 && b < 0) && p == (l[a], l[b]);
                    assert(0 <= a < b < l.len() && (a < i || a == i && b < j) && p == (l[a], l[b]));
                }
            }
            assert(i * n + n == (i + 1) * n) by (nonlinear_arith);
        }
        i += 1;
    }
    proof {
        neighbors.lemma_listed();
        assert forall|p: (Seq<char>, Seq<char>)| seen.contains(p) == missing_pairs(g, neighbors@).contains(p) by {
            if seen.contains(p) {
                let (a, b) = choose|a: int, b: int|
                    #![trigger l[a], l[b]]
                    0 <= a < b < l.len() && (a < i || a == i && b < 0) && p == (l[a], l[b]);
                assert(l.to_set().contains(l[a]) && l.to_set().contains(l[b]));
            }
            if missing_pairs(g, neighbors@).contains(p) {
                assert(l.to_set().contains(p.0) && l.to_set().contains(p.1));
                let a = choose|a: int| 0 <= a < l.len() && l[a] == p.0;
                let b = choose|b: int| 0 <= b < l.len() && l[b] == p.1;
                if b < a {
                    lemma_less_asymmetric(l[b], l[a]);
                }
                if a == b {
                    lemma_less_irreflexive(l[a]);
                }
                assert(0 <= a < b < l.len() && (a < i || a == i && b < 0) && p == (l[a], l[b]));
                assert(pair_before(g, l, i as int, 0, p));
            }
        }
        assert(seen =~= missing_pairs(g, neighbors@));
    }
    missing
}

/// The pair stands in the list before the pair of places `(i, j)`, and no edge
/// joins it.
spec fn pair_before(
    g: Map<Seq<char>, Set<Seq<char>>>,
    l: Seq<Seq<char>>,
    i: int,
    j: int,
    p: (Seq<char>, Seq<char>),
) -> bool {
    &&& !(g.contains_key(p.0) && g[p.0].contains(p.1))
    &&& exists|a: int, b: int|
        #![trigger l[a], l[b]]
        0 <= a < b < l.len() && (a < i || a == i && b < j) && p == (l[a], l[b])
}

/// Where the cheapest vertex stands.
fn choose_victim(graph: &NameMap<NameSet>) -> (r: usize)
    requires
        sets_wf(graph),
        graph.keys().len() > 0,
    ensures
        r < graph.keys().len(),
        graph.keys()[r as int] == cheapest(set_map(graph)),
        is_cheapest(set_map(graph), graph.keys()[r as int]),
{
    let ghost g = set_map(graph);
    proof {
        lemma_keys(graph);
        assert(g.contains_key(graph.keys()[0]));
    }
    let mut best: usize = 0;
    let mut best_fill: u128 = compute_fill_in(graph.value_at(0), graph);
    let mut best_degree: usize = graph.value_at(0).len();
    let mut i: usize = 1;
    while i < graph.len()
        invariant
            sets_wf(graph),
            g == set_map(graph),
            best < i <= graph.keys().len(),
            best_fill == fill(g, graph.keys()[best as int]),
            best_degree == g[graph.keys()[best as int]].len(),
            forall|j: int| 0 <= j < i ==> j == best || cheaper(g, graph.keys()[best as int], #[trigger] graph.keys()[j]),
        decreases graph.keys().len() - i,
    {
        proof {
            lemma_keys(graph);
            assert(g.contains_key(graph.keys()[i as int]));
        }
        let neighbors = graph.value_at(i);
        let fill_in: u128 = compute_fill_in(neighbors, graph);
        let degree: usize = neighbors.len();
        let ghost best0 = best;
        if fill_in < best_fill || fill_in == best_fill && degree < best_degree {
            best = i;
            best_fill = fill_in;
            best_degree = degree;
            proof {
                assert forall|j: int| 0 <= j < i + 1 implies j == best || cheaper(
                    g,
                    graph.keys()[best as int],
                    #[trigger] graph.keys()[j],
                ) by {
                    if j < i && j != best0 {
                        assert(cheaper(g, graph.keys()[best0 as int], graph.keys()[j]));
                    }
                }
            }
        } else {
            assert(name_less(graph.keys()[best as int], graph.keys()[i as int]));
        }
        i += 1;
    }
    proof {
        lemma_keys(graph);
        let v = graph.keys()[best as int];
        assert(g.contains_key(v));
        assert forall|w: Seq<char>| #[trigger] g.contains_key(w) implies w == v || cheaper(g, v, w) by {
            let j = choose|j: int| 0 <= j < graph.keys().len() && graph.keys()[j] == w;
            assert(j == best || cheaper(g, v, graph.keys()[j]));
        }
        lemma_cheapest(g, v);
    }
    best
}

/// Joins the neighbours of the vertex at `at` and takes the vertex out.
#[verifier::rlimit(30)]
fn eliminate_vertex(graph: &NameMap<NameSet>, at: usize) -> (r: NameMap<NameSet>)
    requires
        sets_wf(graph),
        at < graph.keys().len(),
    ensures
        sets_wf(&r),
        set_map(&r) == eliminate(set_map(graph), graph.keys()[at as int]),
{
    let ghost g = set_map(graph);
    let ghost v = graph.keys()[at as int];
    proof {
        lemma_keys(graph);
        assert(g.contains_key(v));
    }
    let victim = graph.key_at(at);
    let neighbors = graph.value_at(at);
    let mut r = no_sets();
    let mut i: usize = 0;
    while i < graph.len()
        invariant
            sets_wf(graph),
            g == set_map(graph),
            at < graph.keys().len(),
            v == graph.keys()[at as int],
            victim@ == v,
            neighbors.wf(),
            neighbors@ == g[v],
            i <= graph.keys().len(),
            sets_wf(&r),
            forall|n: Seq<char>| #[trigger]
                set_map(&r).contains_key(n) <==> n != v && exists|j: int| 0 <= j < i && graph.keys()[j] == n,
            forall|n: Seq<char>| #[trigger]
                set_map(&r).contains_key(n) ==> set_map(&r)[n] == eliminate(g, v)[n],
        decreases graph.keys().len() - i,
    {
        proof {
            lemma_keys(graph);
            lemma_ascending_distinct(graph.keys());
            assert(g.contains_key(graph.keys()[i as int]));
        }
        let ghost before = set_map(&r);
        let u = graph.key_at(i);
        if i != at {
            let mut set = graph.value_at(i).clone();
            if neighbors.contains(u) {
                let ghost base = set@;
                let mut k: usize = 0;
                while k < neighbors.len()
                    invariant
                        neighbors.wf(),
                        set.wf(),
                        k <= neighbors.listed().len(),
                        forall|w: Seq<char>| #[trigger]
                            set@.contains(w) <==> base.contains(w) || exists|q: int|
                                0 <= q < k && #[trigger] neighbors.listed()[q] == w,
                    decreases neighbors.listed().len() - k,
                {
                    let ghost set0 = set@;
                    set.insert(neighbors.get(k));
                    proof {
                        assert forall|w: Seq<char>| #[trigger] set@.contains(w) <==> base.contains(w) || exists|q: int|
                            0 <= q < k + 1 && #[trigger] neighbors.listed()[q] == w by {
                            if w == neighbors.listed()[k as int] {
                                assert(neighbors.listed()[k as int] == w);
                            }
                            if set0.contains(w) && !base.contains(w) {
                                let q = choose|q: int| 0 <= q < k && #[trigger] neighbors.listed()[q] == w;
                                assert(neighbors.listed()[q] == w);
                            }
                        }
                    }
                    k += 1;
                }
                set.remove(u);
                set.remove(victim);
                proof {
                    neighbors.lemma_listed();
                    assert forall|w: Seq<char>| neighbors@.contains(w) <==> exists|q: int|
                        0 <= q < k && #[trigger] neighbors.listed()[q] == w by {
                        if neighbors@.contains(w) {
                            assert(neighbors.listed().to_set().contains(w));
                        }
                    }
                    assert(set@ =~= g[u@].union(g[v]).remove(u@).remove(v));
                }
            }
            put_set(&mut r, u, set);
        }
        proof {
            assert forall|n: Seq<char>| #[trigger] set_map(&r).contains_key(n) <==> n != v && exists|j: int|
                0 <= j < i + 1 && graph.keys()[j] == n by {
                if before.contains_key(n) {
                    let j = choose|j: int| 0 <= j < i && graph.keys()[j] == n;
                    assert(0 <= j < i + 1 && graph.keys()[j] == n);
                } else if set_map(&r).contains_key(n) {
                    assert(0 <= i < i + 1 && graph.keys()[i as int] == n);
                }
                if n != v && exists|j: int| 0 <= j < i + 1 && graph.keys()[j] == n {
                    let j = choose|j: int| 0 <= j < i + 1 && graph.keys()[j] == n;
                    if j < i {
                        assert(before.contains_key(n));
                    }
                }
            }
        }
        i += 1;
    }
    proof {
        lemma_keys(graph);
        assert forall|n: Seq<char>| set_map(&r).contains_key(n) == eliminate(g, v).contains_key(n) by {
            if eliminate(g, v).contains_key(n) {
                assert(g.contains_key(n));
                let j = choose|j: int| 0 <= j < graph.keys().len() && graph.keys()[j] == n;
                assert(0 <= j < i && graph.keys()[j] == n);
            }
        }
        assert(set_map(&r) =~= eliminate(g, v));
    }
    r
}

/// The elimination order of an undirected graph.
pub fn min_fill_elimination_order(primal: &NameMap<NameSet>) -> (r: Vec<String>)
    requires
        sets_wf(primal),
        undirected(set_map(primal)),
    ensures
        r@.map_values(text()) == elimination(set_map(primal)),
        r@.map_values(text()).no_duplicates(),
        r@.map_values(text()).to_set() == set_map(primal).dom(),
{
    let ghost g0 = set_map(primal);
    let mut graph = copy_sets(primal);
    let mut order: Vec<String> = Vec::new();
    proof {
        lemma_keys(primal);
        assert(order@.map_values(text()) =~= Seq::empty());
        assert(elimination(g0) =~= order@.map_values(text()) + elimination(g0));
    }
    while !graph.is_empty()
        invariant
            sets_wf(&graph),
            undirected(set_map(&graph)),
            elimination(g0) == order@.map_values(text()) + elimination(set_map(&graph)),
            order@.map_values(text()).no_duplicates(),
            set_map(&graph).dom() == g0.dom().difference(order@.map_values(text()).to_set()),
            order@.map_values(text()).to_set().subset_of(g0.dom()),
        decreases graph.keys().len(),
    {
        let ghost g = set_map(&graph);
        let ghost order0 = order@.map_values(text());
        proof {
            lemma_keys(&graph);
        }
        let at = choose_victim(&graph);
        let victim = graph.key_at(at).to_string();
        let next = eliminate_vertex(&graph, at);
        proof {
            lemma_eliminate(g, victim@);
            lemma_keys(&next);
            assert(g.dom().len() > 0);
            assert(elimination(g) == seq![victim@] + elimination(set_map(&next)));
        }
        graph = next;
        order.push(victim);
        proof {
            let t = order@.map_values(text());
            assert(t =~= order0.push(victim@));
            assert(elimination(g0) =~= t + elimination(set_map(&graph)));
            assert(!order0.contains(victim@)) by {
                assert(g.dom().contains(victim@));
            }
            order0.lemma_push_to_set_commute(victim@);
            assert(set_map(&graph).dom() =~= g0.dom().difference(t.to_set()));
        }
    }
    proof {
        lemma_keys(&graph);
        assert(set_map(&graph).dom() =~= Set::empty());
        assert(elimination(g0) =~= order@.map_values(text()));
        let t = order@.map_values(text());
        assert(t.to_set() =~= g0.dom()) by {
            assert forall|n: Seq<char>| g0.dom().contains(n) implies t.to_set().contains(n) by {
                assert(!set_map(&graph).dom().contains(n));
            }
        }
    }
    order
}

} // verus!
