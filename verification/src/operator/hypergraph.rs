//! Hypergraph reduction and variable orders.
//!
//! A hypergraph is given as a map from relation names to sets of variables.
use vstd::prelude::*;

use crate::name_sets::{add_member, drop_set, no_sets, put_set, set_map, sets_wf};
use crate::names::{
    ascending_names, lemma_ascending_distinct, lemma_ascending_unique, lemma_insert_ascending,
    lemma_less_asymmetric, lemma_less_total, lemma_less_transitive, name_less, order_names, NameMap, NameOrder,
    NameSet,
};
use crate::operator::acyclicity::{has_join_tree, lemma_reduction_is_complete};
use crate::operator::join_forest::{is_join_forest, is_join_tree, lemma_reduction_builds_forest};

verus! {

/// `n` is in the set and before all others in it.
pub open spec fn is_least(s: Set<Seq<char>>, n: Seq<char>) -> bool {
    &&& s.contains(n)
    &&& forall|m: Seq<char>| #[trigger] s.contains(m) ==> m == n || name_less(n, m)
}

/// The first name of a set, in order.
pub open spec fn least(s: Set<Seq<char>>) -> Seq<char> {
    choose|n: Seq<char>| is_least(s, n)
}

/// The set has a member.
pub open spec fn inhabited(s: Set<Seq<char>>) -> bool {
    exists|n: Seq<char>| s.contains(n)
}

proof fn lemma_least(s: Set<Seq<char>>, n: Seq<char>)
    requires
        is_least(s, n),
    ensures
        least(s) == n,
        inhabited(s),
{
    let m = least(s);
    assert(is_least(s, m));
    if m != n {
        lemma_less_asymmetric(m, n);
    }
}

/// The members of a set in order.
pub open spec fn listing(s: Set<Seq<char>>) -> Seq<Seq<char>> {
    choose|l: Seq<Seq<char>>| ascending_names(l) && #[trigger] l.to_set() == s
}

pub proof fn lemma_listing(set: &NameSet)
    requires
        set.wf(),
    ensures
        listing(set@) == set.listed(),
{
    set.lemma_listed();
    let l = listing(set@);
    assert(ascending_names(set.listed()) && set.listed().to_set() == set@);
    lemma_ascending_unique(l, set.listed());
}

/// Where a name belongs in an ascending listing without it.
proof fn lemma_place(l: Seq<Seq<char>>, x: Seq<char>) -> (i: int)
    requires
        ascending_names(l),
        !l.contains(x),
    ensures
        0 <= i <= l.len(),
        forall|k: int| 0 <= k < i ==> name_less(#[trigger] l[k], x),
        forall|k: int| i <= k < l.len() ==> name_less(x, #[trigger] l[k]),
    decreases l.len(),
{
    if l.len() == 0 {
        0
    } else {
        let last = l[l.len() - 1];
        assert(l.contains(last));
        lemma_less_total(last, x);
        if name_less(last, x) {
            assert forall|k: int| 0 <= k < l.len() implies name_less(#[trigger] l[k], x) by {
                if k < l.len() - 1 {
                    assert(name_less(l[k], l[l.len() - 1]));
                    lemma_less_transitive(l[k], last, x);
                }
            }
            l.len() as int
        } else {
            let front = l.drop_last();
            assert forall|a: int, b: int| 0 <= a < b < front.len() implies name_less(
                #[trigger] front[a],
                #[trigger] front[b],
            ) by {
                assert(name_less(l[a], l[b]));
            }
            assert(!front.contains(x)) by {
                if front.contains(x) {
                    let k = choose|k: int| 0 <= k < front.len() && front[k] == x;
                    assert(l[k] == x);
                }
            }
            let i = lemma_place(front, x);
            assert forall|k: int| 0 <= k < i implies name_less(#[trigger] l[k], x) by {
                assert(front[k] == l[k]);
            }
            assert forall|k: int| i <= k < l.len() implies name_less(x, #[trigger] l[k]) by {
                if k < front.len() {
                    assert(front[k] == l[k]);
                }
            }
            i
        }
    }
}

/// A finite set has a listing.
pub proof fn lemma_finite_listing(s: Set<Seq<char>>)
    requires
        s.finite(),
    ensures
        ascending_names(listing(s)),
        listing(s).to_set() == s,
    decreases s.len(),
{
    if s.len() == 0 {
        let l = Seq::<Seq<char>>::empty();
        assert(l.to_set() =~= s);
        assert(ascending_names(l) && l.to_set() == s);
    } else {
        let x = s.choose();
        let rest = s.remove(x);
        lemma_finite_listing(rest);
        let l = listing(rest);
        assert(!l.contains(x)) by {
            if l.contains(x) {
                assert(l.to_set().contains(x));
            }
        }
        let i = lemma_place(l, x);
        lemma_insert_ascending(l, i, x);
        let m = l.insert(i, x);
        l.insert_ensures(i, x);
        assert forall|n: Seq<char>| m.to_set().contains(n) == s.contains(n) by {
            if m.contains(n) {
                let k = choose|k: int| 0 <= k < m.len() && m[k] == n;
                if k < i {
                    assert(l[k] == n);
                    assert(l.to_set().contains(n));
                } else if k > i {
                    assert(l[k - 1] == n);
                    assert(l.to_set().contains(n));
                }
            }
            if s.contains(n) {
                if n == x {
                    assert(m[i] == n);
                } else {
                    assert(l.to_set().contains(n));
                    let k = choose|k: int| 0 <= k < l.len() && l[k] == n;
                    if k < i {
                        assert(m[k] == n);
                    } else {
                        assert(m[k + 1] == n);
                    }
                }
            }
        }
        assert(m.to_set() =~= s);
        assert(ascending_names(m) && m.to_set() == s);
    }
}

/// Relation `e` has variable `v`.
pub open spec fn holds(edges: Map<Seq<char>, Set<Seq<char>>>, e: Seq<char>, v: Seq<char>) -> bool {
    edges.contains_key(e) && edges[e].contains(v)
}

/// The other hyperedges that contain all variables of `e`.
pub open spec fn hosts(edges: Map<Seq<char>, Set<Seq<char>>>, e: Seq<char>) -> Set<Seq<char>> {
    Set::new(|p: Seq<char>| edges.contains_key(p) && p != e && edges[e].subset_of(edges[p]))
}

/// The hyperedges that can go: those contained in another one, and the last
/// one when it is empty.
pub open spec fn ears(edges: Map<Seq<char>, Set<Seq<char>>>) -> Set<Seq<char>> {
    Set::new(
        |e: Seq<char>|
            edges.contains_key(e) && (inhabited(hosts(edges, e)) || edges.dom().len() == 1 && edges[e] == Set::<
                Seq<char>,
            >::empty()),
    )
}

/// The variables that occur in exactly one hyperedge.
pub open spec fn lone_variables(edges: Map<Seq<char>, Set<Seq<char>>>) -> Set<Seq<char>> {
    Set::new(
        |v: Seq<char>|
            exists|e: Seq<char>| #[trigger]
                holds(edges, e, v) && forall|f: Seq<char>| #[trigger] holds(edges, f, v) ==> f == e,
    )
}

/// The hypergraph without a variable.
pub open spec fn without(edges: Map<Seq<char>, Set<Seq<char>>>, v: Seq<char>) -> Map<Seq<char>, Set<Seq<char>>> {
    Map::new(|e: Seq<char>| edges.contains_key(e), |e: Seq<char>| edges[e].remove(v))
}

/// The tree with an edge between `a` and `b` more.
pub open spec fn tied(
    tree: Map<Seq<char>, Set<Seq<char>>>,
    a: Seq<char>,
    b: Seq<char>,
) -> Map<Seq<char>, Set<Seq<char>>> {
    let t = tree.insert(a, tree[a].insert(b));
    t.insert(b, t[b].insert(a))
}

/// One step of the GYO reduction: the first ear goes, tied to its first host;
/// without an ear, the first lone variable goes; without either, none.
pub open spec fn gyo_step(
    s: (Map<Seq<char>, Set<Seq<char>>>, Map<Seq<char>, Set<Seq<char>>>),
) -> Option<(Map<Seq<char>, Set<Seq<char>>>, Map<Seq<char>, Set<Seq<char>>>)> {
    let (edges, tree) = s;
    if inhabited(ears(edges)) {
        let e = least(ears(edges));
        if inhabited(hosts(edges, e)) {
            Some((edges.remove(e), tied(tree, e, least(hosts(edges, e)))))
        } else {
            Some((edges.remove(e), tree))
        }
    } else if inhabited(lone_variables(edges)) {
        Some((without(edges, least(lone_variables(edges))), tree))
    } else {
        None
    }
}

/// A reduction from a hypergraph, with no tree edges yet, to where no step is
/// left.
pub open spec fn is_reduction(
    edges: Map<Seq<char>, Set<Seq<char>>>,
    run: Seq<(Map<Seq<char>, Set<Seq<char>>>, Map<Seq<char>, Set<Seq<char>>>)>,
) -> bool {
    &&& is_partial_reduction(edges, run)
    &&& gyo_step(run[run.len() - 1]) is None
}

pub open spec fn is_partial_reduction(
    edges: Map<Seq<char>, Set<Seq<char>>>,
    run: Seq<(Map<Seq<char>, Set<Seq<char>>>, Map<Seq<char>, Set<Seq<char>>>)>,
) -> bool {
    &&& run.len() > 0
    &&& run[0] == (edges, bare_tree(edges))
    &&& forall|i: int| 0 <= i < run.len() - 1 ==> #[trigger] reduced_at(run, i)
}

pub open spec fn reduced_at(
    run: Seq<(Map<Seq<char>, Set<Seq<char>>>, Map<Seq<char>, Set<Seq<char>>>)>,
    i: int,
) -> bool {
    gyo_step(run[i]) == Some(run[i + 1])
}

/// The relations, none tied to another.
pub open spec fn bare_tree(edges: Map<Seq<char>, Set<Seq<char>>>) -> Map<Seq<char>, Set<Seq<char>>> {
    Map::new(|e: Seq<char>| edges.contains_key(e), |e: Seq<char>| Set::<Seq<char>>::empty())
}

/// Where the reduction of a hypergraph ends: what is left and the join tree.
pub open spec fn reduction_end(
    edges: Map<Seq<char>, Set<Seq<char>>>,
) -> (Map<Seq<char>, Set<Seq<char>>>, Map<Seq<char>, Set<Seq<char>>>) {
    let run = choose|run: Seq<(Map<Seq<char>, Set<Seq<char>>>, Map<Seq<char>, Set<Seq<char>>>)>| is_reduction(edges, run);
    run[run.len() - 1]
}

/// The hypergraph reduces to nothing.
pub open spec fn gyo_acyclic(edges: Map<Seq<char>, Set<Seq<char>>>) -> bool {
    reduction_end(edges).0 == Map::<Seq<char>, Set<Seq<char>>>::empty()
}

/// The tree that the reduction builds.
pub open spec fn join_tree_of(edges: Map<Seq<char>, Set<Seq<char>>>) -> Map<Seq<char>, Set<Seq<char>>> {
    reduction_end(edges).1
}

/// There is one reduction only.
proof fn lemma_reduction_unique(
    edges: Map<Seq<char>, Set<Seq<char>>>,
    a: Seq<(Map<Seq<char>, Set<Seq<char>>>, Map<Seq<char>, Set<Seq<char>>>)>,
    b: Seq<(Map<Seq<char>, Set<Seq<char>>>, Map<Seq<char>, Set<Seq<char>>>)>,
    i: int,
)
    requires
        is_reduction(edges, a),
        is_reduction(edges, b),
        0 <= i < a.len(),
    ensures
        i < b.len(),
        a[i] == b[i],
    decreases i,
{
    if i > 0 {
        lemma_reduction_unique(edges, a, b, i - 1);
        assert(reduced_at(a, i - 1));
        if i - 1 < b.len() - 1 {
            assert(reduced_at(b, i - 1));
        }
    }
}

pub proof fn lemma_reduction_end(
    edges: Map<Seq<char>, Set<Seq<char>>>,
    run: Seq<(Map<Seq<char>, Set<Seq<char>>>, Map<Seq<char>, Set<Seq<char>>>)>,
)
    requires
        is_reduction(edges, run),
    ensures
        reduction_end(edges) == run[run.len() - 1],
{
    let other = choose|run: Seq<(Map<Seq<char>, Set<Seq<char>>>, Map<Seq<char>, Set<Seq<char>>>)>|
        is_reduction(edges, run);
    lemma_reduction_unique(edges, run, other, run.len() - 1);
    lemma_reduction_unique(edges, other, run, other.len() - 1);
}

/// The keys of a map of sets.
pub proof fn lemma_keys(m: &NameMap<NameSet>)
    requires
        sets_wf(m),
    ensures
        m.keys().len() == m.values().len(),
        set_map(m).dom() == m.keys().to_set(),
        set_map(m).dom().finite(),
        set_map(m).dom().len() == m.keys().len(),
        forall|i: int| 0 <= i < m.keys().len() ==> {
            &&& set_map(m).contains_key(#[trigger] m.keys()[i])
            &&& m.values()[i]@ == set_map(m)[m.keys()[i]]
            &&& m.values()[i].wf()
        },
        forall|n: Seq<char>| #[trigger] set_map(m).contains_key(n) ==> m.keys().contains(n),
{
    m.lemma_shape();
    lemma_ascending_distinct(m.keys());
    assert(set_map(m).dom() =~= m.keys().to_set());
    assert forall|i: int| 0 <= i < m.keys().len() implies {
        &&& set_map(m).contains_key(#[trigger] m.keys()[i])
        &&& m.values()[i]@ == set_map(m)[m.keys()[i]]
        &&& m.values()[i].wf()
    } by {
        m.lemma_lookup(i);
    }
}

/// Where the first hyperedge that contains all of `vars` stands, other than
/// the one at `candidate`.
fn find_containing_edge(candidate: usize, vars: &NameSet, edge_vars: &NameMap<NameSet>) -> (r: Option<usize>)
    requires
        sets_wf(edge_vars),
        candidate < edge_vars.keys().len(),
        *vars == edge_vars.values()[candidate as int],
    ensures
        r is Some ==> r->0 < edge_vars.keys().len() && is_least(
            hosts(set_map(edge_vars), edge_vars.keys()[candidate as int]),
            edge_vars.keys()[r->0 as int],
        ),
        r is None ==> !inhabited(hosts(set_map(edge_vars), edge_vars.keys()[candidate as int])),
{
    let ghost edges = set_map(edge_vars);
    let ghost e = edge_vars.keys()[candidate as int];
    proof {
        lemma_keys(edge_vars);
        lemma_ascending_distinct(edge_vars.keys());
    }
    let mut i: usize = 0;
    while i < edge_vars.len()
        invariant
            sets_wf(edge_vars),
            edges == set_map(edge_vars),
            candidate < edge_vars.keys().len(),
            e == edge_vars.keys()[candidate as int],
            *vars == edge_vars.values()[candidate as int],
            i <= edge_vars.keys().len(),
            forall|j: int| 0 <= j < i ==> !hosts(edges, e).contains(#[trigger] edge_vars.keys()[j]),
        decreases edge_vars.keys().len() - i,
    {
        proof {
            lemma_keys(edge_vars);
            lemma_ascending_distinct(edge_vars.keys());
        }
        assert(edge_vars.keys()[candidate as int] == e);
        assert(edges.contains_key(edge_vars.keys()[i as int]));
        if i != candidate && vars.is_subset(edge_vars.value_at(i)) {
            proof {
                let p = edge_vars.keys()[i as int];
                assert(hosts(edges, e).contains(p));
                assert forall|m: Seq<char>| #[trigger] hosts(edges, e).contains(m) implies m == p || name_less(
                    p,
                    m,
                ) by {
                    assert(edges.contains_key(m));
                    let j = choose|j: int| 0 <= j < edge_vars.keys().len() && edge_vars.keys()[j] == m;
                    assert(j >= i);
                }
            }
            return Some(i);
        }
        i += 1;
    }
    proof {
        assert forall|m: Seq<char>| !hosts(edges, e).contains(m) by {
            if hosts(edges, e).contains(m) {
                assert(edges.contains_key(m));
                let j = choose|j: int| 0 <= j < edge_vars.keys().len() && edge_vars.keys()[j] == m;
                assert(!hosts(edges, e).contains(edge_vars.keys()[j]));
            }
        }
    }
    None
}

/// Where the first ear stands, and its first host.
fn find_ear(edge_vars: &NameMap<NameSet>) -> (r: Option<(usize, Option<usize>)>)
    requires
        sets_wf(edge_vars),
    ensures
        r matches Some(ear) ==> {
            &&& ear.0 < edge_vars.keys().len()
            &&& is_least(ears(set_map(edge_vars)), edge_vars.keys()[ear.0 as int])
            &&& ear.1 matches Some(p) ==> p < edge_vars.keys().len() && is_least(
                hosts(set_map(edge_vars), edge_vars.keys()[ear.0 as int]),
                edge_vars.keys()[p as int],
            )
            &&& ear.1 is None ==> !inhabited(hosts(set_map(edge_vars), edge_vars.keys()[ear.0 as int]))
        },
        r is None ==> !inhabited(ears(set_map(edge_vars))),
{
    let ghost edges = set_map(edge_vars);
    let mut i: usize = 0;
    while i < edge_vars.len()
        invariant
            sets_wf(edge_vars),
            edges == set_map(edge_vars),
            i <= edge_vars.keys().len(),
            forall|j: int| 0 <= j < i ==> !ears(edges).contains(#[trigger] edge_vars.keys()[j]),
        decreases edge_vars.keys().len() - i,
    {
        proof {
            lemma_keys(edge_vars);
        }
        let ghost e = edge_vars.keys()[i as int];
        assert(edges.contains_key(e));
        let vars = edge_vars.value_at(i);
        let host = find_containing_edge(i, vars, edge_vars);
        if host.is_some() || edge_vars.len() == 1 && vars.is_empty() {
            proof {
                if host is Some {
                    lemma_least(hosts(edges, e), edge_vars.keys()[host->0 as int]);
                }
                assert(ears(edges).contains(e));
                assert forall|m: Seq<char>| #[trigger] ears(edges).contains(m) implies m == e || name_less(e, m) by {
                    assert(edges.contains_key(m));
                    let j = choose|j: int| 0 <= j < edge_vars.keys().len() && edge_vars.keys()[j] == m;
                    assert(j >= i);
                }
            }
            return Some((i, host));
        }
        i += 1;
    }
    proof {
        lemma_keys(edge_vars);
        assert forall|m: Seq<char>| !ears(edges).contains(m) by {
            if ears(edges).contains(m) {
                assert(edges.contains_key(m));
                let j = choose|j: int| 0 <= j < edge_vars.keys().len() && edge_vars.keys()[j] == m;
                assert(!ears(edges).contains(edge_vars.keys()[j]));
            }
        }
    }
    None
}

/// Does a variable of the hyperedge at `at` occur in no other one?
fn is_lone(edge_vars: &NameMap<NameSet>, at: usize, variable: &str) -> (r: bool)
    requires
        sets_wf(edge_vars),
        at < edge_vars.keys().len(),
        holds(set_map(edge_vars), edge_vars.keys()[at as int], variable@),
    ensures
        r == lone_variables(set_map(edge_vars)).contains(variable@),
{
    let ghost edges = set_map(edge_vars);
    let ghost e = edge_vars.keys()[at as int];
    let mut i: usize = 0;
    while i < edge_vars.len()
        invariant
            sets_wf(edge_vars),
            edges == set_map(edge_vars),
            at < edge_vars.keys().len(),
            e == edge_vars.keys()[at as int],
            holds(edges, e, variable@),
            i <= edge_vars.keys().len(),
            forall|j: int| 0 <= j < i && j != at ==> !holds(edges, #[trigger] edge_vars.keys()[j], variable@),
        decreases edge_vars.keys().len() - i,
    {
        proof {
            lemma_keys(edge_vars);
            lemma_ascending_distinct(edge_vars.keys());
        }
        assert(edges.contains_key(edge_vars.keys()[i as int]));
        if i != at && edge_vars.value_at(i).contains(variable) {
            proof {
                let f = edge_vars.keys()[i as int];
                assert(holds(edges, f, variable@));
                assert(f != e);
            }
            return false;
        }
        i += 1;
    }
    proof {
        lemma_keys(edge_vars);
        assert forall|f: Seq<char>| #[trigger] holds(edges, f, variable@) implies f == e by {
            assert(edges.contains_key(f));
            let j = choose|j: int| 0 <= j < edge_vars.keys().len() && edge_vars.keys()[j] == f;
            if j != at {
                assert(!holds(edges, edge_vars.keys()[j], variable@));
            }
        }
    }
    true
}

/// `v` was scanned: it lies in one of the first `i` hyperedges or among the
/// first `j` variables of the next one.
spec fn scanned(m: &NameMap<NameSet>, i: int, j: int, v: Seq<char>) -> bool {
    ||| exists|k: int| 0 <= k < i && (#[trigger] m.values()[k])@.contains(v)
    ||| i < m.values().len() && exists|k: int| 0 <= k < j && #[trigger] m.values()[i].listed()[k] == v
}

/// The first variable that occurs in exactly one hyperedge.
#[verifier::rlimit(30)]
fn find_singleton_variable(edge_vars: &NameMap<NameSet>) -> (r: Option<String>)
    requires
        sets_wf(edge_vars),
    ensures
        r matches Some(v) ==> is_least(lone_variables(set_map(edge_vars)), v@),
        r is None ==> !inhabited(lone_variables(set_map(edge_vars))),
{
    let ghost edges = set_map(edge_vars);
    let mut best: Option<String> = None;
    let mut i: usize = 0;
    while i < edge_vars.len()
        invariant
            sets_wf(edge_vars),
            edges == set_map(edge_vars),
            i <= edge_vars.keys().len(),
            best matches Some(b) ==> lone_variables(edges).contains(b@),
            forall|v: Seq<char>|
                #![trigger lone_variables(edges).contains(v)]
                lone_variables(edges).contains(v) && scanned(edge_vars, i as int, 0, v) ==> best is Some && (v
                    == best->0@ || name_less(best->0@, v)),
        decreases edge_vars.keys().len() - i,
    {
        proof {
            lemma_keys(edge_vars);
        }
        assert(edges.contains_key(edge_vars.keys()[i as int]));
        let vars = edge_vars.value_at(i);
        let mut j: usize = 0;
        while j < vars.len()
            invariant
                sets_wf(edge_vars),
                edges == set_map(edge_vars),
                i < edge_vars.keys().len(),
                *vars == edge_vars.values()[i as int],
                vars.wf(),
                edge_vars.keys().len() == edge_vars.values().len(),
                edges.contains_key(edge_vars.keys()[i as int]),
                vars@ == edges[edge_vars.keys()[i as int]],
                j <= vars.listed().len(),
                best matches Some(b) ==> lone_variables(edges).contains(b@),
                forall|v: Seq<char>|
                    #![trigger lone_variables(edges).contains(v)]
                    lone_variables(edges).contains(v) && scanned(edge_vars, i as int, j as int, v) ==> best is Some
                        && (v == best->0@ || name_less(best->0@, v)),
            decreases vars.listed().len() - j,
        {
            let v = vars.get(j);
            proof {
                vars.lemma_listed();
                assert(vars@.contains(v@));
                assert(holds(edges, edge_vars.keys()[i as int], v@));
            }
            let ghost best0 = best;
            if is_lone(edge_vars, i, v) {
                let better = match &best {
                    None => true,
                    Some(b) => match order_names(v, b.as_str()) {
                        NameOrder::Before => true,
                        _ => false,
                    },
                };
                if better {
                    best = Some(v.to_string());
                }
            }
            proof {
                assert forall|w: Seq<char>|
                    #![trigger lone_variables(edges).contains(w)]
                    lone_variables(edges).contains(w) && scanned(edge_vars, i as int, j + 1, w) implies best is Some
                    && (w == best->0@ || name_less(best->0@, w)) by {
                    if w != v@ {
                        assert(scanned(edge_vars, i as int, j as int, w)) by {
                            if !(exists|k: int| 0 <= k < i && (#[trigger] edge_vars.values()[k])@.contains(w)) {
                                let k = choose|k: int|
                                    0 <= k < j + 1 && #[trigger] edge_vars.values()[i as int].listed()[k] == w;
                                assert(k < j);
                            }
                        }
                        if best0->0@ != best->0@ {
                            lemma_less_transitive_or(best->0@, best0->0@, w);
                        }
                    } else if best0 is Some {
                        lemma_less_total(v@, best0->0@);
                    }
                }
            }
            j += 1;
        }
        proof {
            assert forall|w: Seq<char>|
                #![trigger lone_variables(edges).contains(w)]
                lone_variables(edges).contains(w) && scanned(edge_vars, i + 1, 0, w) implies best is Some && (w
                == best->0@ || name_less(best->0@, w)) by {
                let k = choose|k: int| 0 <= k < i + 1 && (#[trigger] edge_vars.values()[k])@.contains(w);
                if k == i {
                    vars.lemma_listed();
                    assert(vars.listed().to_set().contains(w));
                    let q = choose|q: int| 0 <= q < vars.listed().len() && vars.listed()[q] == w;
                    assert(edge_vars.values()[i as int].listed()[q] == w);
                }
                assert(scanned(edge_vars, i as int, j as int, w));
            }
        }
        i += 1;
    }
    proof {
        lemma_keys(edge_vars);
        assert forall|w: Seq<char>| #[trigger] lone_variables(edges).contains(w) implies best is Some && (w
            == best->0@ || name_less(best->0@, w)) by {
            let e = choose|e: Seq<char>| #[trigger]
                holds(edges, e, w) && forall|f: Seq<char>| #[trigger] holds(edges, f, w) ==> f == e;
            assert(edges.contains_key(e));
            let k = choose|k: int| 0 <= k < edge_vars.keys().len() && edge_vars.keys()[k] == e;
            assert(edges.contains_key(edge_vars.keys()[k]));
            assert(edge_vars.values()[k]@.contains(w));
            assert(scanned(edge_vars, i as int, 0, w));
        }
    }
    best
}

proof fn lemma_less_transitive_or(a: Seq<char>, b: Seq<char>, c: Seq<char>)
    requires
        name_less(a, b),
        c == b || name_less(b, c),
    ensures
        name_less(a, c),
{
    if c != b {
        lemma_less_transitive(a, b, c);
    }
}

/// The first `i` keys of `m`, as the domain of a map that is being built.
pub open spec fn built(r: Map<Seq<char>, Set<Seq<char>>>, m: &NameMap<NameSet>, i: int) -> bool {
    forall|n: Seq<char>| #[trigger] r.contains_key(n) <==> exists|j: int| 0 <= j < i && m.keys()[j] == n
}

pub proof fn lemma_built_step(
    before: Map<Seq<char>, Set<Seq<char>>>,
    m: &NameMap<NameSet>,
    i: int,
    set: Set<Seq<char>>,
)
    requires
        built(before, m, i),
        0 <= i < m.keys().len(),
    ensures
        built(before.insert(m.keys()[i], set), m, i + 1),
{
    let after = before.insert(m.keys()[i], set);
    assert forall|n: Seq<char>| #[trigger] after.contains_key(n) <==> exists|j: int|
        0 <= j < i + 1 && m.keys()[j] == n by {
        if after.contains_key(n) {
            if n == m.keys()[i] {
                assert(0 <= i < i + 1 && m.keys()[i] == n);
            } else {
                assert(before.contains_key(n));
                let j = choose|j: int| 0 <= j < i && m.keys()[j] == n;
                assert(0 <= j < i + 1 && m.keys()[j] == n);
            }
        }
        if exists|j: int| 0 <= j < i + 1 && m.keys()[j] == n {
            let j = choose|j: int| 0 <= j < i + 1 && m.keys()[j] == n;
            if j < i {
                assert(before.contains_key(n));
            }
        }
    }
}

pub proof fn lemma_built_done(r: Map<Seq<char>, Set<Seq<char>>>, m: &NameMap<NameSet>)
    requires
        sets_wf(m),
        built(r, m, m.keys().len() as int),
    ensures
        r.dom() == set_map(m).dom(),
{
    assert forall|n: Seq<char>| r.contains_key(n) == set_map(m).contains_key(n) by {
        if set_map(m).contains_key(n) {
            let j = choose|j: int| 0 <= j < m.keys().len() && m.keys()[j] == n;
            assert(0 <= j < m.keys().len() && m.keys()[j] == n);
        }
    }
    assert(r.dom() =~= set_map(m).dom());
}

/// Every set without the variable.
fn drop_variable(m: &NameMap<NameSet>, variable: &str) -> (r: NameMap<NameSet>)
    requires
        sets_wf(m),
    ensures
        sets_wf(&r),
        set_map(&r) == without(set_map(m), variable@),
{
    let mut r = no_sets();
    let mut i: usize = 0;
    assert(built(set_map(&r), m, 0));
    while i < m.len()
        invariant
            sets_wf(m),
            sets_wf(&r),
            i <= m.keys().len(),
            built(set_map(&r), m, i as int),
            forall|n: Seq<char>| #[trigger]
                set_map(&r).contains_key(n) ==> set_map(&r)[n] == set_map(m)[n].remove(variable@),
        decreases m.keys().len() - i,
    {
        proof {
            lemma_keys(m);
            assert(set_map(m).contains_key(m.keys()[i as int]));
            lemma_built_step(set_map(&r), m, i as int, set_map(m)[m.keys()[i as int]].remove(variable@));
        }
        let mut set = m.value_at(i).clone();
        set.remove(variable);
        put_set(&mut r, m.key_at(i), set);
        i += 1;
    }
    proof {
        lemma_built_done(set_map(&r), m);
        assert(set_map(&r) =~= without(set_map(m), variable@));
    }
    r
}

/// The relations of a hypergraph, none tied to another.
fn start_tree(m: &NameMap<NameSet>) -> (r: NameMap<NameSet>)
    requires
        sets_wf(m),
    ensures
        sets_wf(&r),
        set_map(&r) == bare_tree(set_map(m)),
{
    let mut r = no_sets();
    let mut i: usize = 0;
    assert(built(set_map(&r), m, 0));
    while i < m.len()
        invariant
            sets_wf(m),
            sets_wf(&r),
            i <= m.keys().len(),
            built(set_map(&r), m, i as int),
            forall|n: Seq<char>| #[trigger]
                set_map(&r).contains_key(n) ==> set_map(&r)[n] == Set::<Seq<char>>::empty(),
        decreases m.keys().len() - i,
    {
        proof {
            lemma_built_step(set_map(&r), m, i as int, Set::empty());
        }
        put_set(&mut r, m.key_at(i), NameSet::new());
        i += 1;
    }
    proof {
        lemma_built_done(set_map(&r), m);
        assert(set_map(&r) =~= bare_tree(set_map(m)));
    }
    r
}

/// Every variable that is left is one of `left`.
spec fn variables_within(edges: Map<Seq<char>, Set<Seq<char>>>, left: Set<Seq<char>>) -> bool {
    forall|e: Seq<char>, v: Seq<char>| #[trigger] holds(edges, e, v) ==> left.contains(v)
}

/// What the GYO reduction finds.
pub struct JoinTreeResult {
    pub acyclic: bool,
    pub join_tree: NameMap<NameSet>,
}

/// Reduces a hypergraph whose variables are all among `variables`. What it
/// builds is a forest of the relations with the running intersection property,
/// and one tree where the hypergraph is acyclic.
#[verifier::spinoff_prover]
#[verifier::rlimit(40)]
pub fn build_join_tree(edges: NameMap<NameSet>, variables: &NameSet) -> (r: JoinTreeResult)
    requires
        sets_wf(&edges),
        variables.wf(),
        forall|e: Seq<char>, v: Seq<char>| #[trigger] holds(set_map(&edges), e, v) ==> variables@.contains(v),
    ensures
        r.acyclic == gyo_acyclic(set_map(&edges)),
        r.acyclic == has_join_tree(set_map(&edges)),
        sets_wf(&r.join_tree),
        set_map(&r.join_tree) == join_tree_of(set_map(&edges)),
        set_map(&r.join_tree).dom() == set_map(&edges).dom(),
        ties_relations(set_map(&edges), set_map(&r.join_tree)),
        is_join_forest(set_map(&edges), set_map(&r.join_tree)),
        r.acyclic ==> is_join_tree(set_map(&edges), set_map(&r.join_tree)),
{
    let ghost edges0 = set_map(&edges);
    let mut edge_vars = edges;
    let mut join_tree = start_tree(&edge_vars);
    let ghost mut left = variables@;
    let ghost mut run: Seq<(Map<Seq<char>, Set<Seq<char>>>, Map<Seq<char>, Set<Seq<char>>>)> = seq![
        (edges0, bare_tree(edges0)),
    ];
    let mut changed = true;
    proof {
        variables.lemma_listed();
        assert(bare_tree(edges0).dom() =~= edges0.dom());
        lemma_keys(&edge_vars);
    }
    while changed
        invariant
            sets_wf(&edge_vars),
            sets_wf(&join_tree),
            is_partial_reduction(edges0, run),
            edges0.dom().finite(),
            run[run.len() - 1] == (set_map(&edge_vars), set_map(&join_tree)),
            set_map(&join_tree).dom() == edges0.dom(),
            set_map(&edge_vars).dom().subset_of(edges0.dom()),
            ties_relations(edges0, set_map(&join_tree)),
            variables_within(set_map(&edge_vars), left),
            left.finite(),
            !changed ==> gyo_step(run[run.len() - 1]) is None,
        decreases edge_vars.keys().len() + left.len() + if changed { 1int } else { 0 },
    {
        changed = false;
        let ghost edges1 = set_map(&edge_vars);
        let ghost tree1 = set_map(&join_tree);
        proof {
            lemma_keys(&edge_vars);
        }
        let ear = find_ear(&edge_vars);
        match ear {
            Some((at, host)) => {
                let name = edge_vars.key_at(at).to_string();
                assert(edges1.contains_key(edge_vars.keys()[at as int]));
                proof {
                    lemma_least(ears(edges1), name@);
                }
                match host {
                    Some(p) => {
                        let parent = edge_vars.key_at(p).to_string();
                        assert(edges1.contains_key(edge_vars.keys()[p as int]));
                        proof {
                            lemma_least(hosts(edges1, name@), parent@);
                            assert(edges0.dom().contains(name@) && edges0.dom().contains(parent@));
                        }
                        add_member(&mut join_tree, name.as_str(), parent.as_str());
                        add_member(&mut join_tree, parent.as_str(), name.as_str());
                        proof {
                            assert(set_map(&join_tree) =~= tied(tree1, name@, parent@));
                            lemma_tied_relations(edges0, tree1, name@, parent@);
                        }
                    },
                    None => {},
                }
                drop_set(&mut edge_vars, name.as_str());
                changed = true;
                proof {
                    lemma_run_grows(edges0, run, (set_map(&edge_vars), set_map(&join_tree)));
                    run = run.push((set_map(&edge_vars), set_map(&join_tree)));
                    assert forall|e: Seq<char>, v: Seq<char>| #[trigger]
                        holds(set_map(&edge_vars), e, v) implies left.contains(v) by {
                        assert(holds(edges1, e, v));
                    }
                }
            },
            None => {
                let singleton = find_singleton_variable(&edge_vars);
                if let Some(v) = singleton {
                    proof {
                        lemma_least(lone_variables(edges1), v@);
                        let e = choose|e: Seq<char>| #[trigger]
                            holds(edges1, e, v@) && forall|f: Seq<char>| #[trigger] holds(edges1, f, v@) ==> f == e;
                        assert(holds(edges1, e, v@));
                        assert(left.contains(v@));
                    }
                    let shrunk = drop_variable(&edge_vars, v.as_str());
                    proof {
                        assert(set_map(&shrunk).dom() =~= edges1.dom());
                        lemma_keys(&shrunk);
                        lemma_run_grows(edges0, run, (set_map(&shrunk), set_map(&join_tree)));
                        run = run.push((set_map(&shrunk), set_map(&join_tree)));
                        assert forall|e: Seq<char>, w: Seq<char>| #[trigger]
                            holds(set_map(&shrunk), e, w) implies left.remove(v@).contains(w) by {
                            assert(holds(edges1, e, w));
                        }
                        left = left.remove(v@);
                    }
                    edge_vars = shrunk;
                    changed = true;
                }
            },
        }
    }
    proof {
        assert(is_reduction(edges0, run));
        lemma_reduction_end(edges0, run);
        lemma_reduction_builds_forest(edges0, run, variables@);
        if has_join_tree(edges0) {
            lemma_reduction_is_complete(edges0, run, variables@);
        }
        lemma_keys(&edge_vars);
        if edge_vars.keys().len() == 0 {
            assert(set_map(&edge_vars) =~= Map::<Seq<char>, Set<Seq<char>>>::empty());
        } else {
            assert(set_map(&edge_vars).contains_key(edge_vars.keys()[0]));
        }
    }
    JoinTreeResult { acyclic: edge_vars.is_empty(), join_tree }
}

/// Ties only join relations of the hypergraph.
pub open spec fn ties_relations(
    edges: Map<Seq<char>, Set<Seq<char>>>,
    tree: Map<Seq<char>, Set<Seq<char>>>,
) -> bool {
    forall|a: Seq<char>, b: Seq<char>| #[trigger] holds(tree, a, b) ==> edges.contains_key(a) && edges.contains_key(b)
}

proof fn lemma_tied_relations(
    edges: Map<Seq<char>, Set<Seq<char>>>,
    tree: Map<Seq<char>, Set<Seq<char>>>,
    a: Seq<char>,
    b: Seq<char>,
)
    requires
        ties_relations(edges, tree),
        tree.dom() == edges.dom(),
        edges.contains_key(a),
        edges.contains_key(b),
    ensures
        ties_relations(edges, tied(tree, a, b)),
        tied(tree, a, b).dom() == edges.dom(),
{
    let t = tied(tree, a, b);
    assert(t.dom() =~= edges.dom());
    assert forall|c: Seq<char>, d: Seq<char>| #[trigger] holds(t, c, d) implies edges.contains_key(c)
        && edges.contains_key(d) by {
        assert(tree.dom().contains(c));
        if tree[c].contains(d) {
            assert(holds(tree, c, d));
        }
    }
}

pub proof fn lemma_run_grows(
    edges: Map<Seq<char>, Set<Seq<char>>>,
    run: Seq<(Map<Seq<char>, Set<Seq<char>>>, Map<Seq<char>, Set<Seq<char>>>)>,
    next: (Map<Seq<char>, Set<Seq<char>>>, Map<Seq<char>, Set<Seq<char>>>),
)
    requires
        is_partial_reduction(edges, run),
        gyo_step(run[run.len() - 1]) == Some(next),
    ensures
        is_partial_reduction(edges, run.push(next)),
{
    let longer = run.push(next);
    assert forall|i: int| 0 <= i < longer.len() - 1 implies #[trigger] reduced_at(longer, i) by {
        if i < run.len() - 1 {
            assert(reduced_at(run, i));
        }
    }
}

} // verus!
