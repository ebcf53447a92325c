//! What orders, selections and windows hold, in terms of what they are given.
use vstd::prelude::*;

use crate::listing::concat;
use crate::model::BindingSet;
use crate::names::{lemma_less_asymmetric, lemma_less_total, lemma_less_transitive, name_less};
use crate::operator::filter::kept;
use crate::operator::graph_search::undirected;
use crate::operator::hypergraph::listing;
use crate::operator::min_fill::{cheaper, cheapest, eliminate, elimination, fill, is_cheapest, missing_pairs};
use crate::operator::minus::{compatible_with, remaining, shares};
use crate::operator::ranking::{ranked, ranks_before, SortDirection};
use crate::operator::rspql::{additions, removals, window_after, WindowUpdate};
use crate::operator::variable_orders::{dfs_order, extended, is_root, join_tree_order, root_of};
use crate::operator::view_plan::{bound_after, newly_bound};

verus! {

/// Names go by the first character in which they differ; a name comes after what
/// it begins with.
pub proof fn law_names_go_by_first_difference(a: Seq<char>, b: Seq<char>, k: int)
    requires
        0 <= k <= a.len(),
        k <= b.len(),
        forall|j: int| 0 <= j < k ==> #[trigger] a[j] == b[j],
    ensures
        k < a.len() && k < b.len() && a[k] != b[k] ==> name_less(a, b) == (a[k] < b[k]),
        k == a.len() && k < b.len() ==> name_less(a, b),
        k == b.len() ==> !name_less(a, b),
    decreases k,
{
    if k > 0 {
        let x = a.skip(1);
        let y = b.skip(1);
        assert forall|j: int| 0 <= j < k - 1 implies #[trigger] x[j] == y[j] by {
            assert(a[j + 1] == b[j + 1]);
        }
        assert(a[0] == b[0]);
        law_names_go_by_first_difference(x, y, k - 1);
        if k < a.len() {
            assert(x[k - 1] == a[k]);
        }
        if k < b.len() {
            assert(y[k - 1] == b[k]);
        }
    }
}

proof fn lemma_cheaper_transitive(
    g: Map<Seq<char>, Set<Seq<char>>>,
    u: Seq<char>,
    v: Seq<char>,
    w: Seq<char>,
)
    requires
        cheaper(g, u, v),
        cheaper(g, v, w),
    ensures
        cheaper(g, u, w),
{
    if name_less(u, v) && name_less(v, w) {
        lemma_less_transitive(u, v, w);
    }
}

/// Among finitely many vertices one is the cheapest.
proof fn lemma_cheapest_among(g: Map<Seq<char>, Set<Seq<char>>>, s: Set<Seq<char>>) -> (v: Seq<char>)
    requires
        s.finite(),
        s.len() > 0,
    ensures
        s.contains(v),
        forall|w: Seq<char>| #[trigger] s.contains(w) ==> w == v || cheaper(g, v, w),
    decreases s.len(),
{
    let x = s.choose();
    let rest = s.remove(x);
    if rest.len() == 0 {
        assert forall|w: Seq<char>| #[trigger] s.contains(w) implies w == x by {
            if w != x {
                assert(rest.contains(w));
            }
        }
        x
    } else {
        let y = lemma_cheapest_among(g, rest);
        lemma_less_total(x, y);
        let v = if cheaper(g, x, y) {
            x
        } else {
            y
        };
        assert forall|w: Seq<char>| #[trigger] s.contains(w) implies w == v || cheaper(g, v, w) by {
            if w != x {
                assert(rest.contains(w));
                if v == x && w != y {
                    lemma_cheaper_transitive(g, x, y, w);
                }
            }
        }
        v
    }
}

/// How many edges are missing between the neighbours of a vertex.
pub open spec fn missing_between_neighbours(g: Map<Seq<char>, Set<Seq<char>>>, v: Seq<char>) -> nat {
    Set::new(
        |p: (Seq<char>, Seq<char>)|
            g[v].contains(p.0) && g[v].contains(p.1) && name_less(p.0, p.1) && !(g.contains_key(p.0) && g[p.0].contains(
                p.1,
            )),
    ).len()
}

/// The vertex that goes first has the fewest edges missing between its
/// neighbours. Of several, it has the fewest neighbours, and of several of those
/// it comes first by name. The others then go as they do in the graph that is
/// left.
pub proof fn law_least_fill_goes_first(g: Map<Seq<char>, Set<Seq<char>>>, w: Seq<char>)
    requires
        g.dom().finite(),
        g.contains_key(w),
    ensures
        elimination(g).len() > 0,
        ({
            let v = elimination(g)[0];
            &&& g.contains_key(v)
            &&& missing_between_neighbours(g, v) <= missing_between_neighbours(g, w)
            &&& missing_between_neighbours(g, v) == missing_between_neighbours(g, w) ==> g[v].len() <= g[w].len()
            &&& missing_between_neighbours(g, v) == missing_between_neighbours(g, w) && g[v].len() == g[w].len() && v
                != w ==> name_less(v, w)
            &&& elimination(g).skip(1) == elimination(eliminate(g, v))
        }),
{
    assert(g.dom().contains(w));
    assert(g.dom().len() > 0) by {
        if g.dom().len() == 0 {
            assert(g.dom() =~= Set::<Seq<char>>::empty());
        }
    }
    let v = lemma_cheapest_among(g, g.dom());
    assert(is_cheapest(g, v)) by {
        assert forall|u: Seq<char>| #[trigger] g.contains_key(u) implies u == v || cheaper(g, v, u) by {
            assert(g.dom().contains(u));
        }
    }
    let c = cheapest(g);
    assert(is_cheapest(g, c));
    assert(g.contains_key(c));
    assert(eliminate(g, c).dom() =~= g.dom().remove(c));
    let rest = elimination(eliminate(g, c));
    assert(elimination(g) == seq![c] + rest);
    assert((seq![c] + rest).skip(1) =~= rest);
    lemma_fill_counts(g, c);
    lemma_fill_counts(g, w);
}

proof fn lemma_fill_counts(g: Map<Seq<char>, Set<Seq<char>>>, v: Seq<char>)
    ensures
        fill(g, v) == missing_between_neighbours(g, v),
{
    assert(missing_pairs(g, g[v]) =~= Set::new(
        |p: (Seq<char>, Seq<char>)|
            g[v].contains(p.0) && g[v].contains(p.1) && name_less(p.0, p.1) && !(g.contains_key(p.0) && g[p.0].contains(
                p.1,
            )),
    ));
}

/// When a vertex goes, its neighbours are joined to each other, and other
/// vertices keep their edges.
pub proof fn law_elimination_joins_the_neighbours(
    g: Map<Seq<char>, Set<Seq<char>>>,
    v: Seq<char>,
    a: Seq<char>,
    b: Seq<char>,
)
    requires
        undirected(g),
        g.contains_key(v),
        g.contains_key(a),
        g.contains_key(b),
        a != v,
        b != v,
        a != b,
    ensures
        !eliminate(g, v).contains_key(v),
        eliminate(g, v).contains_key(a),
        eliminate(g, v)[a].contains(b) == (g[a].contains(b) || g[v].contains(a) && g[v].contains(b)),
{
}

/// Adding what is missing keeps the order of what is there.
proof fn lemma_dfs_extends(
    edges: Map<Seq<char>, Set<Seq<char>>>,
    tree: Map<Seq<char>, Set<Seq<char>>>,
    stack: Seq<(Seq<char>, Option<Seq<char>>)>,
    visited: Set<Seq<char>>,
    order: Seq<Seq<char>>,
)
    requires
        edges.dom().finite(),
    ensures
        dfs_order(edges, tree, stack, visited, order).len() >= order.len(),
        dfs_order(edges, tree, stack, visited, order).take(order.len() as int) == order,
    decreases edges.dom().difference(visited).len(), stack.len(),
{
    if stack.len() == 0 {
        assert(order.take(order.len() as int) =~= order);
    } else {
        let (name, parent) = stack.last();
        if visited.contains(name) || !edges.contains_key(name) {
            lemma_dfs_extends(edges, tree, stack.drop_last(), visited, order);
        } else {
            assert(edges.dom().difference(visited.insert(name)) =~= edges.dom().difference(visited).remove(name));
            assert(edges.dom().difference(visited).contains(name));
            let longer = extended(order, listing(edges[name]));
            let more = stack.drop_last() + crate::operator::variable_orders::branches(tree, name, parent);
            lemma_dfs_extends(edges, tree, more, visited.insert(name), longer);
            let all = dfs_order(edges, tree, more, visited.insert(name), longer);
            assert(all.take(order.len() as int) =~= all.take(longer.len() as int).take(order.len() as int));
            assert(longer.take(order.len() as int) =~= order);
        }
    }
}

/// The variable order of an acyclic join begins with the variables, in order, of
/// the relation that has the most of them, of several the first by name.
pub proof fn law_order_begins_with_the_largest_relation(
    edges: Map<Seq<char>, Set<Seq<char>>>,
    tree: Map<Seq<char>, Set<Seq<char>>>,
    vertices: Set<Seq<char>>,
    root: Seq<char>,
)
    requires
        edges.dom().finite(),
        vertices != Set::<Seq<char>>::empty(),
        edges.contains_key(root),
        forall|f: Seq<char>| #[trigger]
            edges.contains_key(f) ==> f == root || edges[f].len() < edges[root].len() || edges[f].len()
                == edges[root].len() && name_less(root, f),
    ensures
        join_tree_order(edges, tree, vertices).len() >= listing(edges[root]).len(),
        join_tree_order(edges, tree, vertices).take(listing(edges[root]).len() as int) == listing(edges[root]),
{
    assert(is_root(edges, root));
    let r = root_of(edges);
    assert(is_root(edges, r));
    if r != root {
        assert(edges.contains_key(r) && edges.contains_key(root));
        if name_less(root, r) {
            lemma_less_asymmetric(root, r);
        }
    }
    let none = Seq::<Seq<char>>::empty();
    let stack = seq![(root, None::<Seq<char>>)];
    let l = listing(edges[root]);
    assert(stack.last() == (root, None::<Seq<char>>));
    let first = extended(none, l);
    assert(first =~= l) by {
        lemma_all_lacking(l);
        assert(none + l =~= l);
    }
    let visited = Set::<Seq<char>>::empty();
    assert(edges.dom().difference(visited.insert(root)) =~= edges.dom().difference(visited).remove(root));
    assert(edges.dom().difference(visited).contains(root));
    let more = stack.drop_last() + crate::operator::variable_orders::branches(tree, root, None);
    lemma_dfs_extends(edges, tree, more, visited.insert(root), first);
    let dfs = dfs_order(edges, tree, stack, visited, none);
    assert(dfs == dfs_order(edges, tree, more, visited.insert(root), first));
    let all = extended(dfs, listing(vertices));
    assert(all.take(l.len() as int) =~= dfs.take(l.len() as int));
}

proof fn lemma_all_lacking(names: Seq<Seq<char>>)
    ensures
        names.filter(crate::operator::variable_orders::lacking(Seq::empty())) == names,
    decreases names.len(),
{
    reveal(Seq::filter);
    let p = crate::operator::variable_orders::lacking(Seq::empty());
    if names.len() > 0 {
        lemma_all_lacking(names.drop_last());
        assert(p(names.last()));
        assert(names.drop_last().push(names.last()) =~= names);
    } else {
        assert(names.filter(p) =~= names);
    }
}

/// A relation becomes bound with the variable that is the last of its own in the
/// order: all its variables are among the first, and that one is its own.
pub proof fn law_relation_is_bound_by_its_last_variable(
    order: Seq<Seq<char>>,
    relations: Map<Seq<char>, Set<Seq<char>>>,
    i: int,
    r: Seq<char>,
)
    requires
        order.no_duplicates(),
        0 < i < order.len(),
    ensures
        newly_bound(order, relations, i).contains(r) == (relations.contains_key(r) && relations[r].contains(order[i])
            && forall|v: Seq<char>| #[trigger]
            relations[r].contains(v) ==> exists|k: int| 0 <= k <= i && #[trigger] order[k] == v),
{
    let first = order.take(i + 1);
    let before = order.take(i);
    if relations.contains_key(r) {
        let vars = relations[r];
        if bound_after(order, i + 1, vars) {
            assert forall|v: Seq<char>| #[trigger] vars.contains(v) implies exists|k: int|
                0 <= k <= i && #[trigger] order[k] == v by {
                assert(first.to_set().contains(v));
                let k = choose|k: int| 0 <= k < first.len() && first[k] == v;
                assert(order[k] == v);
            }
        }
        if forall|v: Seq<char>| #[trigger]
            vars.contains(v) ==> exists|k: int| 0 <= k <= i && #[trigger] order[k] == v {
            assert forall|v: Seq<char>| vars.contains(v) implies first.to_set().contains(v) by {
                let k = choose|k: int| 0 <= k <= i && #[trigger] order[k] == v;
                assert(first[k] == v);
            }
            if vars.contains(order[i]) {
                assert(!before.to_set().contains(order[i])) by {
                    if before.to_set().contains(order[i]) {
                        let k = choose|k: int| 0 <= k < before.len() && before[k] == order[i];
                        assert(order[k] == order[i]);
                    }
                }
                assert(!bound_after(order, i, vars));
            } else {
                assert forall|v: Seq<char>| vars.contains(v) implies before.to_set().contains(v) by {
                    let k = choose|k: int| 0 <= k <= i && #[trigger] order[k] == v;
                    assert(k != i);
                    assert(before[k] == v);
                }
                assert(bound_after(order, i, vars));
            }
        }
    }
}

/// In ranked order scores do not rise when descending, and do not fall when
/// ascending.
pub proof fn law_ranked_scores_are_monotone<T>(items: Seq<(T, i64)>)
    ensures
        ranked(SortDirection::Descending, items) == forall|i: int, j: int|
            0 <= i < j < items.len() ==> (#[trigger] items[i]).1 >= (#[trigger] items[j]).1,
        ranked(SortDirection::Ascending, items) == forall|i: int, j: int|
            0 <= i < j < items.len() ==> (#[trigger] items[i]).1 <= (#[trigger] items[j]).1,
{
    if ranked(SortDirection::Descending, items) {
        assert forall|i: int, j: int| 0 <= i < j < items.len() implies (#[trigger] items[i]).1 >= (
        #[trigger] items[j]).1 by {
            assert(!ranks_before(SortDirection::Descending, items[j].1, items[i].1));
        }
    }
    if ranked(SortDirection::Ascending, items) {
        assert forall|i: int, j: int| 0 <= i < j < items.len() implies (#[trigger] items[i]).1 <= (
        #[trigger] items[j]).1 by {
            assert(!ranks_before(SortDirection::Ascending, items[j].1, items[i].1));
        }
    }
}

/// A solution is removed by MINUS exactly if some excluded solution binds a
/// variable that it binds, and the two give the same value to every variable that
/// both bind.
pub proof fn law_minus_removes_the_compatible(exclusions: Seq<BindingSet>, b: BindingSet)
    ensures
        remaining(exclusions)(b) == forall|i: int|
            0 <= i < exclusions.len() ==> {
                let e = (#[trigger] exclusions[i]).values();
                ||| b.values().dom().disjoint(e.dom())
                ||| exists|v: Seq<char>| #[trigger]
                    b.values().contains_key(v) && e.contains_key(v) && b.values()[v]@ != e[v]@
            },
{
    assert forall|i: int| 0 <= i < exclusions.len() implies compatible_with(
        b.values(),
        (#[trigger] exclusions[i]).values(),
    ) == !({
        let e = exclusions[i].values();
        ||| b.values().dom().disjoint(e.dom())
        ||| exists|v: Seq<char>| #[trigger]
            b.values().contains_key(v) && e.contains_key(v) && b.values()[v]@ != e[v]@
    }) by {
        let a = b.values();
        let e = exclusions[i].values();
        if compatible_with(a, e) {
            let v = choose|v: Seq<char>| shares(a, e, v);
            assert(a.dom().contains(v) && e.dom().contains(v));
            assert forall|v: Seq<char>| #[trigger] a.contains_key(v) && e.contains_key(v) implies a[v]@ == e[v]@ by {
                assert(shares(a, e, v));
            }
        } else if !a.dom().disjoint(e.dom()) {
            let v = choose|v: Seq<char>| a.dom().contains(v) && e.dom().contains(v);
            assert(shares(a, e, v));
            let u = choose|u: Seq<char>| #[trigger] shares(a, e, u) && a[u]@ != e[u]@;
            assert(a.contains_key(u) && e.contains_key(u) && a[u]@ != e[u]@);
        }
    }
}

/// With a predicate that answers for a solution by the solution alone, the filter
/// keeps exactly those that it holds of, in their order.
pub proof fn law_filter_keeps_what_passes<A>(s: Seq<A>, answers: Seq<bool>, p: spec_fn(A) -> bool)
    requires
        answers.len() == s.len(),
        forall|i: int| 0 <= i < s.len() ==> #[trigger] answers[i] == p(s[i]),
    ensures
        kept(s, answers) == s.filter(p),
    decreases s.len(),
{
    reveal(Seq::filter);
    if s.len() == 0 {
        assert(s.filter(p) =~= Seq::<A>::empty());
    } else {
        let front = answers.drop_last();
        assert forall|i: int| 0 <= i < s.drop_last().len() implies #[trigger] front[i] == p(s.drop_last()[i]) by {
            assert(answers[i] == p(s[i]));
        }
        law_filter_keeps_what_passes(s.drop_last(), front, p);
        assert(answers[s.len() - 1] == p(s[s.len() - 1]));
    }
}

/// A window holds what some update added, and neither that update nor a later one
/// removed.
pub proof fn law_window_holds_what_was_not_removed<T>(updates: Seq<WindowUpdate<T>>, x: T)
    ensures
        window_after(updates).contains(x) == exists|i: int|
            0 <= i < updates.len() && (#[trigger] updates[i]).added@.contains(x) && forall|j: int|
                i <= j < updates.len() ==> !(#[trigger] updates[j]).removed@.contains(x),
    decreases updates.len(),
{
    if updates.len() > 0 {
        let front = updates.drop_last();
        let n = front.len() as int;
        let last = updates.last();
        assert(updates[n] == last);
        law_window_holds_what_was_not_removed(front, x);
        assert(last.added@.to_set().contains(x) == last.added@.contains(x));
        assert(last.removed@.to_set().contains(x) == last.removed@.contains(x));
        if window_after(updates).contains(x) {
            if last.added@.contains(x) {
                assert(updates[n].added@.contains(x));
                assert forall|j: int| n <= j < updates.len() implies !(#[trigger] updates[j]).removed@.contains(x) by {}
            } else {
                let i = choose|i: int|
                    0 <= i < front.len() && (#[trigger] front[i]).added@.contains(x) && forall|j: int|
                        i <= j < front.len() ==> !(#[trigger] front[j]).removed@.contains(x);
                assert(updates[i] == front[i]);
                assert forall|j: int| i <= j < updates.len() implies !(#[trigger] updates[j]).removed@.contains(x) by {
                    if j < n {
                        assert(updates[j] == front[j]);
                    }
                }
            }
        }
        if exists|i: int|
            0 <= i < updates.len() && (#[trigger] updates[i]).added@.contains(x) && forall|j: int|
                i <= j < updates.len() ==> !(#[trigger] updates[j]).removed@.contains(x) {
            let i = choose|i: int|
                0 <= i < updates.len() && (#[trigger] updates[i]).added@.contains(x) && forall|j: int|
                    i <= j < updates.len() ==> !(#[trigger] updates[j]).removed@.contains(x);
            assert(!updates[n].removed@.contains(x));
            if i < n {
                assert(front[i] == updates[i]);
                assert forall|j: int| i <= j < front.len() implies !(#[trigger] front[j]).removed@.contains(x) by {
                    assert(front[j] == updates[j]);
                }
            }
        }
    }
}

/// ISTREAM gives what each update added, and DSTREAM what each removed: all of it,
/// update after update.
pub proof fn law_streams_give_the_changes<T>(updates: Seq<WindowUpdate<T>>, more: WindowUpdate<T>)
    ensures
        concat(updates.push(more), additions()) == concat(updates, additions()) + more.added@,
        concat(updates.push(more), removals()) == concat(updates, removals()) + more.removed@,
        concat(Seq::<WindowUpdate<T>>::empty(), additions()) == Seq::<T>::empty(),
        concat(Seq::<WindowUpdate<T>>::empty(), removals()) == Seq::<T>::empty(),
{
    assert(updates.push(more).drop_last() =~= updates);
}

} // verus!
