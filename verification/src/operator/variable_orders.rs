//! Orders of the variables of a hypergraph: depth first over its join tree,
//! and by minimum fill.
use vstd::prelude::*;

use crate::listing::{lemma_filter_distinct, lemma_filter_keeps, lemma_filter_member};
use crate::name_sets::{lemma_set_at, set_map, sets_wf};
use crate::names::{
    ascending_names, lemma_ascending_distinct, lemma_less_asymmetric, name_less, same_name, text, NameMap, NameSet,
};
use crate::operator::graph_search::listed_in;
use crate::operator::hypergraph::{holds, lemma_keys, lemma_listing, listing};

verus! {

/// Those of `names` that the order lacks go to its end.
pub open spec fn extended(order: Seq<Seq<char>>, names: Seq<Seq<char>>) -> Seq<Seq<char>> {
    order + names.filter(lacking(order))
}

pub open spec fn lacking(order: Seq<Seq<char>>) -> spec_fn(Seq<char>) -> bool {
    |v: Seq<char>| !order.contains(v)
}

/// `e` has the most variables, and comes first among those that have.
pub open spec fn is_root(edges: Map<Seq<char>, Set<Seq<char>>>, e: Seq<char>) -> bool {
    &&& edges.contains_key(e)
    &&& forall|f: Seq<char>| #[trigger]
        edges.contains_key(f) ==> f == e || edges[f].len() < edges[e].len() || edges[f].len() == edges[e].len()
            && name_less(e, f)
}

pub open spec fn root_of(edges: Map<Seq<char>, Set<Seq<char>>>) -> Seq<char> {
    choose|e: Seq<char>| is_root(edges, e)
}

proof fn lemma_root(edges: Map<Seq<char>, Set<Seq<char>>>, e: Seq<char>)
    requires
        is_root(edges, e),
    ensures
        root_of(edges) == e,
{
    let f = root_of(edges);
    assert(is_root(edges, f));
    if f != e {
        assert(edges.contains_key(f) && edges.contains_key(e));
        if name_less(e, f) {
            lemma_less_asymmetric(e, f);
        }
    }
}

/// What waits on the stack after a visit of `name`: its neighbours, but for
/// where the visit came from, the first of them on top.
pub open spec fn branches(
    tree: Map<Seq<char>, Set<Seq<char>>>,
    name: Seq<char>,
    parent: Option<Seq<char>>,
) -> Seq<(Seq<char>, Option<Seq<char>>)> {
    listing(tree[name]).filter(not_parent(parent)).map_values(below(name)).reverse()
}

pub open spec fn not_parent(parent: Option<Seq<char>>) -> spec_fn(Seq<char>) -> bool {
    |n: Seq<char>| Some(n) != parent
}

pub open spec fn below(name: Seq<char>) -> spec_fn(Seq<char>) -> (Seq<char>, Option<Seq<char>>) {
    |n: Seq<char>| (n, Some(name))
}

/// The variables in the order in which a depth-first visit of the join tree
/// meets them, each relation giving its own in order.
pub open spec fn dfs_order(
    edges: Map<Seq<char>, Set<Seq<char>>>,
    tree: Map<Seq<char>, Set<Seq<char>>>,
    stack: Seq<(Seq<char>, Option<Seq<char>>)>,
    visited: Set<Seq<char>>,
    order: Seq<Seq<char>>,
) -> Seq<Seq<char>>
    decreases edges.dom().difference(visited).len(), stack.len(),
    when edges.dom().finite()
{
    if stack.len() == 0 {
        order
    } else {
        let (name, parent) = stack.last();
        if visited.contains(name) || !edges.contains_key(name) {
            dfs_order(edges, tree, stack.drop_last(), visited, order)
        } else {
            proof {
                assert(edges.dom().difference(visited.insert(name)) =~= edges.dom().difference(visited).remove(name));
                assert(edges.dom().difference(visited).contains(name));
            }
            dfs_order(
                edges,
                tree,
                stack.drop_last() + branches(tree, name, parent),
                visited.insert(name),
                extended(order, listing(edges[name])),
            )
        }
    }
}

/// The prefix order of an acyclic hypergraph: depth first from the root, then
/// the variables that were not met, in order.
pub open spec fn join_tree_order(
    edges: Map<Seq<char>, Set<Seq<char>>>,
    tree: Map<Seq<char>, Set<Seq<char>>>,
    vertices: Set<Seq<char>>,
) -> Seq<Seq<char>> {
    if vertices == Set::<Seq<char>>::empty() {
        Seq::empty()
    } else {
        extended(
            dfs_order(edges, tree, seq![(root_of(edges), None)], Set::empty(), Seq::empty()),
            listing(vertices),
        )
    }
}

/// Adding to the end what is missing keeps an order free of repetition.
proof fn lemma_extended(order: Seq<Seq<char>>, names: Seq<Seq<char>>, inside: Set<Seq<char>>)
    requires
        order.no_duplicates(),
        names.no_duplicates(),
        order.to_set().subset_of(inside),
        names.to_set().subset_of(inside),
    ensures
        extended(order, names).no_duplicates(),
        extended(order, names).to_set().subset_of(inside),
        names.to_set().subset_of(extended(order, names).to_set()),
{
    let p = lacking(order);
    let f = names.filter(p);
    let e = extended(order, names);
    assert(f.no_duplicates()) by {
        lemma_filter_distinct(names, p);
    }
    assert forall|i: int| 0 <= i < f.len() implies names.contains(#[trigger] f[i]) && !order.contains(f[i]) by {
        lemma_filter_member(names, p, i);
    }
    assert forall|i: int, j: int| 0 <= i < e.len() && 0 <= j < e.len() && i != j implies e[i] != e[j] by {
        if i < order.len() && j >= order.len() {
            assert(!order.contains(f[j - order.len()]));
            assert(order.contains(order[i]));
        }
        if j < order.len() && i >= order.len() {
            assert(!order.contains(f[i - order.len()]));
            assert(order.contains(order[j]));
        }
    }
    assert forall|v: Seq<char>| e.to_set().contains(v) implies inside.contains(v) by {
        let i = choose|i: int| 0 <= i < e.len() && e[i] == v;
        if i < order.len() {
            assert(order.to_set().contains(order[i]));
        } else {
            assert(names.to_set().contains(f[i - order.len()]));
        }
    }
    assert forall|v: Seq<char>| names.to_set().contains(v) implies e.to_set().contains(v) by {
        if order.contains(v) {
            let i = choose|i: int| 0 <= i < order.len() && order[i] == v;
            assert(e[i] == v);
        } else {
            lemma_filter_keeps(names, p, v);
            let i = choose|i: int| 0 <= i < f.len() && f[i] == v;
            assert(e[order.len() + i] == v);
        }
    }
}

/// The visit meets no variable twice, and only variables of the hypergraph.
proof fn lemma_dfs_order(
    edges: Map<Seq<char>, Set<Seq<char>>>,
    tree: Map<Seq<char>, Set<Seq<char>>>,
    stack: Seq<(Seq<char>, Option<Seq<char>>)>,
    visited: Set<Seq<char>>,
    order: Seq<Seq<char>>,
    vertices: Set<Seq<char>>,
)
    requires
        edges.dom().finite(),
        order.no_duplicates(),
        order.to_set().subset_of(vertices),
        forall|e: Seq<char>| #[trigger]
            edges.contains_key(e) ==> edges[e].subset_of(vertices) && ascending_names(listing(edges[e]))
                && listing(edges[e]).to_set() == edges[e],
    ensures
        dfs_order(edges, tree, stack, visited, order).no_duplicates(),
        dfs_order(edges, tree, stack, visited, order).to_set().subset_of(vertices),
    decreases edges.dom().difference(visited).len(), stack.len(),
{
    if stack.len() > 0 {
        let (name, parent) = stack.last();
        if visited.contains(name) || !edges.contains_key(name) {
            lemma_dfs_order(edges, tree, stack.drop_last(), visited, order, vertices);
        } else {
            assert(edges.dom().difference(visited.insert(name)) =~= edges.dom().difference(visited).remove(name));
            assert(edges.dom().difference(visited).contains(name));
            lemma_ascending_distinct(listing(edges[name]));
            lemma_extended(order, listing(edges[name]), vertices);
            lemma_dfs_order(
                edges,
                tree,
                stack.drop_last() + branches(tree, name, parent),
                visited.insert(name),
                extended(order, listing(edges[name])),
                vertices,
            );
        }
    }
}

/// A join tree order lists every variable, and each once.
pub proof fn law_join_tree_order_lists_each_variable_once(
    edges: &NameMap<NameSet>,
    tree: Map<Seq<char>, Set<Seq<char>>>,
    vertices: &NameSet,
)
    requires
        sets_wf(edges),
        vertices.wf(),
        forall|e: Seq<char>, v: Seq<char>| #[trigger] holds(set_map(edges), e, v) ==> vertices@.contains(v),
    ensures
        join_tree_order(set_map(edges), tree, vertices@).no_duplicates(),
        join_tree_order(set_map(edges), tree, vertices@).to_set() == vertices@,
{
    let g = set_map(edges);
    lemma_keys(edges);
    if vertices@ == Set::<Seq<char>>::empty() {
        assert(Seq::<Seq<char>>::empty().to_set() =~= vertices@);
    } else {
        let stack = seq![(root_of(g), None::<Seq<char>>)];
        let none = Seq::<Seq<char>>::empty();
        assert(none.to_set() =~= Set::empty());
        assert forall|e: Seq<char>| #[trigger] g.contains_key(e) implies g[e].subset_of(vertices@)
            && ascending_names(listing(g[e])) && listing(g[e]).to_set() == g[e] by {
            lemma_set_at(edges, e);
            let set = edges@[e];
            lemma_listing(&set);
            set.lemma_listed();
            assert forall|v: Seq<char>| g[e].contains(v) implies vertices@.contains(v) by {
                assert(holds(g, e, v));
            }
        }
        lemma_dfs_order(g, tree, stack, Set::empty(), none, vertices@);
        let order = dfs_order(g, tree, stack, Set::empty(), none);
        vertices.lemma_listed();
        lemma_listing(vertices);
        lemma_extended(order, vertices.listed(), vertices@);
        assert(join_tree_order(g, tree, vertices@).to_set() =~= vertices@);
    }
}

/// Appends to `order` the names of `names` that it lacks.
fn extend_order(order: &mut Vec<String>, names: &NameSet)
    requires
        names.wf(),
    ensures
        final(order)@.map_values(text()) == extended(old(order)@.map_values(text()), names.listed()),
{
    let ghost order0 = order@.map_values(text());
    let ghost p = lacking(order0);
    let mut i: usize = 0;
    proof {
        names.lemma_listed();
        reveal(Seq::filter);
        assert(order@.map_values(text()) =~= order0 + names.listed().take(0).filter(p));
    }
    while i < names.len()
        invariant
            names.wf(),
            names.listed().no_duplicates(),
            p == lacking(order0),
            i <= names.listed().len(),
            order@.map_values(text()) == order0 + names.listed().take(i as int).filter(p),
        decreases names.listed().len() - i,
    {
        let v = names.get(i);
        let ghost before = order@;
        let known = contains_name(order, v);
        proof {
            let l = names.listed();
            let t = l.take(i as int);
            assert(l.take(i + 1).drop_last() =~= t);
            assert(l.take(i + 1).last() == v@);
            reveal(Seq::filter);
            let b = before.map_values(text());
            assert(b == order0 + t.filter(p));
            assert(b.len() == before.len());
            if listed_in(before, v@) {
                let k = choose|k: int| 0 <= k < before.len() && (#[trigger] before[k])@ == v@;
                assert(b[k] == v@);
                if k >= order0.len() {
                    lemma_filter_member(t, p, k - order0.len());
                    let q = choose|q: int| 0 <= q < t.len() && t[q] == v@;
                    assert(l[q] == l[i as int]);
                } else {
                    assert(order0[k] == v@);
                }
                assert(!p(v@));
            } else {
                if order0.contains(v@) {
                    let k = choose|k: int| 0 <= k < order0.len() && order0[k] == v@;
                    assert(b[k] == v@);
                    assert(before[k]@ == v@);
                }
                assert(p(v@));
            }
        }
        if !known {
            order.push(v.to_string());
            proof {
                assert(order@.map_values(text()) =~= before.map_values(text()).push(v@));
                assert(order@.map_values(text()) =~= order0 + names.listed().take(i + 1).filter(p));
            }
        }
        i += 1;
    }
    assert(names.listed().take(i as int) =~= names.listed());
}

fn contains_name(list: &Vec<String>, name: &str) -> (r: bool)
    ensures
        r == listed_in(list@, name@),
{
    let mut k: usize = 0;
    while k < list.len()
        invariant
            k <= list@.len(),
            forall|i: int| 0 <= i < k ==> (#[trigger] list@[i])@ != name@,
        decreases list@.len() - k,
    {
        if same_name(list[k].as_str(), name) {
            assert(list@[k as int]@ == name@);
            return true;
        }
        k += 1;
    }
    false
}

/// The relation with the most variables, the first of them.
fn choose_join_tree_root(edges: &NameMap<NameSet>) -> (r: usize)
    requires
        sets_wf(edges),
        edges.keys().len() > 0,
    ensures
        r < edges.keys().len(),
        edges.keys()[r as int] == root_of(set_map(edges)),
{
    let ghost g = set_map(edges);
    let mut best: usize = 0;
    let mut i: usize = 1;
    proof {
        lemma_keys(edges);
        assert(g.contains_key(edges.keys()[0]));
    }
    while i < edges.len()
        invariant
            sets_wf(edges),
            g == set_map(edges),
            best < i <= edges.keys().len(),
            forall|j: int|
                0 <= j < i ==> j == best || g[#[trigger] edges.keys()[j]].len() < g[edges.keys()[best as int]].len()
                    || g[edges.keys()[j]].len() == g[edges.keys()[best as int]].len() && best < j,
        decreases edges.keys().len() - i,
    {
        proof {
            lemma_keys(edges);
            assert(g.contains_key(edges.keys()[i as int]));
            assert(g.contains_key(edges.keys()[best as int]));
        }
        if edges.value_at(i).len() > edges.value_at(best).len() {
            best = i;
        }
        i += 1;
    }
    proof {
        lemma_keys(edges);
        let e = edges.keys()[best as int];
        assert(g.contains_key(e));
        assert forall|f: Seq<char>| #[trigger] g.contains_key(f) implies f == e || g[f].len() < g[e].len()
            || g[f].len() == g[e].len() && name_less(e, f) by {
            let j = choose|j: int| 0 <= j < edges.keys().len() && edges.keys()[j] == f;
            assert(g[edges.keys()[j]].len() <= g[e].len());
        }
        lemma_root(g, e);
    }
    best
}

/// The texts of a stack of relations with where each was met from.
spec fn stack_texts(stack: Seq<(String, Option<String>)>) -> Seq<(Seq<char>, Option<Seq<char>>)> {
    stack.map_values(stack_text())
}

spec fn stack_text() -> spec_fn((String, Option<String>)) -> (Seq<char>, Option<Seq<char>>) {
    |e: (String, Option<String>)|
        (
            e.0@,
            match e.1 {
                Some(p) => Some(p@),
                None => None,
            },
        )
}

spec fn option_text(parent: Option<String>) -> Option<Seq<char>> {
    match parent {
        Some(p) => Some(p@),
        None => None,
    }
}

/// Puts the neighbours of a visited relation on the stack.
fn push_branches(
    stack: &mut Vec<(String, Option<String>)>,
    neighbors: &NameSet,
    name: &str,
    parent: &Option<String>,
)
    requires
        neighbors.wf(),
    ensures
        stack_texts(final(stack)@) == stack_texts(old(stack)@) + neighbors.listed().filter(
            not_parent(option_text(*parent)),
        ).map_values(below(name@)).reverse(),
{
    let ghost base = stack_texts(stack@);
    let ghost l = neighbors.listed();
    let ghost p = not_parent(option_text(*parent));
    let mut i: usize = neighbors.len();
    proof {
        reveal(Seq::filter);
        assert(l.skip(l.len() as int) =~= Seq::empty());
        assert(base =~= base + l.skip(i as int).filter(p).map_values(below(name@)).reverse());
    }
    while i > 0
        invariant
            neighbors.wf(),
            l == neighbors.listed(),
            p == not_parent(option_text(*parent)),
            i <= l.len(),
            stack_texts(stack@) == base + l.skip(i as int).filter(p).map_values(below(name@)).reverse(),
        decreases i,
    {
        i -= 1;
        let n = neighbors.get(i);
        let skip = match parent {
            Some(q) => same_name(q.as_str(), n),
            None => false,
        };
        let ghost before = stack@;
        proof {
            assert(l.skip(i as int) =~= seq![n@] + l.skip(i + 1));
            crate::listing::lemma_filter_front(n@, l.skip(i + 1), p);
        }
        let ghost f = l.skip(i + 1).filter(p);
        if !skip {
            stack.push((n.to_string(), Some(name.to_string())));
            proof {
                assert(stack_texts(stack@) =~= stack_texts(before).push((n@, Some(name@))));
                assert((seq![n@] + f).map_values(below(name@)).reverse() =~= f.map_values(below(name@)).reverse().push(
                    (n@, Some(name@)),
                ));
                assert(stack_texts(stack@) =~= base + (seq![n@] + f).map_values(below(name@)).reverse());
            }
        }
    }
    assert(l.skip(0) =~= l);
}

/// Depth-first visit of the join tree. The stack holds what is still to be
/// visited.
#[verifier::spinoff_prover]
fn dfs_join_tree(edges: &NameMap<NameSet>, tree: &NameMap<NameSet>, root: &str) -> (r: Vec<String>)
    requires
        sets_wf(edges),
        sets_wf(tree),
        set_map(tree).dom() == set_map(edges).dom(),
    ensures
        r@.map_values(text()) == dfs_order(
            set_map(edges),
            set_map(tree),
            seq![(root@, None)],
            Set::empty(),
            Seq::empty(),
        ),
{
    let ghost g = set_map(edges);
    let ghost t = set_map(tree);
    let mut visited = NameSet::new();
    let mut order: Vec<String> = Vec::new();
    let mut stack: Vec<(String, Option<String>)> = Vec::new();
    stack.push((root.to_string(), None));
    proof {
        lemma_keys(edges);
        assert(stack_texts(stack@) =~= seq![(root@, None)]);
        assert(order@.map_values(text()) =~= Seq::empty());
    }
    let ghost result = dfs_order(g, t, seq![(root@, None)], Set::empty(), Seq::empty());
    while stack.len() > 0
        invariant
            sets_wf(edges),
            sets_wf(tree),
            g == set_map(edges),
            t == set_map(tree),
            t.dom() == g.dom(),
            g.dom().finite(),
            visited.wf(),
            dfs_order(g, t, stack_texts(stack@), visited@, order@.map_values(text())) == result,
        decreases g.dom().difference(visited@).len(), stack@.len(),
    {
        let ghost stack0 = stack@;
        let ghost visited0 = visited@;
        if let Some((name, parent)) = stack.pop() {
            proof {
                assert(stack0.last() == (name, parent));
                assert(stack_texts(stack@) =~= stack_texts(stack0).drop_last());
                assert(stack_texts(stack0).last() == (name@, option_text(parent)));
            }
            if !visited.contains(name.as_str()) {
                if let Some(vars) = edges.get(name.as_str()) {
                    proof {
                        lemma_set_at(edges, name@);
                        lemma_listing(vars);
                        assert(t.dom().contains(name@));
                        lemma_set_at(tree, name@);
                        assert(g.dom().difference(visited0.insert(name@)) =~= g.dom().difference(visited0).remove(
                            name@,
                        ));
                        assert(g.dom().difference(visited0).contains(name@));
                    }
                    visited.insert(name.as_str());
                    extend_order(&mut order, vars);
                    if let Some(neighbors) = tree.get(name.as_str()) {
                        proof {
                            lemma_listing(neighbors);
                        }
                        push_branches(&mut stack, neighbors, name.as_str(), &parent);
                    }
                }
            }
        }
    }
    order
}

/// The prefix order of an acyclic hypergraph.
pub fn derive_prefix_order(edges: &NameMap<NameSet>, tree: &NameMap<NameSet>, vertices: &NameSet) -> (r: Vec<String>)
    requires
        sets_wf(edges),
        sets_wf(tree),
        set_map(tree).dom() == set_map(edges).dom(),
        vertices.wf(),
        vertices@ != Set::<Seq<char>>::empty() ==> edges.keys().len() > 0,
    ensures
        r@.map_values(text()) == join_tree_order(set_map(edges), set_map(tree), vertices@),
{
    if vertices.is_empty() {
        let r: Vec<String> = Vec::new();
        assert(r@.map_values(text()) =~= Seq::empty());
        return r;
    }
    let root = choose_join_tree_root(edges);
    let mut order = dfs_join_tree(edges, tree, edges.key_at(root));
    extend_order(&mut order, vertices);
    proof {
        lemma_listing(vertices);
    }
    order
}

} // verus!
