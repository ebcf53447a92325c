//! Walks, connectivity and cycles in undirected graphs of names.
use vstd::prelude::*;

use crate::name_sets::{lemma_set_at, set_map, sets_wf};
use crate::names::{same_name, text, NameMap, NameSet};

verus! {

/// `b` is a neighbour of `a`.
pub open spec fn step(g: Map<Seq<char>, Set<Seq<char>>>, a: Seq<char>, b: Seq<char>) -> bool {
    g.contains_key(a) && g[a].contains(b)
}

/// The walk goes from its `i`-th place to the next one along an edge.
pub open spec fn step_at(g: Map<Seq<char>, Set<Seq<char>>>, p: Seq<Seq<char>>, i: int) -> bool {
    step(g, p[i], p[i + 1])
}

pub open spec fn is_walk(g: Map<Seq<char>, Set<Seq<char>>>, p: Seq<Seq<char>>) -> bool {
    &&& p.len() > 0
    &&& forall|i: int| 0 <= i < p.len() - 1 ==> #[trigger] step_at(g, p, i)
}

/// Some walk leads from `a` to `b`.
pub open spec fn reaches(g: Map<Seq<char>, Set<Seq<char>>>, a: Seq<char>, b: Seq<char>) -> bool {
    exists|p: Seq<Seq<char>>| #[trigger] is_walk(g, p) && p[0] == a && p[p.len() - 1] == b
}

/// Every node reaches every node.
pub open spec fn connected(g: Map<Seq<char>, Set<Seq<char>>>) -> bool {
    forall|a: Seq<char>, b: Seq<char>| g.contains_key(a) && g.contains_key(b) ==> #[trigger] reaches(g, a, b)
}

/// Edges go both ways, between different nodes of the graph.
pub open spec fn undirected(g: Map<Seq<char>, Set<Seq<char>>>) -> bool {
    forall|a: Seq<char>, b: Seq<char>|
        g.contains_key(a) && #[trigger] g[a].contains(b) ==> a != b && g.contains_key(b) && g[b].contains(a)
}

/// A closed walk through at least three different nodes.
pub open spec fn is_cycle(g: Map<Seq<char>, Set<Seq<char>>>, c: Seq<Seq<char>>) -> bool {
    &&& is_walk(g, c)
    &&& c.no_duplicates()
    &&& c.len() >= 3
    &&& step(g, c[c.len() - 1], c[0])
}

pub open spec fn cyclic(g: Map<Seq<char>, Set<Seq<char>>>) -> bool {
    exists|c: Seq<Seq<char>>| is_cycle(g, c)
}

proof fn lemma_walk_start(g: Map<Seq<char>, Set<Seq<char>>>, a: Seq<char>)
    ensures
        reaches(g, a, a),
{
    let p = seq![a];
    assert(is_walk(g, p));
}

proof fn lemma_walk_extend(g: Map<Seq<char>, Set<Seq<char>>>, a: Seq<char>, b: Seq<char>, c: Seq<char>)
    requires
        reaches(g, a, b),
        step(g, b, c),
    ensures
        reaches(g, a, c),
{
    let p = choose|p: Seq<Seq<char>>| #[trigger] is_walk(g, p) && p[0] == a && p[p.len() - 1] == b;
    let q = p.push(c);
    assert forall|i: int| 0 <= i < q.len() - 1 implies #[trigger] step_at(g, q, i) by {
        if i < p.len() - 1 {
            assert(step_at(g, p, i));
        }
    }
    assert(is_walk(g, q));
}

proof fn lemma_walk_reverse(g: Map<Seq<char>, Set<Seq<char>>>, a: Seq<char>, b: Seq<char>)
    requires
        undirected(g),
        reaches(g, a, b),
    ensures
        reaches(g, b, a),
{
    let p = choose|p: Seq<Seq<char>>| #[trigger] is_walk(g, p) && p[0] == a && p[p.len() - 1] == b;
    let q = p.reverse();
    assert forall|i: int| 0 <= i < q.len() - 1 implies #[trigger] step_at(g, q, i) by {
        let k = p.len() - 2 - i;
        assert(step_at(g, p, k));
        assert(q[i] == p[k + 1] && q[i + 1] == p[k]);
        assert(g[p[k]].contains(p[k + 1]));
    }
    assert(is_walk(g, q));
}

proof fn lemma_walk_join(g: Map<Seq<char>, Set<Seq<char>>>, a: Seq<char>, b: Seq<char>, c: Seq<char>)
    requires
        reaches(g, a, b),
        reaches(g, b, c),
    ensures
        reaches(g, a, c),
{
    let p = choose|p: Seq<Seq<char>>| #[trigger] is_walk(g, p) && p[0] == a && p[p.len() - 1] == b;
    let q = choose|q: Seq<Seq<char>>| #[trigger] is_walk(g, q) && q[0] == b && q[q.len() - 1] == c;
    let r = p + q.skip(1);
    assert forall|i: int| 0 <= i < r.len() - 1 implies #[trigger] step_at(g, r, i) by {
        if i < p.len() - 1 {
            assert(step_at(g, p, i));
        } else {
            assert(step_at(g, q, i - (p.len() - 1)));
        }
    }
    assert(is_walk(g, r));
}

/// A walk that starts in a set closed under steps stays in it.
proof fn lemma_walk_inside(g: Map<Seq<char>, Set<Seq<char>>>, inside: Set<Seq<char>>, p: Seq<Seq<char>>, k: int)
    requires
        is_walk(g, p),
        inside.contains(p[0]),
        forall|a: Seq<char>, b: Seq<char>| inside.contains(a) && #[trigger] g[a].contains(b) ==> inside.contains(b),
        0 <= k < p.len(),
    ensures
        inside.contains(p[k]),
    decreases k,
{
    if k > 0 {
        lemma_walk_inside(g, inside, p, k - 1);
        assert(step_at(g, p, k - 1));
        assert(g[p[k - 1]].contains(p[k]));
    }
}

/// `name` is one of the listed strings.
pub open spec fn listed_in(list: Seq<String>, name: Seq<char>) -> bool {
    exists|k: int| 0 <= k < list.len() && (#[trigger] list[k])@ == name
}

/// Is every node reachable from every node? Breadth-first search from the
/// first one.
pub fn all_connected(adjacency: &NameMap<NameSet>) -> (r: bool)
    requires
        sets_wf(adjacency),
        undirected(set_map(adjacency)),
    ensures
        r == connected(set_map(adjacency)),
{
    let ghost g = set_map(adjacency);
    if adjacency.is_empty() {
        return true;
    }
    let start = adjacency.key_at(0);
    let ghost s = start@;
    let mut visited = NameSet::new();
    visited.insert(start);
    let mut queue: Vec<String> = Vec::new();
    queue.push(start.to_string());
    proof {
        adjacency.lemma_lookup(0);
        lemma_walk_start(g, s);
        assert(queue@[0]@ == s);
        assert(listed_in(queue@, s));
        crate::names::lemma_ascending_distinct(adjacency.keys());
        lemma_visited_bound(adjacency, visited@);
        visited.lemma_listed();
    }
    while queue.len() > 0
        invariant
            sets_wf(adjacency),
            undirected(g),
            g == set_map(adjacency),
            g.contains_key(s),
            visited.wf(),
            visited@.contains(s),
            visited@.finite(),
            visited@.len() <= adjacency.keys().len(),
            forall|v: Seq<char>| #[trigger] visited@.contains(v) ==> g.contains_key(v) && reaches(g, s, v),
            forall|k: int| 0 <= k < queue@.len() ==> visited@.contains((#[trigger] queue@[k])@),
            forall|v: Seq<char>, w: Seq<char>|
                visited@.contains(v) && !listed_in(queue@, v) && #[trigger] g[v].contains(w) ==> visited@.contains(w),
        decreases 2 * (adjacency.keys().len() - visited@.len()) + queue@.len(),
    {
        let ghost queue0 = queue@;
        let ghost visited0 = visited@;
        let popped = queue.pop();
        if let Some(current) = popped {
            assert(queue0.last() == current);
            assert(visited@.contains(queue0[queue0.len() - 1]@));
            proof {
                lemma_set_at(adjacency, current@);
                assert forall|v: Seq<char>| visited@.contains(v) && listed_in(queue0, v) && v != current@ implies listed_in(
                    queue@,
                    v,
                ) by {
                    let k = choose|k: int| 0 <= k < queue0.len() && (#[trigger] queue0[k])@ == v;
                    assert(queue@[k]@ == v);
                }
            }
            if let Some(set) = adjacency.get(current.as_str()) {
                let mut j: usize = 0;
                while j < set.len()
                    invariant
                        sets_wf(adjacency),
                        undirected(g),
                        g == set_map(adjacency),
                        g.contains_key(current@),
                        set.wf(),
                        set@ == g[current@],
                        j <= set.listed().len(),
                        visited.wf(),
                        visited@.contains(s),
                        visited@.contains(current@),
                        visited@.finite(),
                        visited@.len() <= adjacency.keys().len(),
                        visited@.len() - visited0.len() == queue@.len() - (queue0.len() - 1),
                        visited@.len() >= visited0.len(),
                        forall|v: Seq<char>| #[trigger] visited@.contains(v) ==> g.contains_key(v) && reaches(g, s, v),
                        forall|k: int| 0 <= k < queue@.len() ==> visited@.contains((#[trigger] queue@[k])@),
                        forall|v: Seq<char>, w: Seq<char>|
                            visited@.contains(v) && v != current@ && !listed_in(queue@, v) && #[trigger] g[v].contains(w)
                                ==> visited@.contains(w),
                        forall|k: int| 0 <= k < j ==> visited@.contains(#[trigger] set.listed()[k]),
                    decreases set.listed().len() - j,
                {
                    let n = set.get(j);
                    let ghost queue1 = queue@;
                    proof {
                        set.lemma_listed();
                        assert(set@.contains(n@));
                        assert(step(g, current@, n@));
                    }
                    if !visited.contains(n) {
                        visited.insert(n);
                        queue.push(n.to_string());
                        proof {
                            lemma_walk_extend(g, s, current@, n@);
                            assert forall|v: Seq<char>| listed_in(queue1, v) implies listed_in(queue@, v) by {
                                let k = choose|k: int| 0 <= k < queue1.len() && (#[trigger] queue1[k])@ == v;
                                assert(queue@[k]@ == v);
                            }
                            assert(queue@[queue@.len() - 1]@ == n@);
                            assert(listed_in(queue@, n@));
                            lemma_visited_bound(adjacency, visited@);
                        }
                    }
                    j += 1;
                }
                proof {
                    assert forall|w: Seq<char>| #[trigger] g[current@].contains(w) implies visited@.contains(w) by {
                        set.lemma_listed();
                        let k = choose|k: int| 0 <= k < set.listed().len() && set.listed()[k] == w;
                        assert(visited@.contains(set.listed()[k]));
                    }
                }
            }
        }
    }
    let r = visited.len() == adjacency.len();
    proof {
        assert forall|v: Seq<char>| !listed_in(queue@, v) by {}
        let keys = adjacency.keys().to_set();
        assert(visited@.subset_of(keys)) by {
            assert forall|v: Seq<char>| visited@.contains(v) implies keys.contains(v) by {
                assert(g.contains_key(v));
            }
        }
        if r {
            vstd::set_lib::lemma_subset_equality(visited@, keys);
            assert forall|a: Seq<char>, b: Seq<char>| g.contains_key(a) && g.contains_key(b) implies #[trigger] reaches(
                g,
                a,
                b,
            ) by {
                assert(keys.contains(a) && keys.contains(b));
                assert(visited@.contains(a) && visited@.contains(b));
                lemma_walk_reverse(g, s, a);
                lemma_walk_join(g, a, s, b);
            }
        } else {
            assert(exists|v: Seq<char>| keys.contains(v) && !visited@.contains(v)) by {
                if forall|v: Seq<char>| keys.contains(v) ==> visited@.contains(v) {
                    assert(visited@ =~= keys);
                }
            }
            let v = choose|v: Seq<char>| keys.contains(v) && !visited@.contains(v);
            if reaches(g, s, v) {
                let p = choose|p: Seq<Seq<char>>| #[trigger] is_walk(g, p) && p[0] == s && p[p.len() - 1] == v;
                lemma_walk_inside(g, visited@, p, p.len() - 1);
            }
            assert(g.contains_key(v));
        }
    }
    r
}

/// No more nodes are visited than there are.
proof fn lemma_visited_bound(adjacency: &NameMap<NameSet>, visited: Set<Seq<char>>)
    requires
        sets_wf(adjacency),
        forall|v: Seq<char>| #[trigger] visited.contains(v) ==> set_map(adjacency).contains_key(v),
    ensures
        visited.finite(),
        visited.len() <= adjacency.keys().len(),
        adjacency.keys().to_set().len() == adjacency.keys().len(),
        adjacency.keys().to_set().finite(),
{
    let keys = adjacency.keys().to_set();
    crate::names::lemma_ascending_distinct(adjacency.keys());
    assert(visited.subset_of(keys));
    vstd::set_lib::lemma_len_subset(visited, keys);
}

/// A forest: the parent of each node and how deep the node lies.
pub open spec fn linked(
    forest: Map<Seq<char>, (Option<Seq<char>>, nat)>,
    a: Seq<char>,
    b: Seq<char>,
) -> bool {
    &&& forest.contains_key(a)
    &&& forest.contains_key(b)
    &&& {
        ||| forest[a].0 == Some(b) && forest[a].1 == forest[b].1 + 1
        ||| forest[b].0 == Some(a) && forest[b].1 == forest[a].1 + 1
    }
}

/// All edges at `a` belong to the forest.
spec fn settled(
    g: Map<Seq<char>, Set<Seq<char>>>,
    forest: Map<Seq<char>, (Option<Seq<char>>, nat)>,
    a: Seq<char>,
) -> bool {
    forall|b: Seq<char>| #[trigger] g[a].contains(b) ==> linked(forest, a, b)
}

spec fn extends(
    before: Map<Seq<char>, (Option<Seq<char>>, nat)>,
    after: Map<Seq<char>, (Option<Seq<char>>, nat)>,
) -> bool {
    forall|n: Seq<char>| #[trigger] before.contains_key(n) ==> after.contains_key(n) && after[n] == before[n]
}

/// A place in the cycle that no other lies deeper than.
proof fn lemma_deepest(c: Seq<Seq<char>>, forest: Map<Seq<char>, (Option<Seq<char>>, nat)>) -> (m: int)
    requires
        c.len() > 0,
    ensures
        0 <= m < c.len(),
        forall|i: int| 0 <= i < c.len() ==> forest[#[trigger] c[i]].1 <= forest[c[m]].1,
    decreases c.len(),
{
    if c.len() == 1 {
        0
    } else {
        let d = c.drop_last();
        let m = lemma_deepest(d, forest);
        let last = c.len() - 1;
        assert forall|i: int| 0 <= i < last implies #[trigger] c[i] == d[i] by {}
        if forest[c[last]].1 > forest[c[m]].1 {
            assert forall|i: int| 0 <= i < c.len() implies forest[#[trigger] c[i]].1 <= forest[c[last]].1 by {
                if i < last {
                    assert(forest[d[i]].1 <= forest[d[m]].1);
                }
            }
            last
        } else {
            assert forall|i: int| 0 <= i < c.len() implies forest[#[trigger] c[i]].1 <= forest[c[m]].1 by {
                if i < last {
                    assert(forest[d[i]].1 <= forest[d[m]].1);
                }
            }
            m
        }
    }
}

/// A graph whose edges all belong to a forest has no cycle.
proof fn lemma_forest_acyclic(
    g: Map<Seq<char>, Set<Seq<char>>>,
    forest: Map<Seq<char>, (Option<Seq<char>>, nat)>,
)
    requires
        undirected(g),
        forall|a: Seq<char>| #[trigger] g.contains_key(a) ==> settled(g, forest, a),
    ensures
        !cyclic(g),
{
    if cyclic(g) {
        let c = choose|c: Seq<Seq<char>>| is_cycle(g, c);
        let m = lemma_deepest(c, forest);
        let n = c.len() as int;
        let i = if m == 0 { n - 1 } else { m - 1 };
        let j = if m == n - 1 { 0 } else { m + 1 };
        if m == 0 {
            assert(step(g, c[n - 1], c[0]));
        } else {
            assert(step_at(g, c, m - 1));
        }
        assert(step(g, c[i], c[m]));
        assert(g[c[i]].contains(c[m]));
        assert(g[c[m]].contains(c[i]));
        if m == n - 1 {
            assert(step(g, c[n - 1], c[0]));
        } else {
            assert(step_at(g, c, m));
        }
        assert(g[c[m]].contains(c[j]));
        assert(g.contains_key(c[m]));
        assert(linked(forest, c[m], c[i]));
        assert(linked(forest, c[m], c[j]));
        assert(forest[c[i]].1 <= forest[c[m]].1);
        assert(forest[c[j]].1 <= forest[c[m]].1);
        assert(c[i] == c[j]);
        assert(i != j);
    }
}

/// Is there a cycle? Depth-first search from every node not seen yet.
pub fn has_cycle(adjacency: &NameMap<NameSet>) -> (r: bool)
    requires
        sets_wf(adjacency),
        undirected(set_map(adjacency)),
    ensures
        r == cyclic(set_map(adjacency)),
{
    let ghost g = set_map(adjacency);
    let mut visited = NameSet::new();
    let mut path: Vec<String> = Vec::new();
    let ghost mut forest: Map<Seq<char>, (Option<Seq<char>>, nat)> = Map::empty();
    let mut i: usize = 0;
    assert(forest.dom() =~= visited@);
    while i < adjacency.len()
        invariant
            sets_wf(adjacency),
            undirected(g),
            g == set_map(adjacency),
            i <= adjacency.keys().len(),
            visited.wf(),
            forest.dom() == visited@,
            path@.len() == 0,
            forall|v: Seq<char>| #[trigger] visited@.contains(v) ==> g.contains_key(v) && settled(g, forest, v),
            forall|k: int| 0 <= k < i ==> visited@.contains(#[trigger] adjacency.keys()[k]),
        decreases adjacency.keys().len() - i,
    {
        let name = adjacency.key_at(i);
        proof {
            adjacency.lemma_lookup(i as int);
        }
        if !visited.contains(name) {
            let (found, Ghost(grown)) = has_cycle_dfs(adjacency, name, &mut visited, &mut path, Ghost(forest));
            if found {
                return true;
            }
            proof {
                forest = grown;
            }
        }
        i += 1;
    }
    proof {
        assert forall|a: Seq<char>| #[trigger] g.contains_key(a) implies settled(g, forest, a) by {
            let k = choose|k: int| 0 <= k < adjacency.keys().len() && adjacency.keys()[k] == a;
            assert(visited@.contains(adjacency.keys()[k]));
        }
        lemma_forest_acyclic(g, forest);
    }
    false
}

/// What a depth-first search knows when it stands at the end of `path`.
spec fn searching(
    g: Map<Seq<char>, Set<Seq<char>>>,
    visited: Set<Seq<char>>,
    path: Seq<String>,
    forest: Map<Seq<char>, (Option<Seq<char>>, nat)>,
) -> bool {
    &&& forest.dom() == visited
    &&& forall|v: Seq<char>| #[trigger] visited.contains(v) ==> g.contains_key(v)
    &&& forall|v: Seq<char>| #[trigger] visited.contains(v) && !listed_in(path, v) ==> settled(g, forest, v)
    &&& forall|k: int| 0 <= k < path.len() ==> visited.contains((#[trigger] path[k])@)
    &&& path.map_values(text()).no_duplicates()
    &&& path.len() > 0 ==> is_walk(g, path.map_values(text()))
}

/// Where the search stands relative to the end of `path`.
spec fn planted(
    forest: Map<Seq<char>, (Option<Seq<char>>, nat)>,
    path: Seq<String>,
    current: Seq<char>,
) -> bool {
    &&& forest.contains_key(current)
    &&& if path.len() > 0 {
        &&& forest[current].0 == Some(path.last()@)
        &&& forest[current].1 == forest[path.last()@].1 + 1
    } else {
        forest[current].0 is None
    }
}

/// The search meets a node of its path that is not the one it came from.
proof fn lemma_cycle_closed(g: Map<Seq<char>, Set<Seq<char>>>, path: Seq<String>, k: int)
    requires
        path.len() > 0,
        path.map_values(text()).no_duplicates(),
        is_walk(g, path.map_values(text())),
        0 <= k < path.len() - 2,
        step(g, path.last()@, path[k]@),
    ensures
        cyclic(g),
{
    let t = path.map_values(text());
    let c = t.subrange(k, t.len() as int);
    assert forall|i: int| 0 <= i < c.len() - 1 implies #[trigger] step_at(g, c, i) by {
        assert(step_at(g, t, i + k));
    }
    assert(is_walk(g, c));
    assert(is_cycle(g, c));
}

/// Stepping on: the path grows by a new node below its end.
proof fn lemma_descend(
    g: Map<Seq<char>, Set<Seq<char>>>,
    visited: Set<Seq<char>>,
    path: Seq<String>,
    forest: Map<Seq<char>, (Option<Seq<char>>, nat)>,
    current: String,
    place: (Option<Seq<char>>, nat),
)
    requires
        searching(g, visited, path, forest),
        g.contains_key(current@),
        !visited.contains(current@),
        path.len() > 0 ==> step(g, path.last()@, current@),
    ensures
        searching(g, visited.insert(current@), path.push(current), forest.insert(current@, place)),
        extends(forest, forest.insert(current@, place)),
{
    let path1 = path.push(current);
    let t = path.map_values(text());
    let t1 = path1.map_values(text());
    let forest1 = forest.insert(current@, place);
    let visited1 = visited.insert(current@);
    assert(forest1.dom() =~= visited1);
    assert(t1 =~= t.push(current@));
    assert(!t.contains(current@)) by {
        if t.contains(current@) {
            let k = choose|k: int| 0 <= k < t.len() && t[k] == current@;
            assert(visited.contains(path[k]@));
        }
    }
    assert forall|i: int| 0 <= i < t1.len() - 1 implies #[trigger] step_at(g, t1, i) by {
        if i < t.len() - 1 {
            assert(step_at(g, t, i));
        } else {
            assert(t[i] == path.last()@);
        }
    }
    assert forall|v: Seq<char>| #[trigger] visited1.contains(v) && !listed_in(path1, v) implies settled(
        g,
        forest1,
        v,
    ) by {
        assert(path1[path1.len() - 1]@ == current@);
        assert(v != current@);
        if listed_in(path, v) {
            let k = choose|k: int| 0 <= k < path.len() && (#[trigger] path[k])@ == v;
            assert(path1[k]@ == v);
        }
        lemma_settled_extends(g, forest, forest1, v);
    }
    assert forall|k: int| 0 <= k < path1.len() implies visited1.contains((#[trigger] path1[k])@) by {
        if k < path.len() {
            assert(visited.contains(path[k]@));
        }
    }
}

proof fn lemma_settled_extends(
    g: Map<Seq<char>, Set<Seq<char>>>,
    before: Map<Seq<char>, (Option<Seq<char>>, nat)>,
    after: Map<Seq<char>, (Option<Seq<char>>, nat)>,
    a: Seq<char>,
)
    requires
        extends(before, after),
        settled(g, before, a),
    ensures
        settled(g, after, a),
{
    assert forall|b: Seq<char>| #[trigger] g[a].contains(b) implies linked(after, a, b) by {
        assert(linked(before, a, b));
        assert(before.contains_key(a));
        assert(before.contains_key(b));
    }
}

/// Where in the path a name stands.
fn position(path: &Vec<String>, name: &str) -> (r: Option<usize>)
    ensures
        r is Some <==> listed_in(path@, name@),
        r is Some ==> r->0 < path@.len() && path@[r->0 as int]@ == name@,
{
    let mut k: usize = 0;
    while k < path.len()
        invariant
            k <= path@.len(),
            forall|i: int| 0 <= i < k ==> (#[trigger] path@[i])@ != name@,
        decreases path@.len() - k,
    {
        if same_name(path[k].as_str(), name) {
            assert(path@[k as int]@ == name@);
            return Some(k);
        }
        k += 1;
    }
    None
}

/// Depth-first search from `current`, which the end of `path` led to. The
/// path is the recursion stack. Returns whether a cycle was found and, if
/// not, the forest of the nodes visited so far.
#[verifier::spinoff_prover]
#[verifier::rlimit(40)]
fn has_cycle_dfs(
    adjacency: &NameMap<NameSet>,
    current: &str,
    visited: &mut NameSet,
    path: &mut Vec<String>,
    Ghost(forest0): Ghost<Map<Seq<char>, (Option<Seq<char>>, nat)>>,
) -> (r: (bool, Ghost<Map<Seq<char>, (Option<Seq<char>>, nat)>>))
    requires
        sets_wf(adjacency),
        undirected(set_map(adjacency)),
        set_map(adjacency).contains_key(current@),
        old(visited).wf(),
        !old(visited)@.contains(current@),
        searching(set_map(adjacency), old(visited)@, old(path)@, forest0),
        old(path)@.len() > 0 ==> step(set_map(adjacency), old(path)@.last()@, current@),
    ensures
        r.0 ==> cyclic(set_map(adjacency)),
        !r.0 ==> {
            &&& final(visited).wf()
            &&& final(path)@ == old(path)@
            &&& old(visited)@.subset_of(final(visited)@)
            &&& final(visited)@.contains(current@)
            &&& searching(set_map(adjacency), final(visited)@, final(path)@, r.1@)
            &&& extends(forest0, r.1@)
            &&& planted(r.1@, old(path)@, current@)
        },
    decreases adjacency.keys().len() - old(visited)@.len(),
{
    let ghost g = set_map(adjacency);
    let ghost path0 = path@;
    let ghost visited0 = visited@;
    let came: usize = path.len();
    let name = current.to_string();
    let ghost place: (Option<Seq<char>>, nat) = if path0.len() > 0 {
        (Some(path0.last()@), forest0[path0.last()@].1 + 1)
    } else {
        (None, 0)
    };
    let ghost mut forest = forest0.insert(current@, place);
    proof {
        lemma_descend(g, visited0, path0, forest0, name, place);
        visited.lemma_listed();
        if path0.len() > 0 {
            assert(visited0.contains(path0[path0.len() - 1]@));
        }
    }
    visited.insert(current);
    path.push(name);
    let ghost path1 = path@;
    let ghost visited1 = visited@;
    proof {
        lemma_visited_bound(adjacency, visited1);
        lemma_set_at(adjacency, current@);
        assert(path1.last()@ == current@);
        assert(path1.drop_last() =~= path0);
    }
    if let Some(set) = adjacency.get(current) {
        let mut j: usize = 0;
        while j < set.len()
            invariant
                sets_wf(adjacency),
                undirected(g),
                g == set_map(adjacency),
                g.contains_key(current@),
                set.wf(),
                set@ == g[current@],
                j <= set.listed().len(),
                visited.wf(),
                path@ == path1,
                path1.len() == came + 1,
                path1 == path0.push(path1.last()),
                path1.last()@ == current@,
                visited0 == old(visited)@,
                visited1 == visited0.insert(current@),
                visited1.subset_of(visited@),
                visited0.finite(),
                !visited0.contains(current@),
                visited1.len() <= adjacency.keys().len(),
                searching(g, visited@, path1, forest),
                extends(forest0, forest),
                planted(forest, path0, current@),
                forall|k: int| 0 <= k < j ==> linked(forest, current@, #[trigger] set.listed()[k]),
            decreases set.listed().len() - j,
        {
            let n = set.get(j);
            proof {
                set.lemma_listed();
                assert(set@.contains(n@));
                assert(g[current@].contains(n@));
            }
            let from_parent = came > 0 && same_name(path[came - 1].as_str(), n);
            if from_parent {
                assert(path1[came - 1] == path0.last());
                assert(linked(forest, current@, n@)) by {
                    assert(visited@.contains(path1[came - 1]@));
                }
            } else {
                let at = position(path, n);
                if let Some(k) = at {
                    proof {
                        if k == path1.len() - 1 {
                            assert(n@ == current@);
                        }
                        if k == path1.len() - 2 {
                            assert(path1[came - 1]@ == n@);
                        }
                        lemma_cycle_closed(g, path1, k as int);
                    }
                    return (true, Ghost(forest));
                }
                if visited.contains(n) {
                    assert(settled(g, forest, n@));
                    assert(g[n@].contains(current@));
                    assert(linked(forest, n@, current@));
                } else {
                    let ghost before = forest;
                    let ghost visited2 = visited@;
                    proof {
                        visited.lemma_listed();
                        vstd::set_lib::lemma_len_subset(visited1, visited2);
                        lemma_visited_bound(adjacency, visited2);
                        assert(visited1.len() == visited0.len() + 1);
                        assert(visited2.len() < visited2.insert(n@).len());
                        lemma_visited_bound(adjacency, visited2.insert(n@));
                    }
                    let (found, Ghost(grown)) = has_cycle_dfs(adjacency, n, visited, path, Ghost(forest));
                    if found {
                        return (true, Ghost(forest));
                    }
                    proof {
                        forest = grown;
                        assert forall|k: int| 0 <= k < j implies linked(
                            forest,
                            current@,
                            #[trigger] set.listed()[k],
                        ) by {
                            assert(linked(before, current@, set.listed()[k]));
                            assert(before.contains_key(current@));
                            assert(before.contains_key(set.listed()[k]));
                        }
                        assert(before.contains_key(current@));
                        if path0.len() > 0 {
                            assert(visited2.contains(path1[came - 1]@));
                            assert(before.contains_key(path0.last()@));
                        }
                        assert(extends(forest0, forest)) by {
                            assert forall|m: Seq<char>| #[trigger] forest0.contains_key(m) implies forest.contains_key(
                                m,
                            ) && forest[m] == forest0[m] by {
                                assert(before.contains_key(m));
                            }
                        }
                    }
                }
            }
            j += 1;
        }
        proof {
            assert(settled(g, forest, current@)) by {
                assert forall|b: Seq<char>| #[trigger] g[current@].contains(b) implies linked(
                    forest,
                    current@,
                    b,
                ) by {
                    set.lemma_listed();
                    let k = choose|k: int| 0 <= k < set.listed().len() && set.listed()[k] == b;
                    assert(linked(forest, current@, set.listed()[k]));
                }
            }
        }
    }
    path.pop();
    proof {
        assert(path@ =~= path0);
        lemma_ascend(g, visited@, path0, path1, forest);
    }
    (false, Ghost(forest))
}

/// Stepping back: the last node of the path is settled.
proof fn lemma_ascend(
    g: Map<Seq<char>, Set<Seq<char>>>,
    visited: Set<Seq<char>>,
    path0: Seq<String>,
    path1: Seq<String>,
    forest: Map<Seq<char>, (Option<Seq<char>>, nat)>,
)
    requires
        path1.len() > 0,
        path0 == path1.drop_last(),
        searching(g, visited, path1, forest),
        settled(g, forest, path1.last()@),
    ensures
        searching(g, visited, path0, forest),
{
    let t0 = path0.map_values(text());
    let t1 = path1.map_values(text());
    assert(t0 =~= t1.drop_last());
    assert forall|i: int| 0 <= i < t0.len() - 1 implies #[trigger] step_at(g, t0, i) by {
        assert(step_at(g, t1, i));
    }
    assert forall|v: Seq<char>| #[trigger] visited.contains(v) && !listed_in(path0, v) implies settled(
        g,
        forest,
        v,
    ) by {
        if listed_in(path1, v) {
            let k = choose|k: int| 0 <= k < path1.len() && (#[trigger] path1[k])@ == v;
            if k < path0.len() {
                assert(path0[k]@ == v);
            }
        }
    }
    assert forall|k: int| 0 <= k < path0.len() implies visited.contains((#[trigger] path0[k])@) by {
        assert(path0[k] == path1[k]);
    }
}

} // verus!
