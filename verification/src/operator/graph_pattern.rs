//! A graph of timed edges, and paths in it.
use vstd::prelude::*;

use crate::model::Statement;
use crate::listing::{concat, lemma_concat_contains, lemma_concat_take};
use crate::names::{same_name, text};
use crate::operator::hypergraph::{lemma_finite_listing, listing};
use crate::operator::link_index::{ends, ways, LinkIndex};

verus! {

/// An edge and its time.
#[derive(Clone, Debug)]
pub struct EdgeInfo {
    pub subject: String,
    pub predicate: String,
    pub object: String,
    pub timestamp: i64,
}

/// An edge as texts.
pub struct Edge {
    pub subject: Seq<char>,
    pub predicate: Seq<char>,
    pub object: Seq<char>,
    pub timestamp: i64,
}

impl View for EdgeInfo {
    type V = Edge;

    open spec fn view(&self) -> Edge {
        Edge { subject: self.subject@, predicate: self.predicate@, object: self.object@, timestamp: self.timestamp }
    }
}

pub open spec fn edge_view() -> spec_fn(EdgeInfo) -> Edge {
    |e: EdgeInfo| e@
}

/// Is an edge not older than the cutoff?
pub open spec fn edge_since(cutoff: i64) -> spec_fn(Edge) -> bool {
    |e: Edge| e.timestamp >= cutoff
}

/// There is an edge with these ends and this predicate.
pub open spec fn has_link(edges: Seq<Edge>, from: Seq<char>, p: Seq<char>, to: Seq<char>) -> bool {
    exists|i: int|
        0 <= i < edges.len() && (#[trigger] edges[i]).subject == from && edges[i].predicate == p && edges[i].object
            == to
}

/// The links `(subject, predicate, object)` of the edges.
pub open spec fn forward(edges: Seq<Edge>) -> Set<(Seq<char>, Seq<char>, Seq<char>)> {
    Set::new(|t: (Seq<char>, Seq<char>, Seq<char>)| has_link(edges, t.0, t.1, t.2))
}

/// The links `(object, predicate, subject)` of the edges.
pub open spec fn backward(edges: Seq<Edge>) -> Set<(Seq<char>, Seq<char>, Seq<char>)> {
    Set::new(|t: (Seq<char>, Seq<char>, Seq<char>)| has_link(edges, t.2, t.1, t.0))
}

/// What a predicate leads to from a node, in order.
pub open spec fn ends_by(edges: Seq<Edge>, from: Seq<char>) -> spec_fn(Seq<char>) -> Seq<Seq<char>> {
    |p: Seq<char>| listing(ends(forward(edges), from, p))
}

/// Where edges lead to from a node: by a predicate where one is given, else by
/// each in turn.
pub open spec fn successors(edges: Seq<Edge>, from: Seq<char>, by: Option<Seq<char>>) -> Seq<Seq<char>> {
    match by {
        Some(p) => ends_by(edges, from)(p),
        None => concat(listing(ways(forward(edges), from)), ends_by(edges, from)),
    }
}

/// An edge leads from one node to the other, by the predicate where one is
/// given.
pub open spec fn linked(edges: Seq<Edge>, from: Seq<char>, by: Option<Seq<char>>, to: Seq<char>) -> bool {
    exists|p: Seq<char>| #[trigger] has_link(edges, from, p, to) && (by matches Some(q) ==> p == q)
}

proof fn lemma_link_pushed(edges: Seq<Edge>, e: Edge, s: Seq<char>, p: Seq<char>, o: Seq<char>)
    ensures
        has_link(edges.push(e), s, p, o) <==> has_link(edges, s, p, o) || (e.subject == s && e.predicate == p
            && e.object == o),
{
    let all = edges.push(e);
    if has_link(edges, s, p, o) {
        let i = choose|i: int|
            0 <= i < edges.len() && (#[trigger] edges[i]).subject == s && edges[i].predicate == p && edges[i].object == o;
        assert(all[i] == edges[i]);
    }
    if has_link(all, s, p, o) {
        let i = choose|i: int|
            0 <= i < all.len() && (#[trigger] all[i]).subject == s && all[i].predicate == p && all[i].object == o;
        if i < edges.len() {
            assert(edges[i] == all[i]);
        }
    }
    assert(all[edges.len() as int] == e);
}

/// A graph of timed edges, with an index by their subjects and one by their
/// objects.
pub struct GraphPatternJoinState {
    subject_index: LinkIndex,
    object_index: LinkIndex,
    edges: Vec<EdgeInfo>,
}

/// Is there an edge with the ends and the predicate of another?
fn has_same_link(edges: &Vec<EdgeInfo>, e: &EdgeInfo) -> (r: bool)
    ensures
        r == has_link(edges@.map_values(edge_view()), e.subject@, e.predicate@, e.object@),
{
    let ghost g = edges@.map_values(edge_view());
    let mut i: usize = 0;
    while i < edges.len()
        invariant
            g == edges@.map_values(edge_view()),
            i <= edges@.len(),
            forall|j: int|
                0 <= j < i ==> !((#[trigger] g[j]).subject == e.subject@ && g[j].predicate == e.predicate@
                    && g[j].object == e.object@),
        decreases edges@.len() - i,
    {
        let other = &edges[i];
        assert(g[i as int] == other@);
        if same_name(other.subject.as_str(), e.subject.as_str()) && same_name(
            other.predicate.as_str(),
            e.predicate.as_str(),
        ) && same_name(other.object.as_str(), e.object.as_str()) {
            return true;
        }
        i += 1;
    }
    false
}

impl GraphPatternJoinState {
    /// The edges in the order in which they came.
    pub closed spec fn graph(&self) -> Seq<Edge> {
        self.edges@.map_values(edge_view())
    }

    /// The indexes hold the links of the edges.
    pub closed spec fn wf(&self) -> bool {
        &&& self.subject_index.wf()
        &&& self.object_index.wf()
        &&& self.subject_index@ == forward(self.graph())
        &&& self.object_index@ == backward(self.graph())
    }

    pub fn new() -> (r: Self)
        ensures
            r.wf(),
            r.graph() == Seq::<Edge>::empty(),
    {
        let r = GraphPatternJoinState {
            subject_index: LinkIndex::new(),
            object_index: LinkIndex::new(),
            edges: Vec::new(),
        };
        proof {
            assert(r.graph() =~= Seq::<Edge>::empty());
            assert(r.subject_index@ =~= forward(r.graph()));
            assert(r.object_index@ =~= backward(r.graph()));
        }
        r
    }

    /// The edges that are held, in the order in which they came.
    pub fn edges(&self) -> (r: &Vec<EdgeInfo>)
        ensures
            r@.map_values(edge_view()) == self.graph(),
    {
        &self.edges
    }

    /// Adds a statement as an edge.
    pub fn add_statement(&mut self, stmt: &Statement, timestamp: i64)
        requires
            old(self).wf(),
        ensures
            final(self).wf(),
            final(self).graph() == old(self).graph().push(
                Edge {
                    subject: stmt.subject.rendered(),
                    predicate: stmt.predicate.rendered(),
                    object: stmt.object.rendered(),
                    timestamp,
                },
            ),
    {
        let subject = stmt.subject.to_text();
        let predicate = stmt.predicate.to_text();
        let object = stmt.object.to_text();
        self.subject_index.add(subject.as_str(), predicate.as_str(), object.as_str());
        self.object_index.add(object.as_str(), predicate.as_str(), subject.as_str());
        let edge = EdgeInfo { subject, predicate, object, timestamp };
        let ghost e = edge@;
        let ghost before = self.graph();
        self.edges.push(edge);
        proof {
            assert(self.graph() =~= before.push(e));
            assert forall|t: (Seq<char>, Seq<char>, Seq<char>)| self.subject_index@.contains(t) == forward(
                self.graph(),
            ).contains(t) by {
                lemma_link_pushed(before, e, t.0, t.1, t.2);
            }
            assert(self.subject_index@ =~= forward(self.graph()));
            assert forall|t: (Seq<char>, Seq<char>, Seq<char>)| self.object_index@.contains(t) == backward(
                self.graph(),
            ).contains(t) by {
                lemma_link_pushed(before, e, t.2, t.1, t.0);
            }
            assert(self.object_index@ =~= backward(self.graph()));
        }
    }

    /// Is there an edge from the subject by the predicate?
    pub fn has_edge(&self, subject: &str, predicate: &str) -> (r: bool)
        requires
            self.wf(),
        ensures
            r == ways(forward(self.graph()), subject@).contains(predicate@),
    {
        self.subject_index.has(subject, predicate)
    }

    /// The objects of the edges from the subject by the predicate, each once
    /// and in order.
    pub fn get_objects(&self, subject: &str, predicate: &str) -> (r: Vec<&str>)
        requires
            self.wf(),
        ensures
            r@.map_values(|s: &str| s@) == listing(ends(forward(self.graph()), subject@, predicate@)),
    {
        self.subject_index.others(subject, predicate)
    }

    /// The subjects of the edges to the object by the predicate, each once and
    /// in order.
    pub fn get_subjects(&self, object: &str, predicate: &str) -> (r: Vec<&str>)
        requires
            self.wf(),
        ensures
            r@.map_values(|s: &str| s@) == listing(ends(backward(self.graph()), object@, predicate@)),
    {
        self.object_index.others(object, predicate)
    }

    /// Drops the edges that are older than the cutoff. A link that a later edge
    /// has too stays in the indexes.
    pub fn evict_before(&mut self, cutoff: i64)
        requires
            old(self).wf(),
        ensures
            final(self).wf(),
            final(self).graph() == old(self).graph().filter(edge_since(cutoff)),
    {
        let ghost g = self.graph();
        let mut all: Vec<EdgeInfo> = Vec::new();
        std::mem::swap(&mut all, &mut self.edges);
        let ghost given = all@;
        let mut kept: Vec<EdgeInfo> = Vec::new();
        let mut expired: Vec<EdgeInfo> = Vec::new();
        let ghost mut k: int = 0;
        reveal(Seq::filter);
        assert(kept@.map_values(edge_view()) =~= g.take(0).filter(edge_since(cutoff)));
        assert(g.take(0) =~= Seq::<Edge>::empty());
        for e in iter: all
            invariant
                iter.seq() == given,
                iter.index() == k,
                g == given.map_values(edge_view()),
                0 <= k <= given.len(),
                kept@.map_values(edge_view()) == g.take(k).filter(edge_since(cutoff)),
                forall|s: Seq<char>, p: Seq<char>, o: Seq<char>| #[trigger]
                    has_link(g.take(k), s, p, o) <==> has_link(kept@.map_values(edge_view()), s, p, o) || has_link(
                        expired@.map_values(edge_view()),
                        s,
                        p,
                        o,
                    ),
        {
            reveal(Seq::filter);
            let ghost kept0 = kept@.map_values(edge_view());
            let ghost expired0 = expired@.map_values(edge_view());
            let ghost x = e@;
            proof {
                assert(g[k] == x);
                assert(g.take(k + 1).drop_last() =~= g.take(k));
                assert(g.take(k + 1) =~= g.take(k).push(x));
            }
            if e.timestamp >= cutoff {
                kept.push(e);
                assert(kept@.map_values(edge_view()) =~= kept0.push(x));
            } else {
                expired.push(e);
                assert(expired@.map_values(edge_view()) =~= expired0.push(x));
            }
            proof {
                assert forall|s: Seq<char>, p: Seq<char>, o: Seq<char>| #[trigger]
                    has_link(g.take(k + 1), s, p, o) <==> has_link(kept@.map_values(edge_view()), s, p, o) || has_link(
                        expired@.map_values(edge_view()),
                        s,
                        p,
                        o,
                    ) by {
                    assert(has_link(g.take(k), s, p, o) <==> has_link(kept0, s, p, o) || has_link(expired0, s, p, o));
                    lemma_link_pushed(g.take(k), x, s, p, o);
                    lemma_link_pushed(kept0, x, s, p, o);
                    lemma_link_pushed(expired0, x, s, p, o);
                }
                k = k + 1;
            }
        }
        assert(g.take(k) =~= g);
        let ghost gone = expired@.map_values(edge_view());
        let ghost rest = kept@.map_values(edge_view());
        let mut i: usize = 0;
        while i < expired.len()
            invariant
                i <= expired@.len(),
                gone == expired@.map_values(edge_view()),
                rest == kept@.map_values(edge_view()),
                self.subject_index.wf(),
                self.object_index.wf(),
                forall|s: Seq<char>, p: Seq<char>, o: Seq<char>| #[trigger]
                    has_link(g, s, p, o) <==> has_link(rest, s, p, o) || has_link(gone, s, p, o),
                forall|t: (Seq<char>, Seq<char>, Seq<char>)| #[trigger]
                    self.subject_index@.contains(t) <==> has_link(g, t.0, t.1, t.2) && (has_link(rest, t.0, t.1, t.2)
                        || !has_link(gone.take(i as int), t.0, t.1, t.2)),
                forall|t: (Seq<char>, Seq<char>, Seq<char>)| #[trigger]
                    self.object_index@.contains(t) <==> has_link(g, t.2, t.1, t.0) && (has_link(rest, t.2, t.1, t.0)
                        || !has_link(gone.take(i as int), t.2, t.1, t.0)),
            decreases expired@.len() - i,
        {
            let e = &expired[i];
            let ghost x = e@;
            let ghost forward0 = self.subject_index@;
            let ghost backward0 = self.object_index@;
            proof {
                assert(gone[i as int] == x);
                assert(gone.take(i + 1) =~= gone.take(i as int).push(x));
            }
            if !has_same_link(&kept, e) {
                self.subject_index.remove(e.subject.as_str(), e.predicate.as_str(), e.object.as_str());
                self.object_index.remove(e.object.as_str(), e.predicate.as_str(), e.subject.as_str());
            }
            proof {
                assert forall|t: (Seq<char>, Seq<char>, Seq<char>)| #[trigger]
                    self.subject_index@.contains(t) <==> has_link(g, t.0, t.1, t.2) && (has_link(rest, t.0, t.1, t.2)
                        || !has_link(gone.take(i + 1), t.0, t.1, t.2)) by {
                    lemma_link_pushed(gone.take(i as int), x, t.0, t.1, t.2);
                    assert(forward0.contains(t) == forward0.contains((t.0, t.1, t.2)));
                }
                assert forall|t: (Seq<char>, Seq<char>, Seq<char>)| #[trigger]
                    self.object_index@.contains(t) <==> has_link(g, t.2, t.1, t.0) && (has_link(rest, t.2, t.1, t.0)
                        || !has_link(gone.take(i + 1), t.2, t.1, t.0)) by {
                    lemma_link_pushed(gone.take(i as int), x, t.2, t.1, t.0);
                    assert(backward0.contains(t) == backward0.contains((t.0, t.1, t.2)));
                }
            }
            i += 1;
        }
        self.edges = kept;
        proof {
            assert(gone.take(i as int) =~= gone);
            assert forall|t: (Seq<char>, Seq<char>, Seq<char>)| self.subject_index@.contains(t) == forward(rest).contains(
                t,
            ) by {
                assert(has_link(g, t.0, t.1, t.2) <==> has_link(rest, t.0, t.1, t.2) || has_link(gone, t.0, t.1, t.2));
            }
            assert(self.subject_index@ =~= forward(rest));
            assert forall|t: (Seq<char>, Seq<char>, Seq<char>)| self.object_index@.contains(t) == backward(rest).contains(
                t,
            ) by {
                assert(has_link(g, t.2, t.1, t.0) <==> has_link(rest, t.2, t.1, t.0) || has_link(gone, t.2, t.1, t.0));
            }
            assert(self.object_index@ =~= backward(rest));
        }
    }

    /// The nodes that edges lead to from a node, once for each predicate.
    fn neighbors(&self, from: &str, by: &Option<String>) -> (r: Vec<String>)
        requires
            self.wf(),
        ensures
            r@.map_values(text()) == successors(self.graph(), from@, by_text(*by)),
    {
        match by {
            Some(p) => {
                let mut r: Vec<String> = Vec::new();
                let found = self.get_objects(from, p.as_str());
                append_owned(&mut r, &found);
                assert(r@.map_values(text()) =~= found@.map_values(|s: &str| s@));
                r
            },
            None => {
                let ghost f = ends_by(self.graph(), from@);
                let predicates = self.subject_index.predicates(from);
                let ghost all = predicates@.map_values(|s: &str| s@);
                let mut r: Vec<String> = Vec::new();
                let mut i: usize = 0;
                assert(r@.map_values(text()) =~= concat(all.take(0), f));
                while i < predicates.len()
                    invariant
                        self.wf(),
                        f == ends_by(self.graph(), from@),
                        all == predicates@.map_values(|s: &str| s@),
                        i <= predicates@.len(),
                        r@.map_values(text()) == concat(all.take(i as int), f),
                    decreases predicates@.len() - i,
                {
                    let found = self.get_objects(from, predicates[i]);
                    assert(all[i as int] == predicates@[i as int]@);
                    append_owned(&mut r, &found);
                    proof {
                        lemma_concat_take(all, i as int, f);
                    }
                    i += 1;
                }
                assert(all.take(i as int) =~= all);
                r
            },
        }
    }
}

/// Puts copies of texts at the end of a listing.
fn append_owned(head: &mut Vec<String>, tail: &Vec<&str>)
    ensures
        final(head)@.map_values(text()) == old(head)@.map_values(text()) + tail@.map_values(|s: &str| s@),
{
    let ghost start = head@.map_values(text());
    let ghost all = tail@.map_values(|s: &str| s@);
    let mut i: usize = 0;
    assert(start + all.take(0) =~= start);
    while i < tail.len()
        invariant
            all == tail@.map_values(|s: &str| s@),
            i <= tail@.len(),
            head@.map_values(text()) == start + all.take(i as int),
        decreases tail@.len() - i,
    {
        let ghost before = head@;
        head.push(tail[i].to_string());
        proof {
            assert(all[i as int] == tail@[i as int]@);
            assert(head@.map_values(text()) =~= before.map_values(text()).push(all[i as int]));
            assert((start + all.take(i as int)).push(all[i as int]) =~= start + all.take(i + 1));
        }
        i += 1;
    }
    assert(all.take(i as int) =~= all);
}

proof fn lemma_ends_finite(edges: Seq<Edge>, from: Seq<char>, p: Seq<char>)
    ensures
        ends(forward(edges), from, p).finite(),
        ways(forward(edges), from).finite(),
{
    let objects = edges.map_values(|e: Edge| e.object).to_set();
    let predicates = edges.map_values(|e: Edge| e.predicate).to_set();
    vstd::seq_lib::seq_to_set_is_finite(edges.map_values(|e: Edge| e.object));
    vstd::seq_lib::seq_to_set_is_finite(edges.map_values(|e: Edge| e.predicate));
    assert forall|o: Seq<char>| ends(forward(edges), from, p).contains(o) implies objects.contains(o) by {
        assert(has_link(edges, from, p, o));
        let i = choose|i: int|
            0 <= i < edges.len() && (#[trigger] edges[i]).subject == from && edges[i].predicate == p && edges[i].object
                == o;
        assert(edges.map_values(|e: Edge| e.object)[i] == o);
    }
    assert forall|q: Seq<char>| ways(forward(edges), from).contains(q) implies predicates.contains(q) by {
        let o = choose|o: Seq<char>| #[trigger] forward(edges).contains((from, q, o));
        assert(has_link(edges, from, q, o));
        let i = choose|i: int|
            0 <= i < edges.len() && (#[trigger] edges[i]).subject == from && edges[i].predicate == q && edges[i].object
                == o;
        assert(edges.map_values(|e: Edge| e.predicate)[i] == q);
    }
    vstd::set_lib::lemma_set_subset_finite(objects, ends(forward(edges), from, p));
    vstd::set_lib::lemma_set_subset_finite(predicates, ways(forward(edges), from));
}

proof fn lemma_end_listed(edges: Seq<Edge>, from: Seq<char>, p: Seq<char>, to: Seq<char>)
    ensures
        ends_by(edges, from)(p).contains(to) <==> has_link(edges, from, p, to),
{
    let s = ends(forward(edges), from, p);
    lemma_ends_finite(edges, from, p);
    lemma_finite_listing(s);
    assert(listing(s).to_set().contains(to) == s.contains(to));
    assert(forward(edges).contains((from, p, to)) == has_link(edges, from, p, to));
}

/// The successors of a node are the ends of its edges.
pub proof fn law_successors_are_linked(edges: Seq<Edge>, from: Seq<char>, by: Option<Seq<char>>, to: Seq<char>)
    ensures
        successors(edges, from, by).contains(to) <==> linked(edges, from, by, to),
{
    let f = ends_by(edges, from);
    match by {
        Some(p) => {
            lemma_end_listed(edges, from, p, to);
        },
        None => {
            let w = ways(forward(edges), from);
            let l = listing(w);
            lemma_ends_finite(edges, from, to);
            lemma_finite_listing(w);
            lemma_concat_contains(l, f, to);
            if linked(edges, from, by, to) {
                let p = choose|p: Seq<char>| #[trigger] has_link(edges, from, p, to);
                assert(forward(edges).contains((from, p, to)));
                assert(w.contains(p));
                assert(l.to_set().contains(p));
                let i = choose|i: int| 0 <= i < l.len() && l[i] == p;
                lemma_end_listed(edges, from, p, to);
                assert(f(l[i]).contains(to));
            }
            if concat(l, f).contains(to) {
                let i = choose|i: int| 0 <= i < l.len() && f(#[trigger] l[i]).contains(to);
                lemma_end_listed(edges, from, l[i], to);
            }
        },
    }
}

/// What the lookups list is what the edges say: an object is found from a
/// subject by a predicate, and the subject from the object, exactly when there
/// is such an edge.
pub proof fn law_lookups_mirror_the_edges(edges: Seq<Edge>, s: Seq<char>, p: Seq<char>, o: Seq<char>)
    ensures
        ends(forward(edges), s, p).contains(o) <==> has_link(edges, s, p, o),
        ends(backward(edges), o, p).contains(s) <==> has_link(edges, s, p, o),
        ways(forward(edges), s).contains(p) <==> exists|x: Seq<char>| #[trigger] has_link(edges, s, p, x),
{
    if ways(forward(edges), s).contains(p) {
        let x = choose|x: Seq<char>| #[trigger] forward(edges).contains((s, p, x));
        assert(has_link(edges, s, p, x));
    }
    if exists|x: Seq<char>| #[trigger] has_link(edges, s, p, x) {
        let x = choose|x: Seq<char>| #[trigger] has_link(edges, s, p, x);
        assert(forward(edges).contains((s, p, x)));
    }
}

pub open spec fn by_text(by: Option<String>) -> Option<Seq<char>> {
    match by {
        Some(p) => Some(p@),
        None => None,
    }
}

impl Default for GraphPatternJoinState {
    fn default() -> (r: Self)
        ensures
            r.wf(),
            r.graph() == Seq::<Edge>::empty(),
    {
        Self::new()
    }
}

/// What the search for paths is bounded by.
pub struct PathBounds {
    pub min_hops: nat,
    pub max_hops: nat,
    pub by: Option<Seq<char>>,
    pub shortest_only: bool,
}

/// The paths that extend a path, the path itself first, where it is long
/// enough.
pub open spec fn extensions(edges: Seq<Edge>, bounds: PathBounds, path: Seq<Seq<char>>) -> Seq<Seq<Seq<char>>>
    decreases bounds.max_hops + 1 - path.len(), 0nat, 0nat,
{
    let hops = path.len() - 1;
    let here = if hops >= bounds.min_hops {
        seq![path]
    } else {
        Seq::empty()
    };
    if hops >= bounds.max_hops || hops >= bounds.min_hops && bounds.shortest_only {
        here
    } else {
        let next = successors(edges, path.last(), bounds.by);
        here + extensions_by(edges, bounds, path, next)
    }
}

/// The paths that extend a path by one of some nodes that are not on it.
pub open spec fn extensions_by(
    edges: Seq<Edge>,
    bounds: PathBounds,
    path: Seq<Seq<char>>,
    next: Seq<Seq<char>>,
) -> Seq<Seq<Seq<char>>>
    decreases bounds.max_hops + 1 - path.len() - 1, 1nat, next.len(),
{
    if next.len() == 0 || path.len() - 1 >= bounds.max_hops {
        Seq::empty()
    } else {
        let before = extensions_by(edges, bounds, path, next.drop_last());
        if path.contains(next.last()) {
            before
        } else {
            before + extensions(edges, bounds, path.push(next.last()))
        }
    }
}

/// Finds paths of a bounded length.
pub struct VariableLengthPathOperator {
    pub min_hops: usize,
    pub max_hops: usize,
    pub relationship_type: Option<String>,
    pub shortest_path_only: bool,
}

pub open spec fn path_view() -> spec_fn(Vec<String>) -> Seq<Seq<char>> {
    |p: Vec<String>| p@.map_values(text())
}

impl VariableLengthPathOperator {
    pub open spec fn bounds(&self) -> PathBounds {
        PathBounds {
            min_hops: self.min_hops as nat,
            max_hops: self.max_hops as nat,
            by: by_text(self.relationship_type),
            shortest_only: self.shortest_path_only,
        }
    }

    pub fn new(min_hops: usize, max_hops: usize) -> (r: Self)
        ensures
            r == (VariableLengthPathOperator {
                min_hops,
                max_hops,
                relationship_type: None,
                shortest_path_only: false,
            }),
    {
        VariableLengthPathOperator { min_hops, max_hops, relationship_type: None, shortest_path_only: false }
    }

    /// Only edges by this predicate count.
    pub fn with_relationship_type(self, rel_type: &str) -> (r: Self)
        ensures
            r.bounds() == (PathBounds { by: Some(rel_type@), ..self.bounds() }),
    {
        VariableLengthPathOperator {
            min_hops: self.min_hops,
            max_hops: self.max_hops,
            relationship_type: Some(rel_type.to_string()),
            shortest_path_only: self.shortest_path_only,
        }
    }

    /// A path that is long enough is not extended.
    pub fn with_shortest_path_only(self, shortest: bool) -> (r: Self)
        ensures
            r == (VariableLengthPathOperator { shortest_path_only: shortest, ..self }),
    {
        VariableLengthPathOperator {
            min_hops: self.min_hops,
            max_hops: self.max_hops,
            relationship_type: self.relationship_type,
            shortest_path_only: shortest,
        }
    }

    /// The paths from a node.
    pub fn find_paths(&self, start: &str, graph: &GraphPatternJoinState) -> (r: Vec<Vec<String>>)
        requires
            graph.wf(),
        ensures
            r@.map_values(path_view()) == extensions(graph.graph(), self.bounds(), seq![start@]),
    {
        let mut results: Vec<Vec<String>> = Vec::new();
        let mut path: Vec<String> = Vec::new();
        path.push(start.to_string());
        assert(path@.map_values(text()) =~= seq![start@]);
        self.dfs(graph, &mut path, &mut results);
        assert(results@.map_values(path_view()) =~= extensions(graph.graph(), self.bounds(), seq![start@]));
        results
    }

    fn dfs(&self, graph: &GraphPatternJoinState, path: &mut Vec<String>, results: &mut Vec<Vec<String>>)
        requires
            graph.wf(),
            old(path)@.len() > 0,
            old(path)@.len() <= self.max_hops + 1,
        ensures
            final(path)@.map_values(text()) == old(path)@.map_values(text()),
            final(results)@.map_values(path_view()) == old(results)@.map_values(path_view()) + extensions(
                graph.graph(),
                self.bounds(),
                old(path)@.map_values(text()),
            ),
        decreases self.max_hops + 1 - old(path)@.len(),
    {
        let ghost edges = graph.graph();
        let ghost bounds = self.bounds();
        let ghost nodes = path@.map_values(text());
        let ghost found = results@.map_values(path_view());
        let depth: usize = path.len() - 1;
        let ghost here = if depth >= self.min_hops {
            seq![nodes]
        } else {
            Seq::empty()
        };
        if depth >= self.min_hops {
            let copy = copy_path(path);
            results.push(copy);
            assert(results@.map_values(path_view()) =~= found + here);
            if self.shortest_path_only {
                return;
            }
        }
        assert(results@.map_values(path_view()) =~= found + here);
        if depth >= self.max_hops {
            return;
        }
        assert(nodes.last() == path@[depth as int]@);
        let neighbors = graph.neighbors(path[depth].as_str(), &self.relationship_type);
        let ghost next = neighbors@.map_values(text());
        let mut i: usize = 0;
        assert(found + here + extensions_by(edges, bounds, nodes, next.take(0)) =~= found + here);
        while i < neighbors.len()
            invariant
                graph.wf(),
                edges == graph.graph(),
                bounds == self.bounds(),
                next == neighbors@.map_values(text()),
                i <= neighbors@.len(),
                nodes.len() == depth + 1,
                depth < self.max_hops,
                path@.map_values(text()) == nodes,
                nodes.len() == old(path)@.len(),
                results@.map_values(path_view()) == found + here + extensions_by(
                    edges,
                    bounds,
                    nodes,
                    next.take(i as int),
                ),
            decreases neighbors@.len() - i,
        {
            let node = &neighbors[i];
            proof {
                assert(next[i as int] == node@);
                assert(next.take(i + 1).drop_last() =~= next.take(i as int));
                assert(path@.len() == nodes.len());
            }
            if !contains_node(path, node.as_str()) {
                let ghost longer = nodes.push(node@);
                path.push(node.clone());
                assert(path@.map_values(text()) =~= longer);
                self.dfs(graph, path, results);
                let ghost deep = path@;
                assert(deep.map_values(text()) == longer);
                assert(deep.len() == longer.len());
                path.pop();
                assert(path@.map_values(text()) =~= nodes) by {
                    assert(path@ == deep.drop_last());
                    assert(deep.drop_last().map_values(text()) =~= longer.drop_last());
                    assert(longer.drop_last() =~= nodes);
                }
                assert(results@.map_values(path_view()) =~= found + here + extensions_by(
                    edges,
                    bounds,
                    nodes,
                    next.take(i + 1),
                )) by {
                    let a = extensions_by(edges, bounds, nodes, next.take(i as int));
                    let b = extensions(edges, bounds, longer);
                    assert((found + here + a) + b =~= found + here + (a + b));
                }
            }
            i += 1;
        }
        assert(next.take(i as int) =~= next);
        assert((found + here) + extensions_by(edges, bounds, nodes, next) =~= found + (here + extensions_by(
            edges,
            bounds,
            nodes,
            next,
        )));
    }
}

fn contains_node(path: &Vec<String>, node: &str) -> (r: bool)
    ensures
        r == path@.map_values(text()).contains(node@),
{
    let ghost nodes = path@.map_values(text());
    let mut i: usize = 0;
    while i < path.len()
        invariant
            nodes == path@.map_values(text()),
            i <= path@.len(),
            forall|j: int| 0 <= j < i ==> #[trigger] nodes[j] != node@,
        decreases path@.len() - i,
    {
        assert(nodes[i as int] == path@[i as int]@);
        if same_name(path[i].as_str(), node) {
            return true;
        }
        i += 1;
    }
    false
}

fn copy_path(path: &Vec<String>) -> (r: Vec<String>)
    ensures
        r@.map_values(text()) == path@.map_values(text()),
{
    let mut r: Vec<String> = Vec::new();
    let mut i: usize = 0;
    while i < path.len()
        invariant
            i <= path@.len(),
            r@.len() == i,
            forall|j: int| 0 <= j < i ==> (#[trigger] r@[j])@ == path@[j]@,
        decreases path@.len() - i,
    {
        r.push(path[i].clone());
        i += 1;
    }
    assert(r@.map_values(text()) =~= path@.map_values(text()));
    r
}

/// Consecutive nodes are linked.
pub open spec fn is_walk(edges: Seq<Edge>, by: Option<Seq<char>>, path: Seq<Seq<char>>) -> bool {
    forall|i: int|
        0 <= i < path.len() - 1 ==> successors(edges, #[trigger] path[i], by).contains(path[i + 1])
}

/// The length of a path lies within the bounds.
pub open spec fn long_enough(bounds: PathBounds, path: Seq<Seq<char>>) -> bool {
    let hops = path.len() - 1;
    bounds.min_hops <= hops <= bounds.max_hops && (bounds.shortest_only ==> hops == bounds.min_hops)
}

/// The path begins with another.
pub open spec fn begins(path: Seq<Seq<char>>, with: Seq<Seq<char>>) -> bool {
    with.len() <= path.len() && path.take(with.len() as int) == with
}

/// A path is found from a node exactly when it starts there, follows edges,
/// visits no node twice and has a length within the bounds.
pub proof fn law_found_paths_are_the_simple_walks(
    edges: Seq<Edge>,
    bounds: PathBounds,
    start: Seq<char>,
    path: Seq<Seq<char>>,
)
    ensures
        extensions(edges, bounds, seq![start]).contains(path) <==> {
            &&& path.len() > 0
            &&& path[0] == start
            &&& is_walk(edges, bounds.by, path)
            &&& path.no_duplicates()
            &&& long_enough(bounds, path)
        },
{
    let one = seq![start];
    lemma_extensions(edges, bounds, one, path);
    if path.len() > 0 {
        if path[0] == start {
            assert(path.take(1) =~= one);
        }
        if begins(path, one) {
            assert(path.take(1)[0] == start);
        }
    }
}

proof fn lemma_extensions(edges: Seq<Edge>, bounds: PathBounds, path: Seq<Seq<char>>, p: Seq<Seq<char>>)
    requires
        path.len() > 0,
        path.len() <= bounds.max_hops + 1,
        path.no_duplicates(),
        is_walk(edges, bounds.by, path),
        bounds.shortest_only ==> path.len() - 1 <= bounds.min_hops,
    ensures
        extensions(edges, bounds, path).contains(p) <==> begins(p, path) && is_walk(edges, bounds.by, p)
            && p.no_duplicates() && long_enough(bounds, p),
    decreases bounds.max_hops + 1 - path.len(), 0nat, 0nat,
{
    let hops = path.len() - 1;
    let all = extensions(edges, bounds, path);
    let here = if hops >= bounds.min_hops {
        seq![path]
    } else {
        Seq::empty()
    };
    assert(here.contains(p) <==> hops >= bounds.min_hops && p == path) by {
        if hops >= bounds.min_hops {
            assert(here[0] == path);
        }
    }
    if begins(p, path) && p.len() == path.len() {
        assert(p.take(path.len() as int) =~= p);
    }
    assert(path.take(path.len() as int) =~= path);
    if hops >= bounds.max_hops || hops >= bounds.min_hops && bounds.shortest_only {
        assert(all == here);
    } else {
        let next = successors(edges, path.last(), bounds.by);
        let more = extensions_by(edges, bounds, path, next);
        assert(all == here + more);
        lemma_extensions_by(edges, bounds, path, next, p);
        lemma_contains_add(here, more, p);
        if begins(p, path) && is_walk(edges, bounds.by, p) && p.len() > path.len() {
            assert(p[hops] == p.take(path.len() as int)[hops]);
            assert(p[hops] == path.last());
            assert(next.contains(p[path.len() as int]));
        }
    }
}

proof fn lemma_contains_add<A>(a: Seq<A>, b: Seq<A>, x: A)
    ensures
        (a + b).contains(x) <==> a.contains(x) || b.contains(x),
{
    if a.contains(x) {
        let i = choose|i: int| 0 <= i < a.len() && a[i] == x;
        assert((a + b)[i] == x);
    }
    if b.contains(x) {
        let i = choose|i: int| 0 <= i < b.len() && b[i] == x;
        assert((a + b)[a.len() + i] == x);
    }
    if (a + b).contains(x) {
        let i = choose|i: int| 0 <= i < (a + b).len() && (a + b)[i] == x;
        if i < a.len() {
            assert(a[i] == x);
        } else {
            assert(b[i - a.len()] == x);
        }
    }
}

proof fn lemma_extensions_by(
    edges: Seq<Edge>,
    bounds: PathBounds,
    path: Seq<Seq<char>>,
    next: Seq<Seq<char>>,
    p: Seq<Seq<char>>,
)
    requires
        path.len() > 0,
        path.len() <= bounds.max_hops,
        path.no_duplicates(),
        is_walk(edges, bounds.by, path),
        bounds.shortest_only ==> path.len() <= bounds.min_hops,
        forall|n: Seq<char>|
            #[trigger] next.contains(n) ==> successors(edges, path.last(), bounds.by).contains(n),
    ensures
        extensions_by(edges, bounds, path, next).contains(p) <==> begins(p, path) && p.len() > path.len()
            && next.contains(p[path.len() as int]) && is_walk(edges, bounds.by, p) && p.no_duplicates()
            && long_enough(bounds, p),
    decreases bounds.max_hops + 1 - path.len() - 1, 1nat, next.len(),
{
    if next.len() > 0 {
        let front = next.drop_last();
        let n = next.last();
        let k = path.len() as int;
        assert forall|m: Seq<char>| #[trigger] front.contains(m) implies successors(edges, path.last(), bounds.by).contains(m) by {
            let i = choose|i: int| 0 <= i < front.len() && front[i] == m;
            assert(next[i] == m);
            assert(next.contains(m));
        }
        lemma_extensions_by(edges, bounds, path, front, p);
        assert(next =~= front.push(n));
        assert(next.contains(n)) by {
            assert(next[next.len() - 1] == n);
        }
        if p.len() > k {
            lemma_contains_add(front, seq![n], p[k]);
            assert(front + seq![n] =~= next);
            assert(seq![n].contains(p[k]) <==> p[k] == n) by {
                assert(seq![n][0] == n);
            }
        }
        let before = extensions_by(edges, bounds, path, front);
        if path.contains(n) {
            // A path through `n` again would visit it twice.
            if begins(p, path) && p.len() > k && p[k] == n && p.no_duplicates() {
                let i = choose|i: int| 0 <= i < path.len() && path[i] == n;
                assert(p.take(k)[i] == p[i]);
                assert(p[i] == p[k]);
            }
        } else {
            let longer = path.push(n);
            assert(longer.no_duplicates()) by {
                assert forall|i: int, j: int| 0 <= i < longer.len() && 0 <= j < longer.len() && i != j implies longer[i]
                    != longer[j] by {
                    if i == k {
                        assert(path.contains(path[j]));
                    } else if j == k {
                        assert(path.contains(path[i]));
                    }
                }
            }
            assert(is_walk(edges, bounds.by, longer)) by {
                assert forall|i: int| 0 <= i < longer.len() - 1 implies successors(edges, #[trigger] longer[i], bounds.by).contains(longer[i + 1]) by {
                    if i < k - 1 {
                        assert(longer[i] == path[i]);
                        assert(successors(edges, path[i], bounds.by).contains(path[i + 1]));
                    }
                }
            }
            lemma_extensions(edges, bounds, longer, p);
            lemma_contains_add(before, extensions(edges, bounds, longer), p);
            assert(begins(p, longer) <==> begins(p, path) && p.len() > k && p[k] == n) by {
                if begins(p, longer) {
                    assert(p.take(k + 1) == longer);
                    assert(p[k] == p.take(k + 1)[k]);
                    assert(p.take(k) =~= longer.take(k));
                    assert(longer.take(k) =~= path);
                }
                if begins(p, path) && p.len() > k && p[k] == n {
                    assert(p.take(k + 1) =~= p.take(k).push(p[k]));
                }
            }
        }
    }
}

/// No two edges lead from one node to another by different predicates, as far
/// as the search tells predicates apart.
pub open spec fn single_links(edges: Seq<Edge>, by: Option<Seq<char>>) -> bool {
    by is Some || forall|from: Seq<char>, p: Seq<char>, q: Seq<char>, to: Seq<char>| #[trigger]
        has_link(edges, from, p, to) && #[trigger] has_link(edges, from, q, to) ==> p == q
}

/// Listings without repetition that share nothing make up one without
/// repetition.
proof fn lemma_concat_distinct<A, B>(s: Seq<A>, f: spec_fn(A) -> Seq<B>)
    requires
        forall|i: int| 0 <= i < s.len() ==> f(#[trigger] s[i]).no_duplicates(),
        forall|i: int, j: int, b: B|
            0 <= i < j < s.len() && #[trigger] f(s[i]).contains(b) ==> !#[trigger] f(s[j]).contains(b),
    ensures
        concat(s, f).no_duplicates(),
    decreases s.len(),
{
    if s.len() > 0 {
        let rest = s.drop_last();
        assert forall|i: int| 0 <= i < rest.len() implies f(#[trigger] rest[i]).no_duplicates() by {
            assert(f(s[i]).no_duplicates());
        }
        assert forall|i: int, j: int, b: B|
            0 <= i < j < rest.len() && #[trigger] f(rest[i]).contains(b) implies !#[trigger] f(rest[j]).contains(b) by {
            assert(f(s[i]).contains(b));
        }
        lemma_concat_distinct(rest, f);
        assert(f(s[s.len() - 1]).no_duplicates());
        assert forall|b: B| #[trigger] concat(rest, f).contains(b) implies !f(s.last()).contains(b) by {
            lemma_concat_contains(rest, f, b);
            let i = choose|i: int| 0 <= i < rest.len() && f(#[trigger] rest[i]).contains(b);
            assert(f(s[i]).contains(b));
            assert(!f(s[s.len() - 1]).contains(b));
        }
        lemma_distinct_add(concat(rest, f), f(s.last()));
    }
}

proof fn lemma_distinct_add<A>(a: Seq<A>, b: Seq<A>)
    requires
        a.no_duplicates(),
        b.no_duplicates(),
        forall|x: A| #[trigger] a.contains(x) ==> !b.contains(x),
    ensures
        (a + b).no_duplicates(),
{
    let c = a + b;
    assert forall|i: int, j: int| 0 <= i < c.len() && 0 <= j < c.len() && i != j implies c[i] != c[j] by {
        if i < a.len() && j >= a.len() {
            assert(a.contains(a[i]));
            assert(b[j - a.len()] == c[j]);
        } else if j < a.len() && i >= a.len() {
            assert(a.contains(a[j]));
            assert(b[i - a.len()] == c[i]);
        } else if i >= a.len() {
            assert(b[i - a.len()] == c[i] && b[j - a.len()] == c[j]);
        }
    }
}

proof fn lemma_successors_distinct(edges: Seq<Edge>, from: Seq<char>, by: Option<Seq<char>>)
    requires
        single_links(edges, by),
    ensures
        successors(edges, from, by).no_duplicates(),
{
    let f = ends_by(edges, from);
    match by {
        Some(p) => {
            lemma_ends_finite(edges, from, p);
            lemma_finite_listing(ends(forward(edges), from, p));
            crate::names::lemma_ascending_distinct(f(p));
        },
        None => {
            let w = ways(forward(edges), from);
            let l = listing(w);
            lemma_ends_finite(edges, from, from);
            lemma_finite_listing(w);
            crate::names::lemma_ascending_distinct(l);
            assert forall|i: int| 0 <= i < l.len() implies f(#[trigger] l[i]).no_duplicates() by {
                lemma_ends_finite(edges, from, l[i]);
                lemma_finite_listing(ends(forward(edges), from, l[i]));
                crate::names::lemma_ascending_distinct(f(l[i]));
            }
            assert forall|i: int, j: int, b: Seq<char>|
                0 <= i < j < l.len() && #[trigger] f(l[i]).contains(b) implies !#[trigger] f(l[j]).contains(b) by {
                lemma_end_listed(edges, from, l[i], b);
                lemma_end_listed(edges, from, l[j], b);
                assert(l[i] != l[j]);
            }
            lemma_concat_distinct(l, f);
        },
    }
}

proof fn lemma_extensions_distinct(edges: Seq<Edge>, bounds: PathBounds, path: Seq<Seq<char>>)
    requires
        path.len() > 0,
        path.len() <= bounds.max_hops + 1,
        path.no_duplicates(),
        is_walk(edges, bounds.by, path),
        bounds.shortest_only ==> path.len() - 1 <= bounds.min_hops,
        single_links(edges, bounds.by),
    ensures
        extensions(edges, bounds, path).no_duplicates(),
    decreases bounds.max_hops + 1 - path.len(), 0nat, 0nat,
{
    let hops = path.len() - 1;
    if !(hops >= bounds.max_hops || hops >= bounds.min_hops && bounds.shortest_only) {
        let next = successors(edges, path.last(), bounds.by);
        let more = extensions_by(edges, bounds, path, next);
        lemma_successors_distinct(edges, path.last(), bounds.by);
        lemma_extensions_by_distinct(edges, bounds, path, next);
        if hops >= bounds.min_hops {
            let here = seq![path];
            assert forall|p: Seq<Seq<char>>| #[trigger] here.contains(p) implies !more.contains(p) by {
                lemma_extensions_by(edges, bounds, path, next, p);
            }
            lemma_distinct_add(here, more);
        } else {
            assert(Seq::<Seq<Seq<char>>>::empty() + more =~= more);
        }
    }
}

proof fn lemma_extensions_by_distinct(
    edges: Seq<Edge>,
    bounds: PathBounds,
    path: Seq<Seq<char>>,
    next: Seq<Seq<char>>,
)
    requires
        path.len() > 0,
        path.len() <= bounds.max_hops,
        path.no_duplicates(),
        is_walk(edges, bounds.by, path),
        bounds.shortest_only ==> path.len() <= bounds.min_hops,
        single_links(edges, bounds.by),
        next.no_duplicates(),
        forall|n: Seq<char>|
            #[trigger] next.contains(n) ==> successors(edges, path.last(), bounds.by).contains(n),
    ensures
        extensions_by(edges, bounds, path, next).no_duplicates(),
    decreases bounds.max_hops + 1 - path.len() - 1, 1nat, next.len(),
{
    if next.len() > 0 {
        let front = next.drop_last();
        let n = next.last();
        let k = path.len() as int;
        assert(next[next.len() - 1] == n);
        assert(next.contains(n));
        assert forall|m: Seq<char>| #[trigger] front.contains(m) implies m != n && successors(
            edges,
            path.last(),
            bounds.by,
        ).contains(m) by {
            let i = choose|i: int| 0 <= i < front.len() && front[i] == m;
            assert(next[i] == m);
            assert(next.contains(m));
        }
        lemma_extensions_by_distinct(edges, bounds, path, front);
        if !path.contains(n) {
            let longer = path.push(n);
            assert(longer.no_duplicates()) by {
                assert forall|i: int, j: int| 0 <= i < longer.len() && 0 <= j < longer.len() && i != j implies longer[i]
                    != longer[j] by {
                    if i == k {
                        assert(path.contains(path[j]));
                    } else if j == k {
                        assert(path.contains(path[i]));
                    }
                }
            }
            assert forall|i: int| 0 <= i < longer.len() - 1 implies successors(
                edges,
                #[trigger] longer[i],
                bounds.by,
            ).contains(longer[i + 1]) by {
                if i < k - 1 {
                    assert(successors(edges, path[i], bounds.by).contains(path[i + 1]));
                }
            }
            lemma_extensions_distinct(edges, bounds, longer);
            let before = extensions_by(edges, bounds, path, front);
            let here = extensions(edges, bounds, longer);
            assert forall|p: Seq<Seq<char>>| #[trigger] before.contains(p) implies !here.contains(p) by {
                lemma_extensions_by(edges, bounds, path, front, p);
                lemma_extensions(edges, bounds, longer, p);
                if here.contains(p) {
                    assert(p.take(k + 1)[k] == n);
                    assert(front.contains(p[k]));
                }
            }
            lemma_distinct_add(before, here);
        }
    }
}

/// No path is found twice, unless two predicates lead from one node to another
/// and the search follows both.
pub proof fn law_no_path_is_found_twice(edges: Seq<Edge>, bounds: PathBounds, start: Seq<char>)
    requires
        single_links(edges, bounds.by),
    ensures
        extensions(edges, bounds, seq![start]).no_duplicates(),
{
    lemma_extensions_distinct(edges, bounds, seq![start]);
}

} // verus!
