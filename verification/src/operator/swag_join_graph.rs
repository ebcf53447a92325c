//! Join topology: relations, join edges, and connectivity.
use vstd::prelude::*;

pub use crate::operator::view_plan::{FactorizedViewPlan, ViewLayer};

use crate::name_sets::{
    add_member, copy_sets, lemma_set_at, no_sets, put_set, set_map, sets_wf,
};
use crate::names::{same_name, text, NameMap, NameSet};
use crate::operator::acyclicity::has_join_tree;
use crate::operator::graph_search::{all_connected, connected, cyclic, has_cycle, undirected};
use crate::operator::hypergraph::{build_join_tree, gyo_acyclic, holds, join_tree_of, lemma_keys};
use crate::operator::min_fill::{elimination, min_fill_elimination_order};
use crate::operator::swag_join::{VariableOrder, VariableOrderMethod};
use crate::operator::join_forest::is_join_tree;
use crate::operator::view_plan::reverse_strings;
use crate::text::is_white_space;
use crate::operator::variable_orders::{
    derive_prefix_order, join_tree_order, law_join_tree_order_lists_each_variable_once,
};

verus! {

/// Nothing but white space.
pub open spec fn is_blank(s: Seq<char>) -> bool {
    forall|i: int| 0 <= i < s.len() ==> is_white_space(#[trigger] s[i])
}

/// A relation of the join: its name and the join variables it exposes.
#[derive(Clone, Debug)]
pub struct Relation {
    name: String,
    variables: NameSet,
}

impl Relation {
    pub closed spec fn wf(&self) -> bool {
        self.variables.wf()
    }

    pub closed spec fn name_text(&self) -> Seq<char> {
        self.name@
    }

    pub closed spec fn variable_set(&self) -> Set<Seq<char>> {
        self.variables@
    }

    fn new(name: String, variables: NameSet) -> (r: Self)
        requires
            variables.wf(),
        ensures
            r.wf(),
            r.name_text() == name@,
            r.variable_set() == variables@,
    {
        Relation { name, variables }
    }

    pub fn name(&self) -> (r: &str)
        ensures
            r@ == self.name_text(),
    {
        self.name.as_str()
    }

    /// Join variables exposed by this relation, in order.
    pub fn variables(&self) -> (r: &NameSet)
        requires
            self.wf(),
        ensures
            r.wf(),
            r@ == self.variable_set(),
    {
        &self.variables
    }
}

/// A join predicate between two relations with the window
/// `[window_lower, window_upper]` of milliseconds relative to `relation_a`.
#[derive(Clone, Debug, PartialEq, Eq, Hash)]
pub struct Edge {
    pub relation_a: String,
    pub relation_b: String,
    pub window_lower: i64,
    pub window_upper: i64,
}

impl Edge {
    /// The edge joins two relations and its window is not inverted.
    pub open spec fn wf(&self) -> bool {
        &&& self.relation_a@ != self.relation_b@
        &&& self.window_lower <= self.window_upper
    }

    /// The edge joins `a` and `b`, in either direction.
    pub open spec fn links(&self, a: Seq<char>, b: Seq<char>) -> bool {
        ||| self.relation_a@ == a && self.relation_b@ == b
        ||| self.relation_a@ == b && self.relation_b@ == a
    }

    /// `name` is an end of the edge.
    pub open spec fn touches(&self, name: Seq<char>) -> bool {
        self.relation_a@ == name || self.relation_b@ == name
    }

    /// Where a partner of a tuple of `from` at `timestamp` may lie.
    pub open spec fn window(&self, timestamp: int, from: Seq<char>) -> (int, int) {
        if from == self.relation_a@ {
            (timestamp + self.window_lower, timestamp + self.window_upper)
        } else {
            (timestamp - self.window_upper, timestamp - self.window_lower)
        }
    }

    pub fn new(relation_a: &str, relation_b: &str, window_lower: i64, window_upper: i64) -> (r: Self)
        requires
            relation_a@ != relation_b@,
            window_lower <= window_upper,
        ensures
            r.wf(),
            r.relation_a@ == relation_a@,
            r.relation_b@ == relation_b@,
            r.window_lower == window_lower,
            r.window_upper == window_upper,
    {
        Edge {
            relation_a: relation_a.to_string(),
            relation_b: relation_b.to_string(),
            window_lower,
            window_upper,
        }
    }

    /// The relation on the other side of the edge, `None` if `relation` is
    /// not an end of it.
    pub fn other(&self, relation: &str) -> (r: Option<&str>)
        ensures
            r is Some <==> self.touches(relation@),
            self.relation_a@ == relation@ ==> r is Some && r->0@ == self.relation_b@,
            self.relation_a@ != relation@ && self.relation_b@ == relation@ ==> r is Some && r->0@
                == self.relation_a@,
    {
        if same_name(self.relation_a.as_str(), relation) {
            Some(self.relation_b.as_str())
        } else if same_name(self.relation_b.as_str(), relation) {
            Some(self.relation_a.as_str())
        } else {
            None
        }
    }

    /// Window bounds for the other side, given a query timestamp; `None` if
    /// `querying_relation` is not an end of the edge.
    pub fn window_bounds(&self, timestamp: i64, querying_relation: &str) -> (r: Option<(i64, i64)>)
        requires
            self.touches(querying_relation@) ==> i64::MIN <= self.window(timestamp as int, querying_relation@).0
                <= i64::MAX && i64::MIN <= self.window(timestamp as int, querying_relation@).1 <= i64::MAX,
        ensures
            r is Some <==> self.touches(querying_relation@),
            r is Some ==> ((r->0).0 as int, (r->0).1 as int) == self.window(timestamp as int, querying_relation@),
    {
        if same_name(querying_relation, self.relation_a.as_str()) {
            Some((timestamp + self.window_lower, timestamp + self.window_upper))
        } else if same_name(querying_relation, self.relation_b.as_str()) {
            Some((timestamp - self.window_upper, timestamp - self.window_lower))
        } else {
            None
        }
    }

    fn copy(&self) -> (r: Self)
        ensures
            r == *self,
    {
        Edge {
            relation_a: self.relation_a.clone(),
            relation_b: self.relation_b.clone(),
            window_lower: self.window_lower,
            window_upper: self.window_upper,
        }
    }
}

/// Declarative join topology: relations are nodes, join predicates edges.
#[derive(Debug)]
pub struct JoinGraph {
    relations: NameMap<Relation>,
    edges: Vec<Edge>,
    adjacency: NameMap<NameSet>,
}

/// Some edge joins `a` and `b`.
pub open spec fn linked(edges: Seq<Edge>, a: Seq<char>, b: Seq<char>) -> bool {
    exists|i: int| 0 <= i < edges.len() && (#[trigger] edges[i]).links(a, b)
}

impl JoinGraph {
    /// The relations, by name, with their join variables.
    pub closed spec fn relation_map(&self) -> Map<Seq<char>, Set<Seq<char>>> {
        Map::new(
            |n: Seq<char>| self.relations@.contains_key(n),
            |n: Seq<char>| self.relations@[n].variable_set(),
        )
    }

    /// The relation names in order.
    pub closed spec fn names(&self) -> Seq<Seq<char>> {
        self.relations.keys()
    }

    /// The edges in declaration order.
    pub closed spec fn edge_list(&self) -> Seq<Edge> {
        self.edges@
    }

    /// The neighbours of every relation.
    pub closed spec fn neighbor_map(&self) -> Map<Seq<char>, Set<Seq<char>>> {
        set_map(&self.adjacency)
    }

    pub closed spec fn wf(&self) -> bool {
        &&& self.relations.wf()
        &&& sets_wf(&self.adjacency)
        &&& self.adjacency.keys() == self.relations.keys()
        &&& forall|i: int|
            0 <= i < self.relations.values().len() ==> {
                let r = #[trigger] self.relations.values()[i];
                &&& r.wf()
                &&& r.name_text() == self.relations.keys()[i]
                &&& r.variable_set() != Set::<Seq<char>>::empty()
            }
        &&& forall|i: int|
            0 <= i < self.edges@.len() ==> {
                let e = #[trigger] self.edges@[i];
                &&& e.wf()
                &&& self.relations@.contains_key(e.relation_a@)
                &&& self.relations@.contains_key(e.relation_b@)
            }
        &&& forall|a: Seq<char>, b: Seq<char>|
            self.neighbor_map().contains_key(a) ==> (#[trigger] self.neighbor_map()[a].contains(b) <==> linked(
                self.edges@,
                a,
                b,
            ))
        &&& forall|i: int, j: int|
            0 <= i < j < self.edges@.len() ==> !(#[trigger] self.edges@[i]).links(
                (#[trigger] self.edges@[j]).relation_a@,
                self.edges@[j].relation_b@,
            )
    }

    /// What is known of the parts of a sound graph.
    pub proof fn lemma_parts(&self)
        requires
            self.wf(),
        ensures
            crate::names::ascending_names(self.names()),
            forall|n: Seq<char>| #[trigger] self.relation_map().contains_key(n) <==> self.names().contains(n),
            self.neighbor_map().dom() == self.relation_map().dom(),
            forall|a: Seq<char>, b: Seq<char>|
                self.neighbor_map().contains_key(a) && #[trigger] self.neighbor_map()[a].contains(b) ==> a != b
                    && self.neighbor_map().contains_key(b) && self.neighbor_map()[b].contains(a),
            forall|a: Seq<char>, b: Seq<char>|
                self.neighbor_map().contains_key(a) ==> (#[trigger] self.neighbor_map()[a].contains(b) <==> linked(
                    self.edge_list(),
                    a,
                    b,
                )),
            forall|i: int|
                0 <= i < self.edge_list().len() ==> (#[trigger] self.edge_list()[i]).wf()
                    && self.relation_map().contains_key(self.edge_list()[i].relation_a@)
                    && self.relation_map().contains_key(self.edge_list()[i].relation_b@),
            forall|i: int, j: int|
                0 <= i < j < self.edge_list().len() ==> !(#[trigger] self.edge_list()[i]).links(
                    (#[trigger] self.edge_list()[j]).relation_a@,
                    self.edge_list()[j].relation_b@,
                ),
            forall|n: Seq<char>| #[trigger]
                self.relation_map().contains_key(n) ==> self.relation_map()[n] != Set::<Seq<char>>::empty()
                    && self.relation_map()[n].finite(),
    {
        assert(self.neighbor_map().dom() =~= self.relation_map().dom()) by {
            assert forall|n: Seq<char>|
                self.neighbor_map().dom().contains(n) == self.relation_map().dom().contains(n) by {
                assert(self.adjacency@.contains_key(n) == self.adjacency.keys().contains(n));
                assert(self.relations@.contains_key(n) == self.relations.keys().contains(n));
            }
        }
        assert forall|a: Seq<char>, b: Seq<char>|
            self.neighbor_map().contains_key(a) && #[trigger] self.neighbor_map()[a].contains(b) implies a != b
            && self.neighbor_map().contains_key(b) && self.neighbor_map()[b].contains(a) by {
            let i = choose|i: int| 0 <= i < self.edges@.len() && (#[trigger] self.edges@[i]).links(a, b);
            let e = self.edges@[i];
            assert(e.links(b, a));
            assert(linked(self.edges@, b, a));
            assert(self.neighbor_map().dom().contains(b));
        }
        assert forall|n: Seq<char>| #[trigger] self.relation_map().contains_key(n) implies self.relation_map()[n]
            != Set::<Seq<char>>::empty() && self.relation_map()[n].finite() by {
            let i = choose|i: int| 0 <= i < self.relations.keys().len() && self.relations.keys()[i] == n;
            self.relations.lemma_shape();
            self.relations.lemma_lookup(i);
            let r = self.relations.values()[i];
            r.variables.lemma_listed();
        }
    }

    /// Empty graph.
    pub fn new() -> (r: Self)
        ensures
            r.wf(),
            r.relation_map() == Map::<Seq<char>, Set<Seq<char>>>::empty(),
            r.edge_list() == Seq::<Edge>::empty(),
            r.names() == Seq::<Seq<char>>::empty(),
    {
        let r = JoinGraph { relations: NameMap::new(), edges: Vec::new(), adjacency: no_sets() };
        proof {
            r.relations.lemma_shape();
            assert(r.relation_map() =~= Map::<Seq<char>, Set<Seq<char>>>::empty());
        }
        r
    }

    /// Adds a relation with the given join variables.
    pub fn add_relation(&mut self, name: &str, variables: &[&str]) -> (r: &mut Self)
        requires
            old(self).wf(),
            !old(self).relation_map().contains_key(name@),
            variables@.len() > 0,
            forall|i: int| 0 <= i < variables@.len() ==> !is_blank((#[trigger] variables@[i])@),
        ensures
            r.wf(),
            r.relation_map() == old(self).relation_map().insert(
                name@,
                variables@.map_values(|v: &str| v@).to_set(),
            ),
            r.edge_list() == old(self).edge_list(),
            *final(self) == *final(r),
    {
        let mut vars = NameSet::new();
        let ghost want = variables@.map_values(|v: &str| v@);
        let mut i: usize = 0;
        while i < variables.len()
            invariant
                vars.wf(),
                want == variables@.map_values(|v: &str| v@),
                i <= variables@.len(),
                vars@ == want.take(i as int).to_set(),
            decreases variables@.len() - i,
        {
            vars.insert(variables[i]);
            proof {
                assert(want.take(i + 1) =~= want.take(i as int).push(want[i as int]));
                want.take(i as int).lemma_push_to_set_commute(want[i as int]);
            }
            i += 1;
        }
        assert(want.take(i as int) =~= want);
        assert(want.to_set().contains(want[0]));
        let ghost before = *self;
        let rel = Relation::new(name.to_string(), vars);
        self.relations.insert(name, rel);
        put_set(&mut self.adjacency, name, NameSet::new());
        proof {
            self.lemma_relation_added(&before, name@, rel);
        }
        self
    }

    proof fn lemma_relation_added(&self, before: &Self, name: Seq<char>, rel: Relation)
        requires
            before.wf(),
            !before.relation_map().contains_key(name),
            rel.wf(),
            rel.name_text() == name,
            rel.variable_set() != Set::<Seq<char>>::empty(),
            self.edges@ == before.edges@,
            self.relations.wf(),
            self.relations@ == before.relations@.insert(name, rel),
            sets_wf(&self.adjacency),
            set_map(&self.adjacency) == set_map(&before.adjacency).insert(name, Set::<Seq<char>>::empty()),
        ensures
            self.wf(),
            self.relation_map() == before.relation_map().insert(name, rel.variable_set()),
    {
        before.lemma_parts();
        assert(self.relation_map() =~= before.relation_map().insert(name, rel.variable_set()));
        self.relations.lemma_shape();
        before.relations.lemma_shape();
        assert forall|i: int| 0 <= i < self.relations.values().len() implies ({
            let r = #[trigger] self.relations.values()[i];
            &&& r.wf()
            &&& r.name_text() == self.relations.keys()[i]
            &&& r.variable_set() != Set::<Seq<char>>::empty()
        }) by {
            self.relations.lemma_lookup(i);
            let k = self.relations.keys()[i];
            if k != name {
                assert(before.relations@.contains_key(k));
                let j = choose|j: int| 0 <= j < before.relations.keys().len() && before.relations.keys()[j] == k;
                before.relations.lemma_lookup(j);
                assert(before.relations.values()[j].wf());
            }
        }
        assert(self.adjacency.keys().to_set() =~= self.relations.keys().to_set()) by {
            assert forall|n: Seq<char>|
                self.adjacency.keys().to_set().contains(n) == self.relations.keys().to_set().contains(n) by {
                assert(self.adjacency@.contains_key(n) == set_map(&self.adjacency).contains_key(n));
                assert(before.adjacency@.contains_key(n) == set_map(&before.adjacency).contains_key(n));
                assert(self.relations@.contains_key(n) == self.relations.keys().contains(n));
                assert(before.neighbor_map().dom().contains(n) == before.relation_map().dom().contains(n));
            }
        }
        crate::names::lemma_ascending_unique(self.adjacency.keys(), self.relations.keys());
        assert forall|a: Seq<char>, b: Seq<char>|
            self.neighbor_map().contains_key(a) implies (#[trigger] self.neighbor_map()[a].contains(b) <==> linked(
            self.edges@,
            a,
            b,
        )) by {
            if a == name {
                if linked(self.edges@, a, b) {
                    let i = choose|i: int| 0 <= i < self.edges@.len() && (#[trigger] self.edges@[i]).links(a, b);
                    assert(before.relations@.contains_key(before.edges@[i].relation_a@));
                    assert(before.relations@.contains_key(before.edges@[i].relation_b@));
                }
            } else {
                assert(before.neighbor_map()[a].contains(b) <==> linked(before.edges@, a, b));
            }
        }
    }

    /// Adds an undirected join edge with the given temporal window.
    pub fn add_edge(&mut self, relation_a: &str, relation_b: &str, window_lower: i64, window_upper: i64) -> (r:
        &mut Self)
        requires
            old(self).wf(),
            old(self).relation_map().contains_key(relation_a@),
            old(self).relation_map().contains_key(relation_b@),
            relation_a@ != relation_b@,
            !linked(old(self).edge_list(), relation_a@, relation_b@),
            window_lower <= window_upper,
        ensures
            r.wf(),
            r.relation_map() == old(self).relation_map(),
            r.names() == old(self).names(),
            r.edge_list().len() == old(self).edge_list().len() + 1,
            r.edge_list().drop_last() == old(self).edge_list(),
            r.edge_list().last().relation_a@ == relation_a@,
            r.edge_list().last().relation_b@ == relation_b@,
            r.edge_list().last().window_lower == window_lower,
            r.edge_list().last().window_upper == window_upper,
            *final(self) == *final(r),
    {
        let ghost before = *self;
        proof {
            self.lemma_parts();
            assert(self.neighbor_map().dom().contains(relation_a@));
            assert(self.neighbor_map().dom().contains(relation_b@));
        }
        self.edges.push(Edge::new(relation_a, relation_b, window_lower, window_upper));
        add_member(&mut self.adjacency, relation_a, relation_b);
        add_member(&mut self.adjacency, relation_b, relation_a);
        proof {
            let e = self.edges@.last();
            assert(self.edges@.drop_last() =~= before.edges@);
            assert(self.relation_map() =~= before.relation_map());
            assert(self.adjacency.keys().to_set() =~= before.adjacency.keys().to_set()) by {
                assert forall|n: Seq<char>|
                    self.adjacency.keys().to_set().contains(n) == before.adjacency.keys().to_set().contains(n) by {
                    assert(self.adjacency@.contains_key(n) == set_map(&self.adjacency).dom().contains(n));
                    assert(before.adjacency@.contains_key(n) == set_map(&before.adjacency).dom().contains(n));
                }
            }
            crate::names::lemma_ascending_unique(self.adjacency.keys(), before.adjacency.keys());
            assert forall|a: Seq<char>, b: Seq<char>|
                self.neighbor_map().contains_key(a) implies (#[trigger] self.neighbor_map()[a].contains(b)
                <==> linked(self.edges@, a, b)) by {
                assert(before.neighbor_map().dom().contains(a));
                assert(before.neighbor_map()[a].contains(b) <==> linked(before.edges@, a, b));
                if linked(before.edges@, a, b) {
                    let i = choose|i: int| 0 <= i < before.edges@.len() && (#[trigger] before.edges@[i]).links(a, b);
                    assert(self.edges@[i].links(a, b));
                }
                if linked(self.edges@, a, b) {
                    let i = choose|i: int| 0 <= i < self.edges@.len() && (#[trigger] self.edges@[i]).links(a, b);
                    if i < before.edges@.len() {
                        assert(before.edges@[i].links(a, b));
                    }
                }
                if e.links(a, b) {
                    assert(self.edges@[before.edges@.len() as int].links(a, b));
                }
            }
            assert forall|i: int, j: int| 0 <= i < j < self.edges@.len() implies !(#[trigger] self.edges@[i]).links(
                (#[trigger] self.edges@[j]).relation_a@,
                self.edges@[j].relation_b@,
            ) by {
                if j == before.edges@.len() {
                    assert(!before.edges@[i].links(relation_a@, relation_b@));
                }
            }
        }
        self
    }

    /// All relation names, in order.
    pub fn relation_names(&self) -> (r: Vec<&str>)
        ensures
            r@.map_values(|n: &str| n@) == self.names(),
    {
        let mut out: Vec<&str> = Vec::new();
        let mut i: usize = 0;
        while i < self.relations.len()
            invariant
                i <= self.relations.keys().len(),
                out@.len() == i,
                forall|j: int| 0 <= j < i ==> (#[trigger] out@[j])@ == self.relations.keys()[j],
            decreases self.relations.keys().len() - i,
        {
            out.push(self.relations.key_at(i));
            i += 1;
        }
        assert(out@.map_values(|n: &str| n@) =~= self.names());
        out
    }

    /// Looks a relation up by name.
    pub fn relation(&self, name: &str) -> (r: Option<&Relation>)
        requires
            self.wf(),
        ensures
            r is Some <==> self.relation_map().contains_key(name@),
            r is Some ==> r->0.wf() && r->0.name_text() == name@ && r->0.variable_set()
                == self.relation_map()[name@],
    {
        proof {
            if self.relations@.contains_key(name@) {
                let i = choose|i: int| 0 <= i < self.relations.keys().len() && self.relations.keys()[i] == name@;
                self.relations.lemma_shape();
                self.relations.lemma_lookup(i);
                assert(self.relations.values()[i].wf());
            }
        }
        self.relations.get(name)
    }

    /// All edges in declaration order.
    pub fn edges(&self) -> (r: &[Edge])
        ensures
            r@ == self.edge_list(),
    {
        self.edges.as_slice()
    }

    /// Neighbours of `relation`, in order; none for an unknown relation.
    pub fn neighbors(&self, relation: &str) -> (r: Vec<&str>)
        requires
            self.wf(),
        ensures
            crate::names::ascending_names(r@.map_values(|n: &str| n@)),
            self.relation_map().contains_key(relation@) ==> r@.map_values(|n: &str| n@).to_set()
                == self.neighbor_map()[relation@],
            !self.relation_map().contains_key(relation@) ==> r@.len() == 0,
    {
        let mut out: Vec<&str> = Vec::new();
        proof {
            self.lemma_parts();
            assert(self.neighbor_map().dom().contains(relation@) == self.relation_map().dom().contains(relation@));
            assert(self.adjacency@.contains_key(relation@) == set_map(&self.adjacency).contains_key(relation@));
        }
        match self.adjacency.get(relation) {
            Some(set) => {
                proof {
                    lemma_set_at(&self.adjacency, relation@);
                    set.lemma_listed();
                }
                let mut i: usize = 0;
                while i < set.len()
                    invariant
                        set.wf(),
                        i <= set.listed().len(),
                        out@.len() == i,
                        forall|j: int| 0 <= j < i ==> (#[trigger] out@[j])@ == set.listed()[j],
                    decreases set.listed().len() - i,
                {
                    out.push(set.get(i));
                    i += 1;
                }
                assert(out@.map_values(|n: &str| n@) =~= set.listed());
            },
            None => {},
        }
        out
    }

    /// The edge between `a` and `b`, if any.
    pub fn edge(&self, a: &str, b: &str) -> (r: Option<&Edge>)
        requires
            self.wf(),
        ensures
            r is Some <==> linked(self.edge_list(), a@, b@),
            r is Some ==> self.edge_list().contains(*r->0) && r->0.links(a@, b@),
    {
        let mut i: usize = 0;
        while i < self.edges.len()
            invariant
                i <= self.edges@.len(),
                forall|j: int| 0 <= j < i ==> !(#[trigger] self.edges@[j]).links(a@, b@),
            decreases self.edges@.len() - i,
        {
            let e = &self.edges[i];
            let ea = e.relation_a.as_str();
            let eb = e.relation_b.as_str();
            if (same_name(ea, a) && same_name(eb, b)) || (same_name(ea, b) && same_name(eb, a)) {
                assert(self.edges@[i as int].links(a@, b@));
                return Some(e);
            }
            i += 1;
        }
        None
    }

    /// Number of neighbours of a relation, 0 for an unknown one.
    pub fn degree(&self, relation: &str) -> (r: usize)
        requires
            self.wf(),
        ensures
            self.relation_map().contains_key(relation@) ==> r == self.neighbor_map()[relation@].len(),
            !self.relation_map().contains_key(relation@) ==> r == 0,
    {
        proof {
            self.lemma_parts();
            assert(self.neighbor_map().dom().contains(relation@) == self.relation_map().dom().contains(relation@));
            assert(self.adjacency@.contains_key(relation@) == set_map(&self.adjacency).contains_key(relation@));
        }
        match self.adjacency.get(relation) {
            Some(set) => {
                proof {
                    lemma_set_at(&self.adjacency, relation@);
                }
                set.len()
            },
            None => 0,
        }
    }

    /// Greatest degree of any relation; 0 for an empty graph.
    pub fn max_degree(&self) -> (r: usize)
        requires
            self.wf(),
        ensures
            forall|n: Seq<char>| #[trigger]
                self.relation_map().contains_key(n) ==> self.neighbor_map()[n].len() <= r,
            self.names().len() > 0 ==> exists|n: Seq<char>| #[trigger]
                self.relation_map().contains_key(n) && self.neighbor_map()[n].len() == r,
            self.names().len() == 0 ==> r == 0,
    {
        let mut best: usize = 0;
        let mut i: usize = 0;
        let ghost mut wit: int = 0;
        proof {
            self.adjacency.lemma_shape();
            self.lemma_parts();
        }
        while i < self.adjacency.len()
            invariant
                self.wf(),
                self.adjacency.keys().len() == self.adjacency.values().len(),
                i <= self.adjacency.keys().len(),
                forall|j: int| 0 <= j < i ==> (#[trigger] self.adjacency.values()[j])@.len() <= best,
                i == 0 ==> best == 0,
                i > 0 ==> 0 <= wit < i && self.adjacency.values()[wit]@.len() == best,
            decreases self.adjacency.keys().len() - i,
        {
            assert(self.adjacency.values()[i as int].wf());
            let d: usize = self.adjacency.value_at(i).len();
            if d > best || i == 0 {
                best = d;
                proof {
                    wit = i as int;
                }
            }
            i += 1;
        }
        proof {
            assert forall|n: Seq<char>| #[trigger] self.relation_map().contains_key(n) implies self.neighbor_map()[n].len()
                <= best by {
                assert(self.neighbor_map().dom().contains(n));
                let j = choose|j: int| 0 <= j < self.adjacency.keys().len() && self.adjacency.keys()[j] == n;
                self.adjacency.lemma_lookup(j);
                assert(self.adjacency.values()[j]@.len() <= best);
            }
            if self.names().len() > 0 {
                self.adjacency.lemma_lookup(wit);
                let n = self.adjacency.keys()[wit];
                assert(self.neighbor_map().dom().contains(n));
                assert(self.relation_map().contains_key(n));
            }
        }
        best
    }

    /// Edges with `relation` as an end, in declaration order.
    pub fn incident_edges(&self, relation: &str) -> (r: Vec<&Edge>)
        ensures
            r@.map_values(|e: &Edge| *e) == self.edge_list().filter(|e: Edge| e.touches(relation@)),
    {
        let mut out: Vec<&Edge> = Vec::new();
        let ghost p = |e: Edge| e.touches(relation@);
        let ghost un = |e: &Edge| *e;
        let mut i: usize = 0;
        proof {
            reveal(Seq::filter);
            assert(out@.map_values(un) =~= self.edges@.take(0).filter(p));
        }
        while i < self.edges.len()
            invariant
                i <= self.edges@.len(),
                forall|e: Edge| #[trigger] p(e) == e.touches(relation@),
                forall|e: &Edge| #[trigger] un(e) == *e,
                out@.map_values(un) == self.edges@.take(i as int).filter(p),
            decreases self.edges@.len() - i,
        {
            let e = &self.edges[i];
            proof {
                reveal(Seq::filter);
                assert(self.edges@.take(i + 1).drop_last() =~= self.edges@.take(i as int));
            }
            let ghost before = out@;
            if same_name(e.relation_a.as_str(), relation) || same_name(e.relation_b.as_str(), relation) {
                out.push(e);
                assert(out@.map_values(un) =~= before.map_values(un).push(*e));
            }
            i += 1;
        }
        assert(self.edges@.take(i as int) =~= self.edges@);
        assert(out@.map_values(|e: &Edge| *e) =~= out@.map_values(un));
        assert(self.edge_list().filter(|e: Edge| e.touches(relation@)) == self.edges@.filter(p)) by {
            crate::listing::lemma_filter_same(self.edges@, |e: Edge| e.touches(relation@), p);
        }
        out
    }
}

/// The end of `e` across from `name`.
pub open spec fn across(e: Edge, name: Seq<char>) -> Seq<char> {
    if e.relation_a@ == name {
        e.relation_b@
    } else {
        e.relation_a@
    }
}

impl JoinGraph {
    /// Edges join pairwise: two relations neighbour each other in both
    /// directions or in none, exactly where an edge joins them, and the edge is
    /// the same one in both directions.
    pub proof fn law_edges_are_mutual(&self, a: Seq<char>, b: Seq<char>)
        requires
            self.wf(),
            self.relation_map().contains_key(a),
            self.relation_map().contains_key(b),
        ensures
            self.neighbor_map()[a].contains(b) == self.neighbor_map()[b].contains(a),
            self.neighbor_map()[a].contains(b) == linked(self.edge_list(), a, b),
            linked(self.edge_list(), a, b) == linked(self.edge_list(), b, a),
            forall|e: Edge, f: Edge|
                self.edge_list().contains(e) && self.edge_list().contains(f) && #[trigger] e.links(a, b)
                    && #[trigger] f.links(b, a) ==> e == f,
    {
        self.lemma_parts();
        assert(self.neighbor_map().dom().contains(a) && self.neighbor_map().dom().contains(b));
        let es = self.edge_list();
        assert forall|e: Edge, f: Edge|
            es.contains(e) && es.contains(f) && #[trigger] e.links(a, b) && #[trigger] f.links(b, a) implies e == f by {
            let i = choose|i: int| 0 <= i < es.len() && es[i] == e;
            let j = choose|j: int| 0 <= j < es.len() && es[j] == f;
            if i < j {
                assert(es[i].links(es[j].relation_a@, es[j].relation_b@));
            } else if j < i {
                assert(es[j].links(es[i].relation_a@, es[i].relation_b@));
            }
        }
    }

    /// The degree of a relation is the number of its neighbours and of its
    /// incident edges, and no degree exceeds the greatest one. No edge is
    /// incident to an unknown name.
    pub proof fn law_degree(&self, name: Seq<char>, greatest: usize)
        requires
            self.wf(),
            forall|n: Seq<char>| #[trigger]
                self.relation_map().contains_key(n) ==> self.neighbor_map()[n].len() <= greatest,
        ensures
            self.relation_map().contains_key(name) ==> self.neighbor_map()[name].len() == self.edge_list().filter(
                |e: Edge| e.touches(name),
            ).len() && self.neighbor_map()[name].len() <= greatest,
            !self.relation_map().contains_key(name) ==> self.edge_list().filter(|e: Edge| e.touches(name)).len() == 0,
    {
        self.lemma_parts();
        let p = |e: Edge| e.touches(name);
        let es = self.edge_list();
        let found = es.filter(p);
        if found.len() > 0 {
            crate::listing::lemma_filter_member(es, p, 0);
        }
        if self.relation_map().contains_key(name) {
            self.lemma_degree(name);
        }
    }

    proof fn lemma_degree(&self, name: Seq<char>)
        requires
            self.wf(),
            self.relation_map().contains_key(name),
        ensures
            self.neighbor_map()[name].len() == self.edge_list().filter(|e: Edge| e.touches(name)).len(),
    {
        self.lemma_parts();
        let p = |e: Edge| e.touches(name);
        let es = self.edge_list();
        let found = es.filter(p);
        let ends = Seq::new(found.len(), |i: int| across(found[i], name));
        let near = self.neighbor_map()[name];
        assert(self.neighbor_map().dom().contains(name));
        assert forall|i: int, j: int| 0 <= i < es.len() && 0 <= j < es.len() && i != j implies es[i] != es[j] by {
            if i < j {
                assert(!es[i].links(es[j].relation_a@, es[j].relation_b@));
            } else {
                assert(!es[j].links(es[i].relation_a@, es[i].relation_b@));
            }
        }
        assert(es.no_duplicates());
        crate::listing::lemma_filter_distinct(es, p);
        assert forall|i: int| 0 <= i < found.len() implies es.contains(#[trigger] found[i]) && found[i].touches(name)
            && near.contains(across(found[i], name)) by {
            crate::listing::lemma_filter_member(es, p, i);
            let k = choose|k: int| 0 <= k < es.len() && es[k] == found[i];
            assert(es[k].links(name, across(found[i], name)));
        }
        assert forall|i: int, j: int| 0 <= i < ends.len() && 0 <= j < ends.len() && i != j implies ends[i]
            != ends[j] by {
            if ends[i] == ends[j] {
                assert(es.contains(found[i]) && es.contains(found[j]));
                assert(found[i].links(name, ends[i]) && found[j].links(ends[i], name));
                assert(self.neighbor_map().contains_key(ends[i]));
                assert(self.relation_map().dom().contains(ends[i]));
                self.law_edges_are_mutual(name, ends[i]);
                assert(found[i] == found[j]);
            }
        }
        assert(ends.to_set() =~= near) by {
            assert forall|b: Seq<char>| near.contains(b) implies ends.to_set().contains(b) by {
                let k = choose|k: int| 0 <= k < es.len() && (#[trigger] es[k]).links(name, b);
                crate::listing::lemma_filter_keeps(es, p, es[k]);
                let i = choose|i: int| 0 <= i < found.len() && found[i] == es[k];
                assert(ends[i] == b);
            }
            assert forall|b: Seq<char>| ends.to_set().contains(b) implies near.contains(b) by {
                let i = choose|i: int| 0 <= i < ends.len() && ends[i] == b;
                assert(near.contains(across(found[i], name)));
            }
        }
        ends.unique_seq_to_set();
    }
}

/// The variables of all relations.
pub open spec fn vertices_of(relations: Map<Seq<char>, Set<Seq<char>>>) -> Set<Seq<char>> {
    Set::new(|v: Seq<char>| exists|r: Seq<char>| #[trigger] holds(relations, r, v))
}

/// Variables are joined where some relation has both.
pub open spec fn primal_of(relations: Map<Seq<char>, Set<Seq<char>>>) -> Map<Seq<char>, Set<Seq<char>>> {
    Map::new(|u: Seq<char>| vertices_of(relations).contains(u), |u: Seq<char>| companions(relations, u))
}

/// The other variables of the relations that have `u`.
pub open spec fn companions(relations: Map<Seq<char>, Set<Seq<char>>>, u: Seq<char>) -> Set<Seq<char>> {
    Set::new(
        |w: Seq<char>| w != u && exists|r: Seq<char>| #[trigger] holds(relations, r, u) && holds(relations, r, w),
    )
}

/// Every variable of an order, each once.
pub open spec fn lists_once(order: Seq<Seq<char>>, vertices: Set<Seq<char>>) -> bool {
    order.no_duplicates() && order.to_set() == vertices
}

impl JoinGraph {
    /// Can every relation be reached from every relation? An empty graph is
    /// connected.
    pub fn is_connected(&self) -> (r: bool)
        requires
            self.wf(),
        ensures
            r == connected(self.neighbor_map()),
    {
        proof {
            self.lemma_parts();
        }
        all_connected(&self.adjacency)
    }

    /// Is the graph of the relations free of cycles?
    pub fn is_acyclic(&self) -> (r: bool)
        requires
            self.wf(),
        ensures
            r == !cyclic(self.neighbor_map()),
    {
        proof {
            self.lemma_parts();
        }
        !has_cycle(&self.adjacency)
    }

    /// The join variables of every relation.
    pub fn relation_sets(&self) -> (r: NameMap<NameSet>)
        requires
            self.wf(),
        ensures
            sets_wf(&r),
            set_map(&r) == self.relation_map(),
            r.keys() == self.names(),
    {
        let mut r = no_sets();
        let mut i: usize = 0;
        proof {
            self.relations.lemma_shape();
        }
        while i < self.relations.len()
            invariant
                self.wf(),
                self.relations.keys().len() == self.relations.values().len(),
                i <= self.relations.keys().len(),
                sets_wf(&r),
                forall|n: Seq<char>| #[trigger]
                    set_map(&r).contains_key(n) <==> exists|j: int| 0 <= j < i && self.relations.keys()[j] == n,
                forall|n: Seq<char>| #[trigger]
                    set_map(&r).contains_key(n) ==> set_map(&r)[n] == self.relation_map()[n],
            decreases self.relations.keys().len() - i,
        {
            proof {
                self.relations.lemma_lookup(i as int);
                assert(self.relations.values()[i as int].wf());
            }
            let ghost before = set_map(&r);
            put_set(&mut r, self.relations.key_at(i), self.relations.value_at(i).variables.clone());
            proof {
                assert forall|n: Seq<char>| #[trigger] set_map(&r).contains_key(n) <==> exists|j: int|
                    0 <= j < i + 1 && self.relations.keys()[j] == n by {
                    if set_map(&r).contains_key(n) {
                        if before.contains_key(n) {
                            let j = choose|j: int| 0 <= j < i && self.relations.keys()[j] == n;
                            assert(0 <= j < i + 1 && self.relations.keys()[j] == n);
                        } else {
                            assert(self.relations.keys()[i as int] == n);
                        }
                    }
                    if exists|j: int| 0 <= j < i + 1 && self.relations.keys()[j] == n {
                        let j = choose|j: int| 0 <= j < i + 1 && self.relations.keys()[j] == n;
                        if j < i {
                            assert(before.contains_key(n));
                        }
                    }
                }
            }
            i += 1;
        }
        proof {
            assert forall|n: Seq<char>| set_map(&r).contains_key(n) == self.relation_map().contains_key(n) by {
                if self.relation_map().contains_key(n) {
                    let j = choose|j: int| 0 <= j < self.relations.keys().len() && self.relations.keys()[j] == n;
                    assert(0 <= j < i && self.relations.keys()[j] == n);
                }
            }
            assert(set_map(&r) =~= self.relation_map());
            lemma_keys(&r);
            assert(self.relation_map().dom() =~= self.names().to_set());
            crate::names::lemma_ascending_unique(r.keys(), self.names());
        }
        r
    }

    /// The hypergraph of the join: its variables, the variable set of each
    /// relation, and which variables occur together.
    pub fn build_hypergraph(&self) -> (r: Hypergraph)
        requires
            self.wf(),
        ensures
            r.describes(self.names(), self.relation_map()),
    {
        let sets = self.relation_sets();
        let vertices = collect_vertices(&sets);
        let primal_graph = build_primal_graph(&vertices, &sets);
        let mut hyperedges: Vec<Hyperedge> = Vec::new();
        let mut i: usize = 0;
        while i < sets.len()
            invariant
                sets_wf(&sets),
                i <= sets.keys().len(),
                hyperedges@.len() == i,
                forall|j: int|
                    0 <= j < i ==> (#[trigger] hyperedges@[j]).relation_name@ == sets.keys()[j]
                        && hyperedges@[j].variables.wf() && hyperedges@[j].variables@ == set_map(&sets)[sets.keys()[j]],
            decreases sets.keys().len() - i,
        {
            proof {
                lemma_keys(&sets);
                assert(set_map(&sets).contains_key(sets.keys()[i as int]));
            }
            hyperedges.push(
                Hyperedge { relation_name: sets.key_at(i).to_string(), variables: sets.value_at(i).clone() },
            );
            i += 1;
        }
        Hypergraph { vertices, hyperedges, primal_graph }
    }

    /// Is the hypergraph of the join acyclic, by GYO reduction? It is where the
    /// relations have a join tree.
    pub fn is_acyclic_gyo(&self) -> (r: bool)
        requires
            self.wf(),
        ensures
            r == gyo_acyclic(self.relation_map()),
            r == has_join_tree(self.relation_map()),
    {
        let sets = self.relation_sets();
        let vertices = collect_vertices(&sets);
        build_join_tree(sets, &vertices).acyclic
    }

    /// A variable order for the evaluation of the join: depth first over the
    /// join tree if the hypergraph is acyclic, else by minimum fill.
    pub fn build_variable_order(&self) -> (r: VariableOrder)
        requires
            self.wf(),
        ensures
            r.acyclic() == gyo_acyclic(self.relation_map()),
            r.acyclic() == has_join_tree(self.relation_map()),
            r.elimination() == r.prefix().reverse(),
            lists_once(r.prefix(), vertices_of(self.relation_map())),
            lists_once(r.elimination(), vertices_of(self.relation_map())),
            sets_wf(&r.tree()),
            r.acyclic() ==> {
                &&& r.derived_by() == VariableOrderMethod::GyoJoinTree
                &&& set_map(&r.tree()) == join_tree_of(self.relation_map())
                &&& is_join_tree(self.relation_map(), set_map(&r.tree()))
                &&& r.prefix() == join_tree_order(
                    self.relation_map(),
                    join_tree_of(self.relation_map()),
                    vertices_of(self.relation_map()),
                )
            },
            !r.acyclic() ==> {
                &&& r.derived_by() == VariableOrderMethod::MinFill
                &&& set_map(&r.tree()) == Map::<Seq<char>, Set<Seq<char>>>::empty()
                &&& r.elimination() == elimination(primal_of(self.relation_map()))
            },
    {
        let sets = self.relation_sets();
        let vertices = collect_vertices(&sets);
        let ghost rels = self.relation_map();
        proof {
            lemma_keys(&sets);
            if vertices@ != Set::<Seq<char>>::empty() {
                assert(exists|v: Seq<char>| vertices@.contains(v)) by {
                    if forall|v: Seq<char>| !vertices@.contains(v) {
                        assert(vertices@ =~= Set::empty());
                    }
                }
                let v = choose|v: Seq<char>| vertices@.contains(v);
                let e = choose|e: Seq<char>| #[trigger] holds(rels, e, v);
                assert(rels.contains_key(e));
            }
        }
        let result = build_join_tree(copy_sets(&sets), &vertices);
        if result.acyclic {
            let prefix = derive_prefix_order(&sets, &result.join_tree, &vertices);
            let elimination = reverse_strings(prefix.as_slice());
            proof {
                law_join_tree_order_lists_each_variable_once(&sets, set_map(&result.join_tree), &vertices);
                lemma_reverse_lists(prefix@.map_values(text()), vertices@);
            }
            VariableOrder::new(prefix, elimination, true, result.join_tree, VariableOrderMethod::GyoJoinTree)
        } else {
            let primal = build_primal_graph(&vertices, &sets);
            proof {
                lemma_primal(rels);
                assert(set_map(&primal).dom() =~= vertices@);
            }
            let elimination = min_fill_elimination_order(&primal);
            let prefix = reverse_strings(elimination.as_slice());
            proof {
                lemma_reverse_lists(elimination@.map_values(text()), vertices@);
                assert(elimination@.map_values(text()).reverse().reverse() =~= elimination@.map_values(text()));
            }
            VariableOrder::new(prefix, elimination, false, no_sets(), VariableOrderMethod::MinFill)
        }
    }
}

proof fn lemma_reverse_lists(order: Seq<Seq<char>>, vertices: Set<Seq<char>>)
    requires
        lists_once(order, vertices),
    ensures
        lists_once(order.reverse(), vertices),
{
    let r = order.reverse();
    assert forall|v: Seq<char>| r.to_set().contains(v) == order.to_set().contains(v) by {
        if r.to_set().contains(v) {
            let i = choose|i: int| 0 <= i < r.len() && r[i] == v;
            assert(order[r.len() - 1 - i] == v);
        }
        if order.to_set().contains(v) {
            let i = choose|i: int| 0 <= i < order.len() && order[i] == v;
            assert(r[order.len() - 1 - i] == v);
        }
    }
    assert(r.to_set() =~= vertices);
}

/// The primal graph goes both ways.
proof fn lemma_primal(relations: Map<Seq<char>, Set<Seq<char>>>)
    ensures
        undirected(primal_of(relations)),
{
    let g = primal_of(relations);
    assert forall|a: Seq<char>, b: Seq<char>| g.contains_key(a) && #[trigger] g[a].contains(b) implies a != b
        && g.contains_key(b) && g[b].contains(a) by {
        let r = choose|r: Seq<char>| #[trigger] holds(relations, r, a) && holds(relations, r, b);
        assert(holds(relations, r, b) && holds(relations, r, a));
    }
}

/// The variables of all relations.
fn collect_vertices(sets: &NameMap<NameSet>) -> (r: NameSet)
    requires
        sets_wf(sets),
    ensures
        r.wf(),
        r@ == vertices_of(set_map(sets)),
{
    let ghost rels = set_map(sets);
    let mut r = NameSet::new();
    let mut i: usize = 0;
    while i < sets.len()
        invariant
            sets_wf(sets),
            rels == set_map(sets),
            i <= sets.keys().len(),
            r.wf(),
            forall|v: Seq<char>| #[trigger]
                r@.contains(v) <==> exists|j: int| 0 <= j < i && (#[trigger] sets.values()[j])@.contains(v),
        decreases sets.keys().len() - i,
    {
        proof {
            lemma_keys(sets);
            assert(rels.contains_key(sets.keys()[i as int]));
        }
        let ghost r0 = r@;
        add_all(&mut r, sets.value_at(i));
        proof {
            assert forall|v: Seq<char>| #[trigger] r@.contains(v) <==> exists|j: int|
                0 <= j < i + 1 && (#[trigger] sets.values()[j])@.contains(v) by {
                if r0.contains(v) {
                    let j = choose|j: int| 0 <= j < i && (#[trigger] sets.values()[j])@.contains(v);
                    assert(sets.values()[j]@.contains(v));
                } else if r@.contains(v) {
                    assert(sets.values()[i as int]@.contains(v));
                }
            }
        }
        i += 1;
    }
    proof {
        lemma_keys(sets);
        assert forall|v: Seq<char>| r@.contains(v) == vertices_of(rels).contains(v) by {
            if r@.contains(v) {
                let j = choose|j: int| 0 <= j < i && (#[trigger] sets.values()[j])@.contains(v);
                assert(rels.contains_key(sets.keys()[j]));
                assert(holds(rels, sets.keys()[j], v));
            }
            if vertices_of(rels).contains(v) {
                let e = choose|e: Seq<char>| #[trigger] holds(rels, e, v);
                assert(rels.contains_key(e));
                let j = choose|j: int| 0 <= j < sets.keys().len() && sets.keys()[j] == e;
                assert(rels.contains_key(sets.keys()[j]));
                assert(sets.values()[j]@.contains(v));
            }
        }
        assert(r@ =~= vertices_of(rels));
    }
    r
}

/// Adds every name of `more` to `set`.
fn add_all(set: &mut NameSet, more: &NameSet)
    requires
        old(set).wf(),
        more.wf(),
    ensures
        final(set).wf(),
        final(set)@ == old(set)@.union(more@),
{
    let ghost base = set@;
    let mut k: usize = 0;
    while k < more.len()
        invariant
            more.wf(),
            set.wf(),
            k <= more.listed().len(),
            set@ == base.union(more.listed().take(k as int).to_set()),
        decreases more.listed().len() - k,
    {
        set.insert(more.get(k));
        proof {
            let l = more.listed();
            assert(l.take(k + 1) =~= l.take(k as int).push(l[k as int]));
            l.take(k as int).lemma_push_to_set_commute(l[k as int]);
            assert(set@ =~= base.union(l.take(k + 1).to_set()));
        }
        k += 1;
    }
    proof {
        more.lemma_listed();
        assert(more.listed().take(k as int) =~= more.listed());
    }
    assert(more.listed().take(0).to_set() =~= Set::empty());
}

/// Which variables occur together in a relation.
fn build_primal_graph(vertices: &NameSet, sets: &NameMap<NameSet>) -> (r: NameMap<NameSet>)
    requires
        sets_wf(sets),
        vertices.wf(),
        vertices@ == vertices_of(set_map(sets)),
    ensures
        sets_wf(&r),
        set_map(&r) == primal_of(set_map(sets)),
{
    let ghost rels = set_map(sets);
    let mut r = no_sets();
    let mut i: usize = 0;
    while i < vertices.len()
        invariant
            sets_wf(sets),
            rels == set_map(sets),
            vertices.wf(),
            i <= vertices.listed().len(),
            sets_wf(&r),
            forall|n: Seq<char>| #[trigger]
                set_map(&r).contains_key(n) <==> exists|j: int| 0 <= j < i && #[trigger] vertices.listed()[j] == n,
            forall|n: Seq<char>| #[trigger] set_map(&r).contains_key(n) ==> set_map(&r)[n] == companions(rels, n),
        decreases vertices.listed().len() - i,
    {
        let ghost before = set_map(&r);
        let u = vertices.get(i);
        let set = collect_companions(sets, u);
        put_set(&mut r, u, set);
        proof {
            assert forall|n: Seq<char>| #[trigger] set_map(&r).contains_key(n) <==> exists|j: int|
                0 <= j < i + 1 && #[trigger] vertices.listed()[j] == n by {
                if before.contains_key(n) {
                    let j = choose|j: int| 0 <= j < i && #[trigger] vertices.listed()[j] == n;
                    assert(vertices.listed()[j] == n);
                } else if set_map(&r).contains_key(n) {
                    assert(vertices.listed()[i as int] == n);
                }
                if exists|j: int| 0 <= j < i + 1 && #[trigger] vertices.listed()[j] == n {
                    let j = choose|j: int| 0 <= j < i + 1 && #[trigger] vertices.listed()[j] == n;
                    if j < i {
                        assert(before.contains_key(n));
                    }
                }
            }
        }
        i += 1;
    }
    proof {
        vertices.lemma_listed();
        assert forall|n: Seq<char>| set_map(&r).contains_key(n) == primal_of(rels).contains_key(n) by {
            if primal_of(rels).contains_key(n) {
                assert(vertices.listed().to_set().contains(n));
                let j = choose|j: int| 0 <= j < vertices.listed().len() && vertices.listed()[j] == n;
                assert(vertices.listed()[j] == n);
            }
            if set_map(&r).contains_key(n) {
                let j = choose|j: int| 0 <= j < i && #[trigger] vertices.listed()[j] == n;
                assert(vertices.listed().to_set().contains(n));
            }
        }
        assert(set_map(&r) =~= primal_of(rels));
    }
    r
}

/// The other variables of the relations that have `u`.
fn collect_companions(sets: &NameMap<NameSet>, u: &str) -> (r: NameSet)
    requires
        sets_wf(sets),
    ensures
        r.wf(),
        r@ == companions(set_map(sets), u@),
{
    let ghost rels = set_map(sets);
    let mut r = NameSet::new();
    let mut i: usize = 0;
    while i < sets.len()
        invariant
            sets_wf(sets),
            rels == set_map(sets),
            i <= sets.keys().len(),
            r.wf(),
            forall|w: Seq<char>| #[trigger]
                r@.contains(w) <==> exists|j: int|
                    0 <= j < i && (#[trigger] sets.values()[j])@.contains(u@) && sets.values()[j]@.contains(w),
        decreases sets.keys().len() - i,
    {
        proof {
            lemma_keys(sets);
            assert(rels.contains_key(sets.keys()[i as int]));
        }
        let ghost r0 = r@;
        if sets.value_at(i).contains(u) {
            add_all(&mut r, sets.value_at(i));
        }
        proof {
            assert forall|w: Seq<char>| #[trigger] r@.contains(w) <==> exists|j: int|
                0 <= j < i + 1 && (#[trigger] sets.values()[j])@.contains(u@) && sets.values()[j]@.contains(w) by {
                if r0.contains(w) {
                    let j = choose|j: int|
                        0 <= j < i && (#[trigger] sets.values()[j])@.contains(u@) && sets.values()[j]@.contains(w);
                    assert(sets.values()[j]@.contains(u@));
                } else if r@.contains(w) {
                    assert(sets.values()[i as int]@.contains(w));
                }
            }
        }
        i += 1;
    }
    r.remove(u);
    proof {
        lemma_keys(sets);
        assert forall|w: Seq<char>| r@.contains(w) == companions(rels, u@).contains(w) by {
            if r@.contains(w) {
                let j = choose|j: int|
                    0 <= j < i && (#[trigger] sets.values()[j])@.contains(u@) && sets.values()[j]@.contains(w);
                assert(rels.contains_key(sets.keys()[j]));
                assert(holds(rels, sets.keys()[j], u@) && holds(rels, sets.keys()[j], w));
            }
            if companions(rels, u@).contains(w) {
                let e = choose|e: Seq<char>| #[trigger] holds(rels, e, u@) && holds(rels, e, w);
                assert(rels.contains_key(e));
                let j = choose|j: int| 0 <= j < sets.keys().len() && sets.keys()[j] == e;
                assert(rels.contains_key(sets.keys()[j]));
                assert(sets.values()[j]@.contains(u@) && sets.values()[j]@.contains(w));
            }
        }
        assert(r@ =~= companions(rels, u@));
    }
    r
}

/// Hypergraph of a join: vertices are join variables, hyperedges the variable
/// sets of the relations, and the primal graph joins the variables that occur
/// together.
#[derive(Clone, Debug)]
pub struct Hypergraph {
    pub vertices: NameSet,
    pub hyperedges: Vec<Hyperedge>,
    pub primal_graph: NameMap<NameSet>,
}

/// A relation with its variables.
#[derive(Clone, Debug, PartialEq, Eq)]
pub struct Hyperedge {
    pub relation_name: String,
    pub variables: NameSet,
}

impl Hypergraph {
    /// The hypergraph of the given relations, in the given order.
    pub open spec fn describes(
        &self,
        names: Seq<Seq<char>>,
        relations: Map<Seq<char>, Set<Seq<char>>>,
    ) -> bool {
        &&& self.vertices.wf()
        &&& self.vertices@ == vertices_of(relations)
        &&& self.hyperedges@.len() == names.len()
        &&& forall|i: int|
            0 <= i < names.len() ==> {
                let h = #[trigger] self.hyperedges@[i];
                &&& h.relation_name@ == names[i]
                &&& h.variables.wf()
                &&& h.variables@ == relations[names[i]]
            }
        &&& sets_wf(&self.primal_graph)
        &&& set_map(&self.primal_graph) == primal_of(relations)
    }
}

impl Default for JoinGraph {
    fn default() -> (r: Self)
        ensures
            r.wf(),
            r.relation_map() == Map::<Seq<char>, Set<Seq<char>>>::empty(),
            r.edge_list() == Seq::<Edge>::empty(),
    {
        Self::new()
    }
}

} // verus!
