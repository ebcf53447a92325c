//! Incremental aggregation over an N-way join.
use vstd::prelude::*;

pub use crate::operator::multiway_spec::{MultiWayAggregateSpec, MultiWayCount};

use crate::algebra::{lemma_total_additive, lemma_total_filter, lemma_total_reorder, monoid, total};
use crate::listing::{
    concat, dup, inserted, lawful, lemma_inserted_multiset, lemma_map_filter, lemma_multiset_images, repeated, same,
};
use crate::names::{lemma_ascending_distinct, same_name, text, NameMap, NameSet};
use crate::operator::graph_search::{connected, is_walk, reaches, step, step_at};
use crate::operator::join_sums::{
    branch, join_sum, lemma_join_sum_front, lemma_join_sum_reorder, lemma_join_sum_same_items, lemma_total_same,
};
use crate::operator::multiway_spec::{
    count_plus, edge_fits, found_plus, found_zero, is_multiway_ring, join_count, join_total, lemma_broken_tuple,
    lemma_found_monoid, lemma_found_parts, minus_of, payload_map, payload_plus, plus_of, slot_of, tuple_fits,
    tuple_found, tuple_value,
};
use crate::operator::swag_ctrie::{matches_partial, pairs, selects, CTrieIndex};
use crate::operator::swag_join::{lemma_record_lawful, JoinRecord, VariableOrder};
use crate::operator::swag_join_graph::{linked, Edge, FactorizedViewPlan, JoinGraph};
use crate::operator::swag_multiway_cache::{RangeCache, RangeCacheKey};
use crate::operator::time_index::{entry_items, TimeIndexEntry};

verus! {

/// `f` may be called with `e` and then has one result only.
pub open spec fn determined<E, T, F: Fn(&E) -> T>(f: F, e: E) -> bool {
    &&& call_requires(f, (&e,))
    &&& forall|a: T, b: T| #[trigger]
        call_ensures(f, (&e,), a) && #[trigger] call_ensures(f, (&e,), b) ==> a == b
}

/// The result of calling `f` with `e`.
pub open spec fn result_of<E, T, F: Fn(&E) -> T>(f: F, e: E) -> T {
    choose|t: T| call_ensures(f, (&e,), t)
}

fn apply<E, T, F: Fn(&E) -> T>(f: &F, e: &E) -> (r: T)
    requires
        determined::<E, T, F>(*f, *e),
    ensures
        r == result_of::<E, T, F>(*f, *e),
{
    let r = f(e);
    assert(call_ensures(*f, (e,), r));
    r
}

/// The extractors of a relation: one for the join key, one for the payload.
pub struct RelationExtractors<FK, FP> {
    pub key: FK,
    pub payload: FP,
}

impl<FK, FP> RelationExtractors<FK, FP> {
    pub fn new(key: FK, payload: FP) -> (r: Self)
        ensures
            r == (RelationExtractors { key, payload }),
    {
        RelationExtractors { key, payload }
    }
}

/// The index of the elements of `relation` for joins with `neighbor`.
pub struct EdgeIndex<K, T> {
    pub relation: String,
    pub neighbor: String,
    pub index: CTrieIndex<K, T>,
}

/// The windows in which an element of `relation` at `t` looks for partners, one
/// for each edge of the relation, lie within the range of timestamps.
pub open spec fn stamp_fits(edges: Seq<Edge>, relation: Seq<char>, t: i64) -> bool {
    forall|i: int|
        0 <= i < edges.len() && (#[trigger] edges[i]).touches(relation) ==> {
            let window = edges[i].window(t as int, relation);
            &&& i64::MIN <= window.0 <= i64::MAX
            &&& i64::MIN <= window.1 <= i64::MAX
        }
}

/// An item as the index keeps it.
pub open spec fn index_item<E, K, P>(keys: spec_fn(Seq<char>, E) -> K, relation: Seq<char>) -> spec_fn(
    (i64, JoinRecord<E, P>),
) -> (Seq<K>, i64, JoinRecord<E, P>) {
    |it: (i64, JoinRecord<E, P>)| (seq![keys(relation, it.1.element)], it.0, it.1)
}

/// The item has the join key and lies in the time range.
pub open spec fn picks<E, K, P>(
    keys: spec_fn(Seq<char>, E) -> K,
    relation: Seq<char>,
    key: K,
    start: i64,
    end: i64,
) -> spec_fn((i64, JoinRecord<E, P>)) -> bool {
    |it: (i64, JoinRecord<E, P>)| keys(relation, it.1.element) == key && start <= it.0 <= end
}

/// What the join is over: the graph, the ring, the extractors and the indexed
/// elements.
pub struct JoinCore<E, K, S: MultiWayAggregateSpec, FK, FP> {
    graph: JoinGraph,
    spec: S,
    extractors: NameMap<RelationExtractors<FK, FP>>,
    indices: Vec<EdgeIndex<K, JoinRecord<E, S::P>>>,
    view_plan: FactorizedViewPlan,
    contents: Ghost<Map<Seq<char>, Seq<(i64, JoinRecord<E, S::P>)>>>,
}

impl<E, K, S: MultiWayAggregateSpec, FK, FP> JoinCore<E, K, S, FK, FP> {
    pub closed spec fn ring(&self) -> S {
        self.spec
    }

    pub closed spec fn topology(&self) -> JoinGraph {
        self.graph
    }

    pub open spec fn names(&self) -> Seq<Seq<char>> {
        self.topology().names()
    }

    pub open spec fn edges(&self) -> Seq<Edge> {
        self.topology().edge_list()
    }

    pub closed spec fn plan(&self) -> FactorizedViewPlan {
        self.view_plan
    }

    /// The elements of every relation with their timestamps and payloads.
    pub closed spec fn items(&self) -> Map<Seq<char>, Seq<(i64, JoinRecord<E, S::P>)>> {
        self.contents@
    }

    pub closed spec fn extractor(&self, relation: Seq<char>) -> RelationExtractors<FK, FP> {
        self.extractors@[relation]
    }
}

impl<E: Eq + Clone, K: Eq + Clone, S: MultiWayAggregateSpec, FK: Fn(&E) -> K, FP: Fn(&E) -> S::P> JoinCore<
    E,
    K,
    S,
    FK,
    FP,
> {
    /// Same graph, ring and extractors.
    pub open spec fn agrees(&self, other: &Self) -> bool {
        &&& self.topology() == other.topology()
        &&& self.ring() == other.ring()
        &&& forall|n: Seq<char>| #[trigger] self.extractor(n) == other.extractor(n)
    }

    /// The join key of an element of a relation.
    pub open spec fn keys(&self) -> spec_fn(Seq<char>, E) -> K {
        |n: Seq<char>, e: E| result_of::<E, K, FK>(self.extractor(n).key, e)
    }

    /// The element may be handed to the extractors of the relation.
    pub open spec fn accepts(&self, relation: Seq<char>, e: E) -> bool {
        &&& determined::<E, K, FK>(self.extractor(relation).key, e)
        &&& determined::<E, S::P, FP>(self.extractor(relation).payload, e)
    }

    pub open spec fn payload_of(&self, relation: Seq<char>, e: E) -> S::P {
        result_of::<E, S::P, FP>(self.extractor(relation).payload, e)
    }

    spec fn item_ok(&self, relation: Seq<char>, it: (i64, JoinRecord<E, S::P>)) -> bool {
        &&& determined::<E, K, FK>(self.extractor(relation).key, it.1.element)
        &&& stamp_fits(self.edges(), relation, it.0)
    }

    spec fn index_ok(&self, slot: EdgeIndex<K, JoinRecord<E, S::P>>) -> bool {
        &&& self.items().contains_key(slot.relation@)
        &&& slot.index.wf()
        &&& slot.index.depth() == 1
        &&& slot.index@.to_multiset() == self.items()[slot.relation@].map_values(
            index_item(self.keys(), slot.relation@),
        ).to_multiset()
    }

    /// Types, ring, graph and extractors are as the join needs them.
    pub closed spec fn set_up(&self) -> bool {
        &&& lawful::<E>()
        &&& lawful::<K>()
        &&& lawful::<S::P>()
        &&& is_multiway_ring(self.spec)
        &&& self.graph.wf()
        &&& connected(self.graph.neighbor_map())
        &&& forall|n: Seq<char>| #[trigger]
            self.graph.relation_map().contains_key(n) ==> self.graph.neighbor_map()[n] != Set::<Seq<char>>::empty()
        &&& self.extractors.wf()
        &&& self.extractors@.dom() == self.graph.relation_map().dom()
        &&& self.view_plan.wf()
        &&& self.view_plan.relations() == self.graph.relation_map()
    }

    /// Every pair of neighbours has an index that holds what the relation
    /// holds.
    pub closed spec fn wf(&self) -> bool {
        &&& self.set_up()
        &&& self.items().dom() == self.graph.relation_map().dom()
        &&& forall|n: Seq<char>, i: int|
            self.items().contains_key(n) && 0 <= i < self.items()[n].len() ==> self.item_ok(
                n,
                #[trigger] self.items()[n][i],
            )
        &&& forall|i: int| 0 <= i < self.indices@.len() ==> self.index_ok(#[trigger] self.indices@[i])
        &&& forall|a: Seq<char>, b: Seq<char>| #[trigger]
            linked(self.edges(), a, b) ==> exists|i: int| 0 <= i < self.indices@.len() && is_slot(self.indices@[i], a, b)
        &&& forall|n: Seq<char>| #[trigger]
            self.items().contains_key(n) ==> exists|i: int|
                0 <= i < self.indices@.len() && (#[trigger] self.indices@[i]).relation@ == n
    }

    /// The part that looks at a range of a relation.
    spec fn selected(
        &self,
        relation: Seq<char>,
        key: K,
        start: i64,
        end: i64,
    ) -> Seq<(i64, JoinRecord<E, S::P>)> {
        self.items()[relation].filter(picks(self.keys(), relation, key, start, end))
    }

    /// Every cached answer is what the index would give.
    spec fn cache_ok(&self, cache: RangeCache<K, E, S::P>) -> bool {
        &&& cache.wf()
        &&& forall|i: int|
            0 <= i < cache@.len() ==> self.answer_ok((#[trigger] cache@[i]).0, cache@[i].1)
    }

    spec fn answer_ok(
        &self,
        key: (Seq<char>, Seq<char>, K, i64, i64),
        entries: Seq<TimeIndexEntry<JoinRecord<E, S::P>>>,
    ) -> bool {
        &&& concat(entries, entry_items()).to_multiset() == self.selected(
            key.0,
            key.2,
            key.3,
            key.4,
        ).to_multiset()
        &&& forall|i: int| 0 <= i < entries.len() ==> (#[trigger] entries[i]).count > 0
    }

    /// Value and count of the tuples that extend `bound` by the names.
    spec fn found(
        &self,
        names: Seq<Seq<char>>,
        bound: Map<Seq<char>, (i64, JoinRecord<E, S::P>)>,
    ) -> (S::V, u64) {
        join_sum(
            found_zero(self.ring()),
            found_plus(self.ring()),
            tuple_found(self.ring(), self.edges(), self.keys()),
            names,
            self.items(),
            bound,
        )
    }

    /// The key extractor's result for an element of a relation.
    fn key_of(&self, relation: &str, element: &E) -> (r: K)
        requires
            self.set_up(),
            self.topology().relation_map().contains_key(relation@),
            determined::<E, K, FK>(self.extractor(relation@).key, *element),
        ensures
            r == self.keys()(relation@, *element),
    {
        assert(self.extractors@.dom().contains(relation@));
        let extractors = self.extractors.get(relation).unwrap();
        apply(&extractors.key, element)
    }
}

/// Copies entries.
fn copy_entries<T: Eq + Clone>(entries: &Vec<TimeIndexEntry<T>>) -> (r: Vec<TimeIndexEntry<T>>)
    requires
        lawful::<T>(),
    ensures
        r@ == entries@,
{
    let mut r: Vec<TimeIndexEntry<T>> = Vec::new();
    let mut i: usize = 0;
    while i < entries.len()
        invariant
            lawful::<T>(),
            i <= entries@.len(),
            r@ == entries@.take(i as int),
        decreases entries@.len() - i,
    {
        let e = &entries[i];
        r.push(TimeIndexEntry { timestamp: e.timestamp, payload: dup(&e.payload), count: e.count });
        assert(r@ =~= entries@.take(i + 1));
        i += 1;
    }
    assert(entries@.take(i as int) =~= entries@);
    r
}

impl<E: Eq + Clone, K: Eq + Clone, S: MultiWayAggregateSpec, FK: Fn(&E) -> K, FP: Fn(&E) -> S::P> JoinCore<
    E,
    K,
    S,
    FK,
    FP,
> {
    /// A range query of a sound index finds what the relation holds there.
    proof fn lemma_index_query(&self, slot: EdgeIndex<K, JoinRecord<E, S::P>>, key: K, start: i64, end: i64)
        requires
            self.index_ok(slot),
        ensures
            pairs(slot.index@.filter(selects(seq![Some(key)], start, end))).to_multiset() == self.selected(
                slot.relation@,
                key,
                start,
                end,
            ).to_multiset(),
    {
        let relation = slot.relation@;
        let items = self.items()[relation];
        let g = index_item::<E, K, S::P>(self.keys(), relation);
        let p = selects::<K, JoinRecord<E, S::P>>(seq![Some(key)], start, end);
        let q = picks::<E, K, S::P>(self.keys(), relation, key, start, end);
        let pair = |it: (Seq<K>, i64, JoinRecord<E, S::P>)| (it.1, it.2);
        assert forall|a: (i64, JoinRecord<E, S::P>)| #[trigger] q(a) == p(g(a)) by {
            let partial = seq![Some(key)];
            let full = seq![self.keys()(relation, a.1.element)];
            assert(partial[0] == Some(key));
            if matches_partial(partial, full) {
                assert(full[0] == partial[0]->0);
            }
        }
        lemma_map_filter(items, g, p, q);
        lemma_multiset_images(slot.index@, items.map_values(g), pair, p);
        let found = slot.index@.filter(p);
        let kept = items.filter(q).map_values(g);
        lemma_multiset_images(found, kept, pair, p);
        assert(kept.map_values(pair) =~= items.filter(q));
        assert(pairs(found) =~= found.map_values(pair));
    }

    /// Where the index of `relation` for joins with `neighbor` stands.
    fn find_index(&self, relation: &str, neighbor: &str) -> (r: usize)
        requires
            self.wf(),
            linked(self.edges(), relation@, neighbor@),
        ensures
            r < self.indices@.len(),
            is_slot(self.indices@[r as int], relation@, neighbor@),
    {
        let mut i: usize = 0;
        while i < self.indices.len()
            invariant
                i <= self.indices@.len(),
                forall|j: int| 0 <= j < i ==> !is_slot(#[trigger] self.indices@[j], relation@, neighbor@),
                exists|j: int| 0 <= j < self.indices@.len() && is_slot(#[trigger] self.indices@[j], relation@, neighbor@),
            decreases self.indices@.len() - i,
        {
            let slot = &self.indices[i];
            if same_name(slot.relation.as_str(), relation) && same_name(slot.neighbor.as_str(), neighbor) {
                return i;
            }
            i += 1;
        }
        proof {
            assert(false);
        }
        0
    }

    /// The items of `next` under a join key in a time range, from the cache or
    /// from the index.
    fn query_entries(
        &self,
        cache: &mut RangeCache<K, E, S::P>,
        next: &str,
        driver: &str,
        key: K,
        start: i64,
        end: i64,
    ) -> (r: Vec<TimeIndexEntry<JoinRecord<E, S::P>>>)
        requires
            self.wf(),
            self.cache_ok(*old(cache)),
            linked(self.edges(), next@, driver@),
        ensures
            self.cache_ok(*final(cache)),
            self.answer_ok((next@, driver@, key, start, end), r@),
    {
        proof {
            lemma_record_lawful::<E, S::P>();
        }
        let cache_key = RangeCacheKey::new(next, driver, dup(&key), start, end);
        match cache.get(&cache_key) {
            Some(cached) => {
                proof {
                    let i = choose|i: int| 0 <= i < cache@.len() && cache@[i] == (cache_key@, cached@);
                    assert(self.answer_ok(cache@[i].0, cache@[i].1));
                }
                copy_entries(cached)
            },
            None => {
                let at = self.find_index(next, driver);
                assert(self.index_ok(self.indices@[at as int]));
                let ghost k = key;
                let mut partial: Vec<Option<K>> = Vec::new();
                partial.push(Some(key));
                assert(partial@ =~= seq![Some(k)]);
                let fresh = self.indices[at].index.query_range_entries(partial.as_slice(), start, end);
                proof {
                    self.lemma_index_query(self.indices@[at as int], k, start, end);
                }
                let ghost before = cache@;
                cache.put(cache_key, copy_entries(&fresh));
                proof {
                    assert forall|i: int| 0 <= i < cache@.len() implies self.answer_ok(
                        (#[trigger] cache@[i]).0,
                        cache@[i].1,
                    ) by {
                        let shift = if before.len() >= cache.capacity() { 1int } else { 0 };
                        if i + shift < before.len() {
                            assert(cache@[i] == before[i + shift]);
                            assert(self.answer_ok(before[i + shift].0, before[i + shift].1));
                        } else {
                            assert(cache@[i] == (cache_key@, fresh@));
                        }
                    }
                }
                fresh
            },
        }
    }

    /// Does the candidate satisfy its edges to the relations that are bound?
    fn is_compatible(
        &self,
        candidate: &str,
        item: &(i64, JoinRecord<E, S::P>),
        bound: &NameMap<(i64, JoinRecord<E, S::P>)>,
    ) -> (r: bool)
        requires
            self.set_up(),
            bound.wf(),
            self.topology().relation_map().contains_key(candidate@),
            !bound@.contains_key(candidate@),
            self.item_ok(candidate@, *item),
            forall|n: Seq<char>| #[trigger]
                bound@.contains_key(n) ==> self.topology().relation_map().contains_key(n) && self.item_ok(n, bound@[n]),
            tuple_fits(self.edges(), self.keys(), bound@),
        ensures
            r == tuple_fits(self.edges(), self.keys(), bound@.insert(candidate@, *item)),
    {
        let edges = self.graph.edges();
        let ghost more = bound@.insert(candidate@, *item);
        let ghost keys = self.keys();
        let mut i: usize = 0;
        while i < edges.len()
            invariant
                self.set_up(),
                edges@ == self.edges(),
                bound.wf(),
                keys == self.keys(),
                more == bound@.insert(candidate@, *item),
                self.topology().relation_map().contains_key(candidate@),
                !bound@.contains_key(candidate@),
                self.item_ok(candidate@, *item),
                forall|n: Seq<char>| #[trigger]
                    bound@.contains_key(n) ==> self.topology().relation_map().contains_key(n) && self.item_ok(
                        n,
                        bound@[n],
                    ),
                tuple_fits(self.edges(), keys, bound@),
                i <= edges@.len(),
                forall|j: int|
                    0 <= j < i && more.contains_key((#[trigger] edges@[j]).relation_a@) && more.contains_key(
                        edges@[j].relation_b@,
                    ) ==> edge_fits(edges@[j], keys, more[edges@[j].relation_a@], more[edges@[j].relation_b@]),
            decreases edges@.len() - i,
        {
            let edge = &edges[i];
            proof {
                self.graph.lemma_parts();
                assert(self.edges()[i as int].wf());
            }
            if let Some(other) = edge.other(candidate) {
                if let Some(partner) = bound.get(other) {
                    assert(self.item_ok(other@, bound@[other@]));
                    let window = edge.window_bounds(partner.0, other);
                    if let Some((start, end)) = window {
                        if item.0 < start || item.0 > end {
                            assert(!edge_fits(
                                edges@[i as int],
                                keys,
                                more[edges@[i as int].relation_a@],
                                more[edges@[i as int].relation_b@],
                            ));
                            return false;
                        }
                    }
                    let bound_key = self.key_of(other, &partner.1.element);
                    let candidate_key = self.key_of(candidate, &item.1.element);
                    if !same(&bound_key, &candidate_key) {
                        assert(!edge_fits(
                            edges@[i as int],
                            keys,
                            more[edges@[i as int].relation_a@],
                            more[edges@[i as int].relation_b@],
                        ));
                        return false;
                    }
                }
            }
            i += 1;
        }
        true
    }
}

/// The order lists the names, each once.
spec fn orders(order: Seq<String>, names: Seq<Seq<char>>) -> bool {
    &&& order.map_values(text()).no_duplicates()
    &&& order.map_values(text()).to_set() == names.to_set()
}

/// Leaving a set, a walk crosses its border.
proof fn lemma_crossing(
    g: Map<Seq<char>, Set<Seq<char>>>,
    inside: Set<Seq<char>>,
    p: Seq<Seq<char>>,
    k: int,
) -> (r: (Seq<char>, Seq<char>))
    requires
        is_walk(g, p),
        0 <= k < p.len(),
        inside.contains(p[0]),
        !inside.contains(p[k]),
    ensures
        inside.contains(r.0),
        !inside.contains(r.1),
        step(g, r.0, r.1),
    decreases k,
{
    assert(step_at(g, p, k - 1));
    if inside.contains(p[k - 1]) {
        (p[k - 1], p[k])
    } else {
        lemma_crossing(g, inside, p, k - 1)
    }
}

/// Adds a name to an order that lacks it.
fn push_new(order: &mut Vec<String>, seen: &mut NameSet, name: &str)
    requires
        old(seen).wf(),
        old(order)@.map_values(text()).no_duplicates(),
        old(order)@.map_values(text()).to_set() == old(seen)@,
    ensures
        final(seen).wf(),
        final(order)@.map_values(text()).no_duplicates(),
        final(order)@.map_values(text()).to_set() == final(seen)@,
        final(seen)@ == old(seen)@.insert(name@),
{
    let ghost before = order@.map_values(text());
    if seen.insert(name) {
        order.push(name.to_string());
        proof {
            assert(order@.map_values(text()) =~= before.push(name@));
            assert(!before.contains(name@)) by {
                if before.contains(name@) {
                    assert(before.to_set().contains(name@));
                }
            }
            before.lemma_push_to_set_commute(name@);
        }
    } else {
        assert(seen@ =~= before.to_set());
    }
}

impl<E: Eq + Clone, K: Eq + Clone, S: MultiWayAggregateSpec, FK: Fn(&E) -> K, FP: Fn(&E) -> S::P> JoinCore<
    E,
    K,
    S,
    FK,
    FP,
> {
    /// The relations in the order in which they are tried: the root, then as
    /// the layers of the view plan bind them, then what is left.
    fn build_relation_order(&self, root: &str) -> (r: Vec<String>)
        requires
            self.set_up(),
            self.topology().relation_map().contains_key(root@),
        ensures
            orders(r@, self.names()),
    {
        let mut order: Vec<String> = Vec::new();
        let mut seen = NameSet::new();
        let ghost names = self.names().to_set();
        proof {
            self.graph.lemma_parts();
            assert(order@.map_values(text()) =~= Seq::empty());
            assert(order@.map_values(text()).to_set() =~= seen@);
        }
        push_new(&mut order, &mut seen, root);
        let layers = self.view_plan.prefix_layers();
        let mut i: usize = 0;
        while i < layers.len()
            invariant
                self.set_up(),
                crate::operator::view_plan::are_layers(
                    layers@,
                    self.view_plan.order().prefix(),
                    self.view_plan.relations(),
                ),
                names == self.names().to_set(),
                forall|n: Seq<char>| #[trigger] self.graph.relation_map().contains_key(n) ==> names.contains(n),
                i <= layers@.len(),
                seen.wf(),
                order@.map_values(text()).no_duplicates(),
                order@.map_values(text()).to_set() == seen@,
                seen@.subset_of(names),
            decreases layers@.len() - i,
        {
            let relations = &layers[i].relations;
            let mut j: usize = 0;
            while j < relations.len()
                invariant
                    self.set_up(),
                    names == self.names().to_set(),
                    forall|n: Seq<char>| #[trigger] self.graph.relation_map().contains_key(n) ==> names.contains(n),
                    relations.wf(),
                    forall|n: Seq<char>| #[trigger] relations@.contains(n) ==> self.graph.relation_map().contains_key(n),
                    j <= relations.listed().len(),
                    seen.wf(),
                    order@.map_values(text()).no_duplicates(),
                    order@.map_values(text()).to_set() == seen@,
                    seen@.subset_of(names),
                decreases relations.listed().len() - j,
            {
                let name = relations.get(j);
                proof {
                    relations.lemma_listed();
                    assert(relations@.contains(name@));
                }
                push_new(&mut order, &mut seen, name);
                j += 1;
            }
            i += 1;
        }
        let rest = self.graph.relation_names();
        let mut k: usize = 0;
        while k < rest.len()
            invariant
                rest@.map_values(|n: &str| n@) == self.names(),
                names == self.names().to_set(),
                k <= rest@.len(),
                seen.wf(),
                order@.map_values(text()).no_duplicates(),
                order@.map_values(text()).to_set() == seen@,
                seen@.subset_of(names),
                forall|j: int| 0 <= j < k ==> seen@.contains(#[trigger] self.names()[j]),
            decreases rest@.len() - k,
        {
            let name = rest[k];
            proof {
                assert(self.names()[k as int] == name@);
                assert(names.contains(self.names()[k as int]));
            }
            push_new(&mut order, &mut seen, name);
            k += 1;
        }
        proof {
            assert(rest@.map_values(|n: &str| n@).len() == rest@.len());
            assert(seen@ =~= names) by {
                assert forall|n: Seq<char>| names.contains(n) implies seen@.contains(n) by {
                    let j = choose|j: int| 0 <= j < self.names().len() && self.names()[j] == n;
                    assert(seen@.contains(self.names()[j]));
                }
            }
        }
        order
    }

    /// Does an edge lead from `name` to a relation that is bound?
    fn touches_bound(&self, name: &str, bound: &NameMap<(i64, JoinRecord<E, S::P>)>) -> (r: bool)
        requires
            self.set_up(),
            bound.wf(),
        ensures
            r == exists|b: Seq<char>| bound@.contains_key(b) && #[trigger] linked(self.edges(), b, name@),
    {
        let mut i: usize = 0;
        while i < bound.len()
            invariant
                self.set_up(),
                bound.wf(),
                i <= bound.keys().len(),
                forall|j: int| 0 <= j < i ==> !linked(self.edges(), #[trigger] bound.keys()[j], name@),
            decreases bound.keys().len() - i,
        {
            if self.graph.edge(bound.key_at(i), name).is_some() {
                assert(bound@.contains_key(bound.keys()[i as int]));
                assert(linked(self.edges(), bound.keys()[i as int], name@));
                return true;
            }
            i += 1;
        }
        assert forall|b: Seq<char>| bound@.contains_key(b) implies !#[trigger] linked(self.edges(), b, name@) by {
            let j = choose|j: int| 0 <= j < bound.keys().len() && bound.keys()[j] == b;
            assert(!linked(self.edges(), bound.keys()[j], name@));
        }
        false
    }

    /// The first relation in the order that is not bound and has an edge to
    /// one that is. A connected graph has one unless all are bound.
    fn select_next_relation(
        &self,
        order: &Vec<String>,
        bound: &NameMap<(i64, JoinRecord<E, S::P>)>,
        Ghost(open): Ghost<Seq<char>>,
    ) -> (r: usize)
        requires
            self.set_up(),
            orders(order@, self.names()),
            bound.wf(),
            bound.keys().len() > 0,
            forall|n: Seq<char>| #[trigger]
                bound@.contains_key(n) ==> self.topology().relation_map().contains_key(n),
            self.topology().relation_map().contains_key(open),
            !bound@.contains_key(open),
        ensures
            r < order@.len(),
            self.topology().relation_map().contains_key(order@[r as int]@),
            !bound@.contains_key(order@[r as int]@),
            exists|b: Seq<char>| bound@.contains_key(b) && #[trigger] linked(self.edges(), b, order@[r as int]@),
    {
        let ghost crossed = (Seq::<char>::empty(), Seq::<char>::empty());
        proof {
            self.graph.lemma_parts();
            let g = self.graph.neighbor_map();
            let first = bound.keys()[0];
            assert(bound@.contains_key(first));
            assert(g.dom().contains(first) && g.dom().contains(open));
            assert(reaches(g, first, open));
            let p = choose|p: Seq<Seq<char>>| #[trigger] is_walk(g, p) && p[0] == first && p[p.len() - 1] == open;
            let c = lemma_crossing(g, bound@.dom(), p, p.len() - 1);
            crossed = c;
            assert(g[c.0].contains(c.1));
            assert(linked(self.edges(), c.0, c.1));
            assert(g.contains_key(c.1));
            assert(g.dom().contains(c.1));
        }
        let ghost t = order@.map_values(text());
        let mut i: usize = 0;
        while i < order.len()
            invariant
                self.set_up(),
                orders(order@, self.names()),
                t == order@.map_values(text()),
                bound.wf(),
                bound@.contains_key(crossed.0),
                !bound@.contains_key(crossed.1),
                linked(self.edges(), crossed.0, crossed.1),
                self.topology().relation_map().contains_key(crossed.1),
                i <= order@.len(),
                forall|j: int| 0 <= j < i ==> (#[trigger] order@[j])@ != crossed.1,
            decreases order@.len() - i,
        {
            let name = order[i].as_str();
            if !bound.contains_key(name) && self.touches_bound(name, bound) {
                proof {
                    self.graph.lemma_parts();
                    assert(t[i as int] == name@);
                    assert(t.to_set().contains(name@));
                    assert(self.names().contains(name@));
                    assert(self.graph.relation_map().contains_key(name@));
                }
                return i;
            }
            i += 1;
        }
        proof {
            self.graph.lemma_parts();
            assert(self.names().contains(crossed.1));
            assert(t.to_set().contains(crossed.1));
            let j = choose|j: int| 0 <= j < t.len() && t[j] == crossed.1;
            assert(order@[j]@ == crossed.1);
            assert(false);
        }
        0
    }

    /// The first bound relation in the order with an edge to the candidate.
    fn select_driver_relation(
        &self,
        order: &Vec<String>,
        candidate: &str,
        bound: &NameMap<(i64, JoinRecord<E, S::P>)>,
    ) -> (r: usize)
        requires
            self.set_up(),
            orders(order@, self.names()),
            bound.wf(),
            forall|n: Seq<char>| #[trigger]
                bound@.contains_key(n) ==> self.topology().relation_map().contains_key(n),
            exists|b: Seq<char>| bound@.contains_key(b) && #[trigger] linked(self.edges(), b, candidate@),
        ensures
            r < order@.len(),
            bound@.contains_key(order@[r as int]@),
            linked(self.edges(), order@[r as int]@, candidate@),
    {
        let ghost b0 = choose|b: Seq<char>| bound@.contains_key(b) && #[trigger] linked(self.edges(), b, candidate@);
        let ghost t = order@.map_values(text());
        let mut i: usize = 0;
        while i < order.len()
            invariant
                self.set_up(),
                t == order@.map_values(text()),
                bound.wf(),
                bound@.contains_key(b0),
                linked(self.edges(), b0, candidate@),
                i <= order@.len(),
                forall|j: int| 0 <= j < i ==> (#[trigger] order@[j])@ != b0,
            decreases order@.len() - i,
        {
            let name = order[i].as_str();
            if bound.contains_key(name) && self.graph.edge(name, candidate).is_some() {
                return i;
            }
            i += 1;
        }
        proof {
            self.graph.lemma_parts();
            assert(self.graph.relation_map().contains_key(b0));
            assert(self.names().contains(b0));
            assert(t.to_set().contains(b0));
            let j = choose|j: int| 0 <= j < t.len() && t[j] == b0;
            assert(order@[j]@ == b0);
            assert(false);
        }
        0
    }
}

/// The payloads of the bound items.
fn payloads_of<E, P: Eq + Clone>(bound: &NameMap<(i64, JoinRecord<E, P>)>) -> (r: NameMap<P>)
    requires
        lawful::<P>(),
        bound.wf(),
    ensures
        r.wf(),
        r@ == payload_map(bound@),
{
    let mut r: NameMap<P> = NameMap::new();
    let mut i: usize = 0;
    while i < bound.len()
        invariant
            lawful::<P>(),
            bound.wf(),
            i <= bound.keys().len(),
            r.wf(),
            forall|n: Seq<char>| #[trigger]
                r@.contains_key(n) <==> exists|j: int| 0 <= j < i && bound.keys()[j] == n,
            forall|n: Seq<char>| #[trigger] r@.contains_key(n) ==> r@[n] == bound@[n].1.payload,
        decreases bound.keys().len() - i,
    {
        let ghost before = r@;
        proof {
            bound.lemma_lookup(i as int);
        }
        r.insert(bound.key_at(i), dup(&bound.value_at(i).1.payload));
        proof {
            assert forall|n: Seq<char>| #[trigger] r@.contains_key(n) <==> exists|j: int|
                0 <= j < i + 1 && bound.keys()[j] == n by {
                if before.contains_key(n) {
                    let j = choose|j: int| 0 <= j < i && bound.keys()[j] == n;
                    assert(0 <= j < i + 1 && bound.keys()[j] == n);
                } else if r@.contains_key(n) {
                    assert(0 <= i < i + 1 && bound.keys()[i as int] == n);
                }
                if exists|j: int| 0 <= j < i + 1 && bound.keys()[j] == n {
                    let j = choose|j: int| 0 <= j < i + 1 && bound.keys()[j] == n;
                    if j < i {
                        assert(before.contains_key(n));
                    }
                }
            }
        }
        i += 1;
    }
    proof {
        assert forall|n: Seq<char>| r@.contains_key(n) == payload_map(bound@).contains_key(n) by {
            if bound@.contains_key(n) {
                let j = choose|j: int| 0 <= j < bound.keys().len() && bound.keys()[j] == n;
                assert(0 <= j < i && bound.keys()[j] == n);
            }
        }
        assert(r@ =~= payload_map(bound@));
    }
    r
}

/// An item that the query of the driver's edge leaves out breaks that edge.
proof fn lemma_unpicked<E, K, P>(
    edges: Seq<Edge>,
    keys: spec_fn(Seq<char>, E) -> K,
    k: int,
    driver: Seq<char>,
    next: Seq<char>,
    bound: Map<Seq<char>, (i64, JoinRecord<E, P>)>,
    x: (i64, JoinRecord<E, P>),
    start: i64,
    end: i64,
)
    requires
        0 <= k < edges.len(),
        edges[k].links(driver, next),
        driver != next,
        bound.contains_key(driver),
        (start as int, end as int) == edges[k].window(bound[driver].0 as int, driver),
        !picks(keys, next, keys(driver, bound[driver].1.element), start, end)(x),
    ensures
        !tuple_fits(edges, keys, bound.insert(next, x)),
{
    let b = bound.insert(next, x);
    assert(b.contains_key(edges[k].relation_a@) && b.contains_key(edges[k].relation_b@));
    assert(!edge_fits(edges[k], keys, b[edges[k].relation_a@], b[edges[k].relation_b@]));
}

/// Adds `d` to a sum `n` times.
fn add_times<S: MultiWayAggregateSpec>(
    spec: &S,
    acc: (S::V, u64),
    d: &(S::V, u64),
    n: u64,
    Ghost(s): Ghost<Seq<(S::V, u64)>>,
) -> (r: (S::V, u64))
    requires
        acc == total(found_zero(*spec), found_plus(*spec), s),
    ensures
        r == total(found_zero(*spec), found_plus(*spec), s + repeated(*d, n as nat)),
{
    let mut value = acc.0;
    let mut count: u64 = acc.1;
    let mut j: u64 = 0;
    assert(s + repeated(*d, 0) =~= s);
    while j < n
        invariant
            j <= n,
            (value, count) == total(found_zero(*spec), found_plus(*spec), s + repeated(*d, j as nat)),
        decreases n - j,
    {
        proof {
            let more = s + repeated(*d, (j + 1) as nat);
            assert(more.drop_last() =~= s + repeated(*d, j as nat));
            assert(more.last() == *d);
        }
        value = spec.add(&value, &d.0);
        count = count.wrapping_add(d.1);
        j += 1;
    }
    (value, count)
}

/// Zeros do not change a sum.
proof fn lemma_repeat_zero<V>(zero: V, plus: spec_fn(V, V) -> V, s: Seq<V>, n: nat)
    requires
        monoid(zero, plus),
    ensures
        total(zero, plus, s + repeated(zero, n)) == total(zero, plus, s),
    decreases n,
{
    if n == 0 {
        assert(s + repeated(zero, 0) =~= s);
    } else {
        let more = s + repeated(zero, n);
        let less = s + repeated(zero, (n - 1) as nat);
        assert(more.drop_last() =~= less);
        assert(more.last() == zero);
        lemma_repeat_zero(zero, plus, s, (n - 1) as nat);
        let t = total(zero, plus, less);
        assert(plus(t, zero) == plus(zero, t));
    }
}

/// The items of one more entry come behind those of the entries before it.
proof fn lemma_entry_step<T, V>(
    entries: Seq<TimeIndexEntry<T>>,
    i: int,
    f: spec_fn((i64, T)) -> V,
)
    requires
        0 <= i < entries.len(),
    ensures
        concat(entries.take(i + 1), entry_items()).map_values(f) == concat(
            entries.take(i),
            entry_items(),
        ).map_values(f) + repeated(f((entries[i].timestamp, entries[i].payload)), entries[i].count as nat),
{
    let e = entries[i];
    assert(entries.take(i + 1).drop_last() =~= entries.take(i));
    assert(entries.take(i + 1).last() == e);
    assert(concat(entries.take(i + 1), entry_items()).map_values(f) =~= concat(
        entries.take(i),
        entry_items(),
    ).map_values(f) + repeated(f((e.timestamp, e.payload)), e.count as nat));
}

/// What an entry lists is in the listing of all entries.
proof fn lemma_entry_listed<T>(entries: Seq<TimeIndexEntry<T>>, i: int)
    requires
        0 <= i < entries.len(),
        entries[i].count > 0,
    ensures
        concat(entries, entry_items()).contains((entries[i].timestamp, entries[i].payload)),
    decreases entries.len(),
{
    let x = (entries[i].timestamp, entries[i].payload);
    let head = entries.drop_last();
    let last = entries.last();
    let all = concat(entries, entry_items());
    let front = concat(head, entry_items());
    if i < head.len() {
        lemma_entry_listed(head, i);
        let k = choose|k: int| 0 <= k < front.len() && front[k] == x;
        assert(all[k] == x);
    } else {
        assert(entry_items::<T>()(last)[0] == x);
        assert(all[front.len() as int] == x);
    }
}

impl<E: Eq + Clone, K: Eq + Clone, S: MultiWayAggregateSpec, FK: Fn(&E) -> K, FP: Fn(&E) -> S::P> JoinCore<
    E,
    K,
    S,
    FK,
    FP,
> {
    /// What a query answers is in the relation.
    proof fn lemma_answer_items(
        &self,
        key: (Seq<char>, Seq<char>, K, i64, i64),
        entries: Seq<TimeIndexEntry<JoinRecord<E, S::P>>>,
        i: int,
    )
        requires
            self.wf(),
            self.items().contains_key(key.0),
            self.answer_ok(key, entries),
            0 <= i < entries.len(),
        ensures
            self.item_ok(key.0, (entries[i].timestamp, entries[i].payload)),
    {
        broadcast use vstd::seq_lib::group_to_multiset_ensures;

        let x = (entries[i].timestamp, entries[i].payload);
        let all = concat(entries, entry_items());
        let p = picks::<E, K, S::P>(self.keys(), key.0, key.2, key.3, key.4);
        let kept = self.selected(key.0, key.2, key.3, key.4);
        lemma_entry_listed(entries, i);
        vstd::seq_lib::to_multiset_contains(all, x);
        vstd::seq_lib::to_multiset_contains(kept, x);
        let k = choose|k: int| 0 <= k < kept.len() && kept[k] == x;
        crate::listing::lemma_filter_member(self.items()[key.0], p, k);
        let q = choose|q: int| 0 <= q < self.items()[key.0].len() && self.items()[key.0][q] == x;
        assert(self.item_ok(key.0, self.items()[key.0][q]));
    }

    /// Summing over the answer is summing over the relation.
    proof fn lemma_answer_sum(
        &self,
        key: (Seq<char>, Seq<char>, K, i64, i64),
        entries: Seq<TimeIndexEntry<JoinRecord<E, S::P>>>,
        f: spec_fn((i64, JoinRecord<E, S::P>)) -> (S::V, u64),
    )
        requires
            self.wf(),
            self.answer_ok(key, entries),
            forall|x: (i64, JoinRecord<E, S::P>)|
                !picks(self.keys(), key.0, key.2, key.3, key.4)(x) ==> #[trigger] f(x) == found_zero(self.ring()),
        ensures
            total(found_zero(self.ring()), found_plus(self.ring()), concat(entries, entry_items()).map_values(f)) == total(
                found_zero(self.ring()),
                found_plus(self.ring()),
                self.items()[key.0].map_values(f),
            ),
    {
        let zero = found_zero(self.ring());
        let plus = found_plus(self.ring());
        let p = picks::<E, K, S::P>(self.keys(), key.0, key.2, key.3, key.4);
        let all = concat(entries, entry_items());
        let kept = self.selected(key.0, key.2, key.3, key.4);
        lemma_found_monoid(self.ring());
        lemma_multiset_images(all, kept, f, p);
        lemma_total_reorder(zero, plus, all.map_values(f), kept.map_values(f));
        lemma_total_filter(zero, plus, self.items()[key.0], p, f, f);
    }

    /// Value and count of all tuples that extend the bound items by one item
    /// of each relation that is not bound. Those are listed in `rest`.
    #[verifier::spinoff_prover]
    #[verifier::rlimit(60)]
    fn recursive_join(
        &self,
        cache: &mut RangeCache<K, E, S::P>,
        order: &Vec<String>,
        bound: &mut NameMap<(i64, JoinRecord<E, S::P>)>,
        Ghost(rest): Ghost<Seq<Seq<char>>>,
    ) -> (r: (S::V, u64))
        requires
            self.wf(),
            self.cache_ok(*old(cache)),
            orders(order@, self.names()),
            old(bound).wf(),
            old(bound).keys().len() > 0,
            forall|n: Seq<char>| #[trigger]
                old(bound)@.contains_key(n) ==> self.topology().relation_map().contains_key(n) && self.item_ok(
                    n,
                    old(bound)@[n],
                ),
            tuple_fits(self.edges(), self.keys(), old(bound)@),
            rest.no_duplicates(),
            rest.to_set() == self.names().to_set().difference(old(bound)@.dom()),
        ensures
            self.cache_ok(*final(cache)),
            final(bound).wf(),
            final(bound)@ == old(bound)@,
            r == self.found(rest, old(bound)@),
        decreases rest.len(),
    {
        let ghost b0 = bound@;
        let ghost zero = found_zero(self.ring());
        let ghost plus = found_plus(self.ring());
        let ghost leaf = tuple_found(self.ring(), self.edges(), self.keys());
        proof {
            lemma_record_lawful::<E, S::P>();
            lemma_found_monoid(self.ring());
            self.graph.lemma_parts();
            self.lemma_bound_size(order@, bound, rest);
        }
        if bound.len() == order.len() {
            let payloads = payloads_of(bound);
            return (self.spec.multiply(&payloads), 1);
        }
        let at = self.select_next_relation(order, bound, Ghost(rest[0]));
        let next = order[at].as_str();
        let by = self.select_driver_relation(order, next, bound);
        let driver = order[by].as_str();
        let edge = self.graph.edge(driver, next).unwrap();
        let ghost k = choose|k: int| 0 <= k < self.edges().len() && self.edges()[k] == *edge;
        let driver_item = bound.get(driver).unwrap();
        assert(self.item_ok(driver@, b0[driver@]));
        let driver_ts: i64 = driver_item.0;
        let (start, end) = edge.window_bounds(driver_ts, driver).unwrap();
        let key = self.key_of(driver, &driver_item.1.element);
        assert(self.edges()[k].links(next@, driver@));
        assert(linked(self.edges(), next@, driver@));
        let ghost ck = (next@, driver@, key, start, end);
        let entries = self.query_entries(cache, next, driver, key, start, end);
        let ghost q = rest.index_of(next@);
        let ghost rest2 = rest.remove(q);
        let ghost f = branch(zero, plus, leaf, rest2, next@, self.items(), b0);
        proof {
            assert(rest.to_set().contains(next@)) by {
                assert(self.names().contains(next@));
            }
            assert(rest.contains(next@));
            assert(rest[q] == next@);
            lemma_join_sum_front(zero, plus, leaf, rest, q, self.items(), b0);
            self.lemma_rest_removed(rest, q, b0);
            assert forall|x: (i64, JoinRecord<E, S::P>)| !picks(self.keys(), ck.0, ck.2, ck.3, ck.4)(
                x,
            ) implies #[trigger] f(x) == zero by {
                lemma_unpicked(self.edges(), self.keys(), k, driver@, next@, b0, x, start, end);
                lemma_broken_tuple(
                    self.ring(),
                    self.edges(),
                    self.keys(),
                    rest2,
                    self.items(),
                    b0.insert(next@, x),
                );
            }
            self.lemma_answer_sum(ck, entries@, f);
            assert(concat(entries@.take(0), entry_items()).map_values(f) =~= Seq::empty());
        }
        let mut acc: (S::V, u64) = (self.spec.zero(), 0);
        let mut i: usize = 0;
        while i < entries.len()
            invariant
                self.wf(),
                self.cache_ok(*cache),
                lawful::<JoinRecord<E, S::P>>(),
                monoid(zero, plus),
                zero == found_zero(self.ring()),
                plus == found_plus(self.ring()),
                leaf == tuple_found(self.ring(), self.edges(), self.keys()),
                orders(order@, self.names()),
                at < order@.len(),
                next@ == order@[at as int]@,
                self.topology().relation_map().contains_key(next@),
                self.items().contains_key(next@),
                !b0.contains_key(next@),
                bound.wf(),
                bound@ == b0,
                forall|n: Seq<char>| #[trigger]
                    b0.contains_key(n) ==> self.topology().relation_map().contains_key(n) && self.item_ok(n, b0[n]),
                tuple_fits(self.edges(), self.keys(), b0),
                rest2.no_duplicates(),
                rest2.len() < rest.len(),
                rest2.to_set() == self.names().to_set().difference(b0.insert(next@, arbitrary()).dom()),
                forall|j: int| 0 <= j < rest2.len() ==> !b0.contains_key(#[trigger] rest2[j]) && rest2[j] != next@,
                f == branch(zero, plus, leaf, rest2, next@, self.items(), b0),
                ck.0 == next@,
                self.answer_ok(ck, entries@),
                i <= entries@.len(),
                acc == total(zero, plus, concat(entries@.take(i as int), entry_items()).map_values(f)),
            decreases entries@.len() - i,
        {
            let entry = &entries[i];
            let ghost x = (entry.timestamp, entry.payload);
            let ghost before = concat(entries@.take(i as int), entry_items()).map_values(f);
            proof {
                self.lemma_answer_items(ck, entries@, i as int);
                lemma_entry_step(entries@, i as int, f);
            }
            let item = (entry.timestamp, dup(&entry.payload));
            if self.is_compatible(next, &item, bound) {
                bound.insert(next, item);
                proof {
                    let b1 = b0.insert(next@, x);
                    assert(bound@ == b1);
                    assert(b1.dom() =~= b0.insert(next@, arbitrary()).dom());
                    assert(bound.keys().to_set().contains(next@));
                    assert(bound.keys().len() > 0) by {
                        assert(bound@.contains_key(next@));
                    }
                }
                let d = self.recursive_join(cache, order, bound, Ghost(rest2));
                bound.remove(next);
                assert(bound@ =~= b0);
                acc = add_times(&self.spec, acc, &d, entry.count, Ghost(before));
            } else {
                proof {
                    lemma_broken_tuple(
                        self.ring(),
                        self.edges(),
                        self.keys(),
                        rest2,
                        self.items(),
                        b0.insert(next@, x),
                    );
                    lemma_repeat_zero(zero, plus, before, entry.count as nat);
                }
            }
            i += 1;
        }
        assert(entries@.take(i as int) =~= entries@);
        acc
    }

    /// As long as a relation is not bound, fewer are bound than there are.
    proof fn lemma_bound_size(
        &self,
        order: Seq<String>,
        bound: &NameMap<(i64, JoinRecord<E, S::P>)>,
        rest: Seq<Seq<char>>,
    )
        requires
            orders(order, self.names()),
            bound.wf(),
            self.graph.wf(),
            forall|n: Seq<char>| #[trigger] bound@.contains_key(n) ==> self.graph.relation_map().contains_key(n),
            rest.no_duplicates(),
            rest.to_set() == self.names().to_set().difference(bound@.dom()),
        ensures
            bound.keys().len() == order.len() <==> rest.len() == 0,
            rest.len() > 0 ==> self.graph.relation_map().contains_key(rest[0]) && !bound@.contains_key(rest[0]),
    {
        let names = self.names().to_set();
        let t = order.map_values(text());
        self.graph.lemma_parts();
        t.unique_seq_to_set();
        lemma_ascending_distinct(bound.keys());
        assert(bound@.dom() =~= bound.keys().to_set());
        assert(bound@.dom().subset_of(names)) by {
            assert forall|n: Seq<char>| bound@.dom().contains(n) implies names.contains(n) by {
                assert(bound@.contains_key(n));
                assert(self.graph.relation_map().contains_key(n));
            }
        }
        vstd::seq_lib::seq_to_set_is_finite(t);
        if bound.keys().len() == order.len() {
            vstd::set_lib::lemma_subset_equality(bound@.dom(), names);
            if rest.len() > 0 {
                assert(rest.to_set().contains(rest[0]));
            }
        }
        if rest.len() == 0 {
            assert(bound@.dom() =~= names) by {
                assert forall|n: Seq<char>| names.contains(n) implies bound@.dom().contains(n) by {
                    if !bound@.dom().contains(n) {
                        assert(rest.to_set().contains(n));
                    }
                }
            }
        } else {
            assert(rest.to_set().contains(rest[0]));
            assert(names.contains(rest[0]));
        }
    }

    /// Binding one of the relations that are left leaves the others.
    proof fn lemma_rest_removed(
        &self,
        rest: Seq<Seq<char>>,
        q: int,
        bound: Map<Seq<char>, (i64, JoinRecord<E, S::P>)>,
    )
        requires
            rest.no_duplicates(),
            0 <= q < rest.len(),
            rest.to_set() == self.names().to_set().difference(bound.dom()),
        ensures
            rest.remove(q).no_duplicates(),
            rest.remove(q).len() < rest.len(),
            rest.remove(q).to_set() == self.names().to_set().difference(bound.insert(rest[q], arbitrary()).dom()),
            forall|j: int|
                0 <= j < rest.remove(q).len() ==> !bound.contains_key(#[trigger] rest.remove(q)[j]) && rest.remove(q)[j]
                    != rest[q],
    {
        let less = rest.remove(q);
        assert forall|i: int| 0 <= i < less.len() implies #[trigger] less[i] == rest[if i < q { i } else { i + 1 }] by {}
        assert forall|i: int, j: int| 0 <= i < less.len() && 0 <= j < less.len() && i != j implies less[i] != less[j] by {
            let i2 = if i < q { i } else { i + 1 };
            let j2 = if j < q { j } else { j + 1 };
            assert(rest[i2] != rest[j2]);
        }
        assert forall|j: int| 0 <= j < less.len() implies !bound.contains_key(#[trigger] less[j]) && less[j] != rest[q] by {
            let j2 = if j < q { j } else { j + 1 };
            assert(rest.to_set().contains(rest[j2]));
        }
        let after = bound.insert(rest[q], arbitrary());
        assert forall|n: Seq<char>| less.to_set().contains(n) == self.names().to_set().difference(after.dom()).contains(
            n,
        ) by {
            if less.to_set().contains(n) {
                let j = choose|j: int| 0 <= j < less.len() && less[j] == n;
                let j2 = if j < q { j } else { j + 1 };
                assert(rest.to_set().contains(rest[j2]));
            }
            if self.names().to_set().difference(after.dom()).contains(n) {
                assert(rest.to_set().contains(n));
                let j = choose|j: int| 0 <= j < rest.len() && rest[j] == n;
                assert(j != q);
                let j2 = if j < q { j } else { j - 1 };
                assert(less[j2] == n);
            }
        }
        assert(less.to_set() =~= self.names().to_set().difference(after.dom()));
    }
}

spec fn payload_part<E, P>() -> spec_fn((i64, JoinRecord<E, P>)) -> P {
    |it: (i64, JoinRecord<E, P>)| it.1.payload
}

spec fn once<E, P>() -> spec_fn((i64, JoinRecord<E, P>)) -> u64 {
    |it: (i64, JoinRecord<E, P>)| 1u64
}

/// The sum of the payloads that the entries list, and how many they list.
fn sum_payloads<E, S: MultiWayAggregateSpec>(
    spec: &S,
    relation: &str,
    entries: &Vec<TimeIndexEntry<JoinRecord<E, S::P>>>,
) -> (r: (S::P, u64))
    ensures
        r.0 == total(
            spec.spec_zero_payload(relation@),
            payload_plus(*spec, relation@),
            concat(entries@, entry_items()).map_values(payload_part()),
        ),
        r.1 == total(0u64, count_plus(), concat(entries@, entry_items()).map_values(once())),
{
    let ghost zp = spec.spec_zero_payload(relation@);
    let ghost pp = payload_plus(*spec, relation@);
    let mut sum: S::P = spec.zero_payload(relation);
    let mut matches: u64 = 0;
    let mut i: usize = 0;
    proof {
        assert(concat(entries@.take(0), entry_items()).map_values(payload_part::<E, S::P>()) =~= Seq::empty());
        assert(concat(entries@.take(0), entry_items()).map_values(once::<E, S::P>()) =~= Seq::empty());
    }
    while i < entries.len()
        invariant
            zp == spec.spec_zero_payload(relation@),
            pp == payload_plus(*spec, relation@),
            i <= entries@.len(),
            sum == total(zp, pp, concat(entries@.take(i as int), entry_items()).map_values(payload_part())),
            matches == total(0u64, count_plus(), concat(entries@.take(i as int), entry_items()).map_values(once())),
        decreases entries@.len() - i,
    {
        let entry = &entries[i];
        let ghost px = entry.payload.payload;
        let ghost ps = concat(entries@.take(i as int), entry_items()).map_values(payload_part());
        let ghost cs = concat(entries@.take(i as int), entry_items()).map_values(once());
        proof {
            lemma_entry_step(entries@, i as int, payload_part::<E, S::P>());
            lemma_entry_step(entries@, i as int, once::<E, S::P>());
            assert(ps + repeated(px, 0) =~= ps);
            assert(cs + repeated(1u64, 0) =~= cs);
        }
        let mut j: u64 = 0;
        while j < entry.count
            invariant
                pp == payload_plus(*spec, relation@),
                px == entry.payload.payload,
                j <= entry.count,
                sum == total(zp, pp, ps + repeated(px, j as nat)),
                matches == total(0u64, count_plus(), cs + repeated(1u64, j as nat)),
            decreases entry.count - j,
        {
            proof {
                let more = ps + repeated(px, (j + 1) as nat);
                assert(more.drop_last() =~= ps + repeated(px, j as nat));
                assert(more.last() == px);
                let cmore = cs + repeated(1u64, (j + 1) as nat);
                assert(cmore.drop_last() =~= cs + repeated(1u64, j as nat));
                assert(cmore.last() == 1u64);
            }
            sum = spec.add_payload(relation, &sum, &entry.payload.payload);
            matches = matches.wrapping_add(1);
            j += 1;
        }
        i += 1;
    }
    assert(entries@.take(i as int) =~= entries@);
    (sum, matches)
}

impl<E: Eq + Clone, K: Eq + Clone, S: MultiWayAggregateSpec, FK: Fn(&E) -> K, FP: Fn(&E) -> S::P> JoinCore<
    E,
    K,
    S,
    FK,
    FP,
> {
    /// Value and count of the tuples of the join in which `relation` holds
    /// nothing but `x`.
    spec fn found_with(&self, relation: Seq<char>, x: (i64, JoinRecord<E, S::P>)) -> (S::V, u64) {
        join_sum(
            found_zero(self.ring()),
            found_plus(self.ring()),
            tuple_found(self.ring(), self.edges(), self.keys()),
            self.names(),
            self.items().insert(relation, seq![x]),
            Map::empty(),
        )
    }

    /// Binding the relation to `x` first makes no difference.
    proof fn lemma_found_with(&self, relation: Seq<char>, x: (i64, JoinRecord<E, S::P>))
        requires
            self.set_up(),
            self.graph.relation_map().contains_key(relation),
        ensures
            self.names().contains(relation),
            self.names().no_duplicates(),
            self.found_with(relation, x) == self.found(
                self.names().remove(self.names().index_of(relation)),
                Map::empty().insert(relation, x),
            ),
    {
        let zero = found_zero(self.ring());
        let plus = found_plus(self.ring());
        let leaf = tuple_found(self.ring(), self.edges(), self.keys());
        let names = self.names();
        let only = self.items().insert(relation, seq![x]);
        self.graph.lemma_parts();
        lemma_found_monoid(self.ring());
        lemma_ascending_distinct(names);
        let i = names.index_of(relation);
        assert(names[i] == relation);
        let rest = names.remove(i);
        lemma_join_sum_front(zero, plus, leaf, names, i, only, Map::empty());
        let f = branch(zero, plus, leaf, rest, relation, only, Map::empty());
        let one = seq![x].map_values(f);
        assert(only[relation] == seq![x]);
        assert(one.drop_last() =~= Seq::empty());
        assert(one.last() == f(x));
        assert(total(zero, plus, one.drop_last()) == zero);
        assert(plus(zero, f(x)) == f(x));
        assert(total(zero, plus, one) == f(x));
        assert forall|j: int| 0 <= j < rest.len() implies self.items()[#[trigger] rest[j]] == only[rest[j]] by {
            assert(rest[j] == names[if j < i { j } else { j + 1 }]);
        }
        lemma_join_sum_same_items(zero, plus, leaf, rest, self.items(), only, Map::empty().insert(relation, x));
    }

    /// The delta of a tuple that comes into, or went out of, `relation`.
    fn compute_delta(
        &self,
        cache: &mut RangeCache<K, E, S::P>,
        relation_name: &str,
        timestamp: i64,
        record: &JoinRecord<E, S::P>,
    ) -> (r: (S::V, u64))
        requires
            self.wf(),
            self.cache_ok(*old(cache)),
            self.topology().relation_map().contains_key(relation_name@),
            self.item_ok(relation_name@, (timestamp, *record)),
        ensures
            self.cache_ok(*final(cache)),
            r == self.found_with(relation_name@, (timestamp, *record)),
    {
        let ghost x = (timestamp, *record);
        proof {
            self.lemma_found_with(relation_name@, x);
        }
        if self.graph.relation_names().len() == 2 {
            let neighbors = self.graph.neighbors(relation_name);
            if neighbors.len() == 1 {
                proof {
                    self.graph.lemma_parts();
                    let n = neighbors@.map_values(|n: &str| n@);
                    assert(n[0] == neighbors@[0]@);
                    assert(n.to_set().contains(n[0]));
                    assert(self.graph.neighbor_map().dom().contains(relation_name@));
                    assert(linked(self.edges(), relation_name@, neighbors@[0]@));
                }
                return self.binary_delta(relation_name, timestamp, record, neighbors[0]);
            }
        }
        self.multi_way_delta(cache, relation_name, timestamp, record)
    }

    /// Two relations: the payload times the sum of the payloads it joins.
    #[verifier::rlimit(40)]
    fn binary_delta(
        &self,
        relation_name: &str,
        timestamp: i64,
        record: &JoinRecord<E, S::P>,
        neighbor_name: &str,
    ) -> (r: (S::V, u64))
        requires
            self.wf(),
            self.topology().relation_map().contains_key(relation_name@),
            self.item_ok(relation_name@, (timestamp, *record)),
            linked(self.edges(), relation_name@, neighbor_name@),
            self.names().len() == 2,
        ensures
            r == self.found_with(relation_name@, (timestamp, *record)),
    {
        let ghost x = (timestamp, *record);
        let ghost relation = relation_name@;
        let ghost neighbor = neighbor_name@;
        proof {
            lemma_record_lawful::<E, S::P>();
            self.graph.lemma_parts();
        }
        let edge = self.graph.edge(relation_name, neighbor_name).unwrap();
        let ghost k = choose|k: int| 0 <= k < self.edges().len() && self.edges()[k] == *edge;
        let (start, end) = edge.window_bounds(timestamp, relation_name).unwrap();
        let key = self.key_of(relation_name, &record.element);
        let ghost ck = (neighbor, relation, key, start, end);
        assert(self.edges()[k].links(neighbor, relation));
        assert(linked(self.edges(), neighbor, relation));
        let at = self.find_index(neighbor_name, relation_name);
        assert(self.index_ok(self.indices@[at as int]));
        let mut partial: Vec<Option<K>> = Vec::new();
        let ghost key0 = key;
        partial.push(Some(key));
        assert(partial@ =~= seq![Some(key0)]);
        let entries = self.indices[at].index.query_range_entries(partial.as_slice(), start, end);
        proof {
            self.lemma_index_query(self.indices@[at as int], key0, start, end);
            assert(self.answer_ok(ck, entries@));
        }
        let (sum, matches) = sum_payloads(&self.spec, neighbor_name, &entries);
        let mut payloads: NameMap<S::P> = NameMap::new();
        payloads.insert(relation_name, dup(&record.payload));
        payloads.insert(neighbor_name, sum);
        let value = self.spec.multiply(&payloads);
        proof {
            let base = Map::<Seq<char>, S::P>::empty().insert(relation, record.payload);
            assert(payloads@ =~= base.insert(neighbor, sum));
            self.lemma_binary_sum(relation, neighbor, k, x, ck, entries@, base);
            assert(slot_of(self.spec, base, neighbor)(sum) == value);
        }
        (value, matches)
    }

    /// What a query answers was picked.
    proof fn lemma_answer_picked(
        &self,
        key: (Seq<char>, Seq<char>, K, i64, i64),
        entries: Seq<TimeIndexEntry<JoinRecord<E, S::P>>>,
        i: int,
    )
        requires
            self.answer_ok(key, entries),
            0 <= i < concat(entries, entry_items()).len(),
        ensures
            picks::<E, K, S::P>(self.keys(), key.0, key.2, key.3, key.4)(concat(entries, entry_items())[i]),
    {
        broadcast use vstd::seq_lib::group_to_multiset_ensures;

        let all = concat(entries, entry_items());
        let y = all[i];
        let p = picks::<E, K, S::P>(self.keys(), key.0, key.2, key.3, key.4);
        let kept = self.selected(key.0, key.2, key.3, key.4);
        assert(all.contains(y));
        vstd::seq_lib::to_multiset_contains(all, y);
        vstd::seq_lib::to_multiset_contains(kept, y);
        let q = choose|q: int| 0 <= q < kept.len() && kept[q] == y;
        crate::listing::lemma_filter_member(self.items()[key.0], p, q);
    }

    /// Between two relations there is one edge.
    proof fn lemma_only_edge(
        &self,
        relation: Seq<char>,
        neighbor: Seq<char>,
        k: int,
        x: (i64, JoinRecord<E, S::P>),
        y: (i64, JoinRecord<E, S::P>),
        ck: (Seq<char>, Seq<char>, K, i64, i64),
    )
        requires
            self.graph.wf(),
            0 <= k < self.edges().len(),
            self.edges()[k].links(relation, neighbor),
            ck.0 == neighbor,
            ck.2 == self.keys()(relation, x.1.element),
            (ck.3 as int, ck.4 as int) == self.edges()[k].window(x.0 as int, relation),
            picks::<E, K, S::P>(self.keys(), ck.0, ck.2, ck.3, ck.4)(y),
        ensures
            tuple_fits(
                self.edges(),
                self.keys(),
                Map::<Seq<char>, (i64, JoinRecord<E, S::P>)>::empty().insert(relation, x).insert(neighbor, y),
            ),
    {
        let edges = self.edges();
        let t = Map::<Seq<char>, (i64, JoinRecord<E, S::P>)>::empty().insert(relation, x).insert(neighbor, y);
        self.graph.lemma_parts();
        assert(edges[k].wf());
        assert forall|j: int|
            0 <= j < edges.len() && t.contains_key((#[trigger] edges[j]).relation_a@) && t.contains_key(
                edges[j].relation_b@,
            ) implies edge_fits(edges[j], self.keys(), t[edges[j].relation_a@], t[edges[j].relation_b@]) by {
            let e = edges[j];
            assert(e.wf());
            assert(e.links(edges[k].relation_a@, edges[k].relation_b@));
            assert(edges[k].links(e.relation_a@, e.relation_b@));
            if j < k {
                assert(!edges[j].links(edges[k].relation_a@, edges[k].relation_b@));
            }
            if k < j {
                assert(!edges[k].links(edges[j].relation_a@, edges[j].relation_b@));
            }
            assert(j == k);
        }
    }

    /// Summing over the tuples of two relations, or multiplying by the sum.
    #[verifier::spinoff_prover]
    proof fn lemma_binary_sum(
        &self,
        relation: Seq<char>,
        neighbor: Seq<char>,
        k: int,
        x: (i64, JoinRecord<E, S::P>),
        ck: (Seq<char>, Seq<char>, K, i64, i64),
        entries: Seq<TimeIndexEntry<JoinRecord<E, S::P>>>,
        base: Map<Seq<char>, S::P>,
    )
        requires
            self.wf(),
            self.graph.relation_map().contains_key(relation),
            self.names().len() == 2,
            0 <= k < self.edges().len(),
            self.edges()[k].links(relation, neighbor),
            ck.0 == neighbor,
            ck.2 == self.keys()(relation, x.1.element),
            (ck.3 as int, ck.4 as int) == self.edges()[k].window(x.0 as int, relation),
            self.answer_ok(ck, entries),
            base == Map::<Seq<char>, S::P>::empty().insert(relation, x.1.payload),
        ensures
            self.found_with(relation, x) == (
                slot_of(self.spec, base, neighbor)(
                    total(
                        self.spec.spec_zero_payload(neighbor),
                        payload_plus(self.spec, neighbor),
                        concat(entries, entry_items()).map_values(payload_part()),
                    ),
                ),
                total(
                    0u64,
                    count_plus(),
                    concat(entries, entry_items()).map_values(once()),
                ),
            ),
    {
        let zero = found_zero(self.ring());
        let plus = found_plus(self.ring());
        let leaf = tuple_found(self.ring(), self.edges(), self.keys());
        let names = self.names();
        let b = Map::<Seq<char>, (i64, JoinRecord<E, S::P>)>::empty().insert(relation, x);
        self.graph.lemma_parts();
        self.lemma_found_with(relation, x);
        lemma_found_monoid(self.ring());
        let at = names.index_of(relation);
        assert(names[at] == relation);
        let rest = names.remove(at);
        assert(self.edges()[k].wf());
        assert(relation != neighbor);
        assert(names.contains(neighbor)) by {
            assert(self.graph.relation_map().contains_key(neighbor));
        }
        assert(rest =~= seq![neighbor]) by {
            let j = choose|j: int| 0 <= j < names.len() && names[j] == neighbor;
        }
        assert(rest.skip(1) =~= Seq::empty());
        let f = branch(zero, plus, leaf, Seq::empty(), neighbor, self.items(), b);
        assert(self.found(rest, b) == total(zero, plus, self.items()[neighbor].map_values(f)));
        let p = picks::<E, K, S::P>(self.keys(), ck.0, ck.2, ck.3, ck.4);
        assert forall|y: (i64, JoinRecord<E, S::P>)| !p(y) implies #[trigger] f(y) == zero by {
            lemma_unpicked(self.edges(), self.keys(), k, relation, neighbor, b, y, ck.3, ck.4);
        }
        self.lemma_answer_sum(ck, entries, f);
        // What the answer lists is picked, so its tuples count.
        let all = concat(entries, entry_items());
        let slot = slot_of(self.spec, base, neighbor);
        let pay = payload_part::<E, S::P>();
        let one = once::<E, S::P>();
        assert forall|i: int| 0 <= i < all.len() implies f(#[trigger] all[i]) == (slot(all[i].1.payload), 1u64) by {
            let y = all[i];
            self.lemma_answer_picked(ck, entries, i);
            self.lemma_only_edge(relation, neighbor, k, x, y, ck);
            let t = b.insert(neighbor, y);
            assert(payload_map(t) =~= base.insert(neighbor, y.1.payload));
        }
        let first = |a: (S::V, u64)| a.0;
        let second = |a: (S::V, u64)| a.1;
        lemma_total_additive(first, zero, plus, self.spec.spec_zero(), plus_of(self.spec), all.map_values(f));
        lemma_total_additive(second, zero, plus, 0u64, count_plus(), all.map_values(f));
        assert(all.map_values(f).map_values(second) =~= all.map_values(one));
        assert(all.map_values(f).map_values(first) =~= all.map_values(pay).map_values(slot));
        assert(base.dom() =~= Set::empty().insert(relation));
        lemma_total_additive(
            slot,
            self.spec.spec_zero_payload(neighbor),
            payload_plus(self.spec, neighbor),
            self.spec.spec_zero(),
            plus_of(self.spec),
            all.map_values(pay),
        );
    }

    /// Walks all tuples that contain the element.
    fn multi_way_delta(
        &self,
        cache: &mut RangeCache<K, E, S::P>,
        relation_name: &str,
        timestamp: i64,
        record: &JoinRecord<E, S::P>,
    ) -> (r: (S::V, u64))
        requires
            self.wf(),
            self.cache_ok(*old(cache)),
            self.topology().relation_map().contains_key(relation_name@),
            self.item_ok(relation_name@, (timestamp, *record)),
        ensures
            self.cache_ok(*final(cache)),
            r == self.found_with(relation_name@, (timestamp, *record)),
    {
        let ghost x = (timestamp, *record);
        proof {
            lemma_record_lawful::<E, S::P>();
            self.lemma_found_with(relation_name@, x);
        }
        let order = self.build_relation_order(relation_name);
        let mut bound: NameMap<(i64, JoinRecord<E, S::P>)> = NameMap::new();
        bound.insert(relation_name, (timestamp, dup(record)));
        let ghost names = self.names();
        let ghost rest = names.remove(names.index_of(relation_name@));
        proof {
            self.graph.lemma_parts();
            assert(bound@ =~= Map::empty().insert(relation_name@, x));
            assert(bound.keys().to_set().contains(relation_name@));
            assert(names.to_set() =~= names.to_set().difference(
                Map::<Seq<char>, (i64, JoinRecord<E, S::P>)>::empty().dom(),
            ));
            self.lemma_rest_removed(names, names.index_of(relation_name@), Map::empty());
            assert(bound@.dom() =~= Map::<Seq<char>, (i64, JoinRecord<E, S::P>)>::empty().insert(
                relation_name@,
                arbitrary(),
            ).dom());
        }
        self.recursive_join(cache, &order, &mut bound, Ghost(rest))
    }
}

impl<E: Eq + Clone, K: Eq + Clone, S: MultiWayAggregateSpec, FK: Fn(&E) -> K, FP: Fn(&E) -> S::P> JoinCore<
    E,
    K,
    S,
    FK,
    FP,
> {
    /// Same graph, ring, extractors and plan.
    pub closed spec fn same_join(&self, other: &Self) -> bool {
        &&& self.graph == other.graph
        &&& self.spec == other.spec
        &&& self.extractors == other.extractors
        &&& self.view_plan == other.view_plan
    }

    /// The same join has the same graph, ring, extractors and keys.
    pub proof fn lemma_same_join(&self, other: &Self)
        requires
            self.same_join(other),
        ensures
            self.keys() == other.keys(),
            self.topology() == other.topology(),
            self.ring() == other.ring(),
            self.set_up() == other.set_up(),
            self.agrees(other),
            forall|n: Seq<char>| #[trigger] self.extractor(n) == other.extractor(n),
    {
        assert(self.keys() =~= other.keys());
    }

    /// Indices that hold the items of `items`.
    spec fn indices_ok(&self, items: Map<Seq<char>, Seq<(i64, JoinRecord<E, S::P>)>>) -> bool {
        forall|i: int|
            0 <= i < self.indices@.len() ==> {
                let slot = #[trigger] self.indices@[i];
                &&& items.contains_key(slot.relation@)
                &&& slot.index.wf()
                &&& slot.index.depth() == 1
                &&& slot.index@.to_multiset() == items[slot.relation@].map_values(
                    index_item(self.keys(), slot.relation@),
                ).to_multiset()
            }
    }

    /// Changing what the relations hold, and the indices with it, keeps the
    /// join sound.
    proof fn lemma_reindexed(&self, before: &Self)
        requires
            before.wf(),
            self.same_join(before),
            self.items().dom() == before.items().dom(),
            self.indices@.len() == before.indices@.len(),
            forall|i: int|
                0 <= i < self.indices@.len() ==> (#[trigger] self.indices@[i]).relation == before.indices@[i].relation
                    && self.indices@[i].neighbor == before.indices@[i].neighbor,
            self.indices_ok(self.items()),
            forall|n: Seq<char>, i: int|
                self.items().contains_key(n) && 0 <= i < self.items()[n].len() ==> self.item_ok(
                    n,
                    #[trigger] self.items()[n][i],
                ),
        ensures
            self.wf(),
    {
        self.lemma_same_join(before);
        assert forall|i: int| 0 <= i < self.indices@.len() implies self.index_ok(#[trigger] self.indices@[i]) by {}
        assert forall|a: Seq<char>, b: Seq<char>| #[trigger] linked(self.edges(), a, b) implies exists|i: int|
            0 <= i < self.indices@.len() && is_slot(self.indices@[i], a, b) by {
            assert(linked(before.edges(), a, b));
            let i = choose|i: int| 0 <= i < before.indices@.len() && is_slot(before.indices@[i], a, b);
            assert(is_slot(self.indices@[i], a, b));
        }
        assert forall|n: Seq<char>| #[trigger] self.items().contains_key(n) implies exists|i: int|
            0 <= i < self.indices@.len() && (#[trigger] self.indices@[i]).relation@ == n by {
            assert(before.items().dom().contains(n));
            let i = choose|i: int| 0 <= i < before.indices@.len() && (#[trigger] before.indices@[i]).relation@ == n;
            assert(self.indices@[i].relation@ == n);
        }
    }

    /// Puts an element into all indices of its relation.
    #[verifier::rlimit(40)]
    fn index_element(&mut self, relation_name: &str, timestamp: i64, record: JoinRecord<E, S::P>)
        requires
            old(self).wf(),
            old(self).topology().relation_map().contains_key(relation_name@),
            old(self).item_ok(relation_name@, (timestamp, record)),
            old(self).items()[relation_name@].len() < u64::MAX,
        ensures
            final(self).wf(),
            final(self).same_join(old(self)),
            final(self).items() == old(self).items().insert(
                relation_name@,
                old(self).items()[relation_name@].push((timestamp, record)),
            ),
    {
        let ghost before = *self;
        let ghost relation = relation_name@;
        let ghost c = before.items()[relation];
        let ghost x = (timestamp, record);
        let ghost g = index_item::<E, K, S::P>(before.keys(), relation);
        proof {
            lemma_record_lawful::<E, S::P>();
            assert(before.items().dom().contains(relation));
        }
        let key = self.key_of(relation_name, &record.element);
        let mut keys: Vec<K> = Vec::new();
        keys.push(key);
        assert(keys@ =~= seq![before.keys()(relation, record.element)]);
        let mut i: usize = 0;
        while i < self.indices.len()
            invariant
                before.wf(),
                lawful::<K>(),
                lawful::<JoinRecord<E, S::P>>(),
                relation == relation_name@,
                c == before.items()[relation],
                c.len() < u64::MAX,
                x == (timestamp, record),
                g == index_item::<E, K, S::P>(before.keys(), relation),
                keys@ == seq![before.keys()(relation, record.element)],
                self.same_join(&before),
                self.contents == before.contents,
                i <= self.indices@.len(),
                self.indices@.len() == before.indices@.len(),
                forall|j: int|
                    0 <= j < self.indices@.len() ==> {
                        let slot = #[trigger] self.indices@[j];
                        &&& slot.relation == before.indices@[j].relation
                        &&& slot.neighbor == before.indices@[j].neighbor
                        &&& slot.index.wf()
                        &&& slot.index.depth() == 1
                        &&& slot.index@.to_multiset() == if j < i && slot.relation@ == relation {
                            before.indices@[j].index@.to_multiset().insert(g(x))
                        } else {
                            before.indices@[j].index@.to_multiset()
                        }
                    },
            decreases self.indices@.len() - i,
        {
            let ghost at = self.indices@;
            assert(before.index_ok(before.indices@[i as int]));
            if same_name(self.indices[i].relation.as_str(), relation_name) {
                proof {
                    let slot = at[i as int];
                    vstd::seq_lib::to_multiset_len(slot.index@);
                    vstd::seq_lib::to_multiset_len(c.map_values(g));
                }
                self.indices[i].index.insert(keys.as_slice(), timestamp, dup(&record));
                proof {
                    lemma_inserted_multiset(at[i as int].index@, self.indices@[i as int].index@, g(x));
                }
            }
            i += 1;
        }
        self.contents = Ghost(before.items().insert(relation, c.push(x)));
        proof {
            self.lemma_same_join(&before);
            let items = self.items();
            assert(items.dom() =~= before.items().dom());
            assert forall|j: int| 0 <= j < self.indices@.len() implies {
                let slot = #[trigger] self.indices@[j];
                &&& items.contains_key(slot.relation@)
                &&& slot.index.wf()
                &&& slot.index.depth() == 1
                &&& slot.index@.to_multiset() == items[slot.relation@].map_values(
                    index_item(self.keys(), slot.relation@),
                ).to_multiset()
            } by {
                let slot = self.indices@[j];
                assert(before.index_ok(before.indices@[j]));
                if slot.relation@ == relation {
                    lemma_push_multiset(c, x, g);
                }
            }
            assert forall|n: Seq<char>, j: int| items.contains_key(n) && 0 <= j < items[n].len() implies self.item_ok(
                n,
                #[trigger] items[n][j],
            ) by {
                assert(before.items().dom().contains(n));
                if n == relation && j == c.len() {
                } else {
                    assert(before.item_ok(n, before.items()[n][j]));
                }
            }
            self.lemma_reindexed(&before);
        }
    }

    /// Takes one occurrence of an element out of all indices of its relation.
    /// Returns `false` if it was not there.
    #[verifier::rlimit(40)]
    fn unindex_element(&mut self, relation_name: &str, timestamp: i64, record: &JoinRecord<E, S::P>) -> (r: bool)
        requires
            old(self).wf(),
            old(self).topology().relation_map().contains_key(relation_name@),
            determined::<E, K, FK>(old(self).extractor(relation_name@).key, record.element),
        ensures
            final(self).wf(),
            final(self).same_join(old(self)),
            r == old(self).items()[relation_name@].contains((timestamp, *record)),
            r ==> final(self).items() == old(self).items().insert(
                relation_name@,
                old(self).items()[relation_name@].remove(
                    old(self).items()[relation_name@].index_of((timestamp, *record)),
                ),
            ),
            !r ==> final(self).items() == old(self).items(),
    {
        let ghost before = *self;
        let ghost relation = relation_name@;
        let ghost c = before.items()[relation];
        let ghost x = (timestamp, *record);
        let ghost g = index_item::<E, K, S::P>(before.keys(), relation);
        let ghost present = c.contains(x);
        let ghost less = if present { c.remove(c.index_of(x)) } else { c };
        proof {
            lemma_record_lawful::<E, S::P>();
            assert(before.items().dom().contains(relation));
            if present {
                lemma_remove_multiset(c, x, g);
            }
        }
        let key = self.key_of(relation_name, &record.element);
        let mut keys: Vec<K> = Vec::new();
        keys.push(key);
        assert(keys@ =~= seq![before.keys()(relation, record.element)]);
        let mut any = false;
        let mut i: usize = 0;
        while i < self.indices.len()
            invariant
                before.wf(),
                lawful::<K>(),
                lawful::<JoinRecord<E, S::P>>(),
                relation == relation_name@,
                c == before.items()[relation],
                x == (timestamp, *record),
                g == index_item::<E, K, S::P>(before.keys(), relation),
                present == c.contains(x),
                present ==> c.map_values(g).to_multiset() == less.map_values(g).to_multiset().insert(g(x)),
                !present ==> less == c,
                keys@ == seq![before.keys()(relation, record.element)],
                self.same_join(&before),
                self.contents == before.contents,
                i <= self.indices@.len(),
                self.indices@.len() == before.indices@.len(),
                any ==> present,
                (exists|j: int| 0 <= j < i && (#[trigger] before.indices@[j]).relation@ == relation) ==> any == present,
                forall|j: int|
                    0 <= j < self.indices@.len() ==> {
                        let slot = #[trigger] self.indices@[j];
                        &&& slot.relation == before.indices@[j].relation
                        &&& slot.neighbor == before.indices@[j].neighbor
                        &&& slot.index.wf()
                        &&& slot.index.depth() == 1
                        &&& slot.index@.to_multiset() == if j < i && slot.relation@ == relation {
                            less.map_values(g).to_multiset()
                        } else {
                            before.indices@[j].index@.to_multiset()
                        }
                    },
            decreases self.indices@.len() - i,
        {
            let ghost at = self.indices@;
            assert(before.index_ok(before.indices@[i as int]));
            if same_name(self.indices[i].relation.as_str(), relation_name) {
                let gone = self.indices[i].index.delete(keys.as_slice(), timestamp, record);
                proof {
                    lemma_image_present(at[i as int].index@, c, x, g);
                    if gone {
                        lemma_inserted_multiset(self.indices@[i as int].index@, at[i as int].index@, g(x));
                        lemma_insert_cancel(
                            self.indices@[i as int].index@.to_multiset(),
                            less.map_values(g).to_multiset(),
                            g(x),
                        );
                    }
                }
                if gone {
                    any = true;
                }
            }
            proof {
                if exists|j: int| 0 <= j < i + 1 && (#[trigger] before.indices@[j]).relation@ == relation {
                    let j = choose|j: int| 0 <= j < i + 1 && (#[trigger] before.indices@[j]).relation@ == relation;
                    if j < i {
                        assert(before.indices@[j].relation@ == relation);
                    }
                }
            }
            i += 1;
        }
        proof {
            let j = choose|j: int| 0 <= j < before.indices@.len() && (#[trigger] before.indices@[j]).relation@
                == relation;
            assert(before.indices@[j].relation@ == relation);
            assert(any == present);
        }
        self.contents = Ghost(before.items().insert(relation, less));
        proof {
            self.lemma_same_join(&before);
            let items = self.items();
            assert(items.dom() =~= before.items().dom());
            if !present {
                assert(items =~= before.items());
            }
            assert forall|j: int| 0 <= j < self.indices@.len() implies {
                let slot = #[trigger] self.indices@[j];
                &&& items.contains_key(slot.relation@)
                &&& slot.index.wf()
                &&& slot.index.depth() == 1
                &&& slot.index@.to_multiset() == items[slot.relation@].map_values(
                    index_item(self.keys(), slot.relation@),
                ).to_multiset()
            } by {
                let slot = self.indices@[j];
                assert(before.index_ok(before.indices@[j]));
            }
            assert forall|n: Seq<char>, j: int| items.contains_key(n) && 0 <= j < items[n].len() implies self.item_ok(
                n,
                #[trigger] items[n][j],
            ) by {
                assert(before.items().dom().contains(n));
                if n == relation && present {
                    let k = c.index_of(x);
                    let j2 = if j < k { j } else { j + 1 };
                    assert(before.item_ok(n, before.items()[n][j2]));
                } else {
                    assert(before.item_ok(n, before.items()[n][j]));
                }
            }
            self.lemma_reindexed(&before);
        }
        any
    }
}

proof fn lemma_push_multiset<A, B>(c: Seq<A>, x: A, g: spec_fn(A) -> B)
    ensures
        c.push(x).map_values(g).to_multiset() == c.map_values(g).to_multiset().insert(g(x)),
{
    broadcast use vstd::seq_lib::group_to_multiset_ensures;

    assert(c.push(x).map_values(g) =~= c.map_values(g).push(g(x)));
}

proof fn lemma_remove_multiset<A, B>(c: Seq<A>, x: A, g: spec_fn(A) -> B)
    requires
        c.contains(x),
    ensures
        c.map_values(g).to_multiset() == c.remove(c.index_of(x)).map_values(g).to_multiset().insert(g(x)),
        inserted(c.remove(c.index_of(x)), c, x),
{
    let i = c.index_of(x);
    let less = c.remove(i);
    assert(c =~= less.insert(i, x));
    assert(inserted(less, c, x));
    crate::listing::lemma_inserted_map(less, c, x, g);
    lemma_inserted_multiset(less.map_values(g), c.map_values(g), g(x));
}

/// An index contains the image of an item just when the relation has the item.
proof fn lemma_image_present<E, K, P>(
    s: Seq<(Seq<K>, i64, JoinRecord<E, P>)>,
    c: Seq<(i64, JoinRecord<E, P>)>,
    x: (i64, JoinRecord<E, P>),
    g: spec_fn((i64, JoinRecord<E, P>)) -> (Seq<K>, i64, JoinRecord<E, P>),
)
    requires
        s.to_multiset() == c.map_values(g).to_multiset(),
        forall|y: (i64, JoinRecord<E, P>)| (#[trigger] g(y)).1 == y.0 && g(y).2 == y.1,
    ensures
        s.contains(g(x)) == c.contains(x),
{
    broadcast use vstd::seq_lib::group_to_multiset_ensures;

    let m = c.map_values(g);
    vstd::seq_lib::to_multiset_contains(s, g(x));
    vstd::seq_lib::to_multiset_contains(m, g(x));
    if m.contains(g(x)) {
        let i = choose|i: int| 0 <= i < m.len() && m[i] == g(x);
        assert(c[i] == x);
    }
    if c.contains(x) {
        let i = choose|i: int| 0 <= i < c.len() && c[i] == x;
        assert(m[i] == g(x));
    }
}

proof fn lemma_insert_cancel<A>(a: vstd::multiset::Multiset<A>, b: vstd::multiset::Multiset<A>, x: A)
    requires
        a.insert(x) == b.insert(x),
    ensures
        a == b,
{
    assert(a =~= a.insert(x).remove(x));
    assert(b =~= b.insert(x).remove(x));
}

/// Capacity of the range cache of a join.
pub const RANGE_CACHE_CAPACITY: usize = 1024;

/// Executor for an N-way join over a [`JoinGraph`]: keeps an index for each
/// pair of neighbours, and the aggregate over the join of all that was
/// inserted and not deleted.
pub struct MultiWayJoinState<E, K, S: MultiWayAggregateSpec, FK, FP> {
    core: JoinCore<E, K, S, FK, FP>,
    range_cache: RangeCache<K, E, S::P>,
    aggregate: S::V,
    total_inserts: u64,
    total_matches: u64,
}

impl<E, K, S: MultiWayAggregateSpec, FK, FP> MultiWayJoinState<E, K, S, FK, FP> {
    pub closed spec fn join(&self) -> JoinCore<E, K, S, FK, FP> {
        self.core
    }

    pub closed spec fn value(&self) -> S::V {
        self.aggregate
    }

    pub closed spec fn inserts(&self) -> u64 {
        self.total_inserts
    }

    pub closed spec fn matches(&self) -> u64 {
        self.total_matches
    }

    pub closed spec fn cached(&self) -> nat {
        self.range_cache@.len()
    }

    /// The elements of every relation with their timestamps and payloads.
    pub open spec fn items(&self) -> Map<Seq<char>, Seq<(i64, JoinRecord<E, S::P>)>> {
        self.join().items()
    }

    /// The underlying graph.
    pub fn graph(&self) -> (r: &JoinGraph)
        ensures
            *r == self.join().topology(),
    {
        &self.core.graph
    }

    /// Variable order of the join.
    pub fn variable_order(&self) -> (r: &VariableOrder)
        ensures
            *r == self.join().plan().order(),
    {
        self.core.view_plan.variable_order()
    }

    /// View plan of the join.
    pub fn view_plan(&self) -> (r: &FactorizedViewPlan)
        ensures
            *r == self.join().plan(),
    {
        &self.core.view_plan
    }

    /// Current running aggregate.
    pub fn aggregate(&self) -> (r: S::V)
        ensures
            cloned(self.value(), r),
    {
        self.aggregate.clone()
    }

    /// Number of inserts since construction or the last clear.
    pub fn total_inserts(&self) -> (r: u64)
        ensures
            r == self.inserts(),
    {
        self.total_inserts
    }

    /// Number of join tuples found by inserts and deletes so far, modulo the
    /// width of the counter.
    pub fn total_matches(&self) -> (r: u64)
        ensures
            r == self.matches(),
    {
        self.total_matches
    }

    /// Number of cached range queries.
    pub fn range_cache_len(&self) -> (r: usize)
        ensures
            r == self.cached(),
    {
        self.range_cache.len()
    }
}

impl<E: Eq + Clone, K: Eq + Clone, S: MultiWayAggregateSpec, FK: Fn(&E) -> K, FP: Fn(&E) -> S::P> MultiWayJoinState<
    E,
    K,
    S,
    FK,
    FP,
> {
    /// The aggregate over the join of what the relations hold.
    pub open spec fn full_join(&self) -> S::V {
        join_total(
            self.join().ring(),
            self.join().edges(),
            self.join().keys(),
            self.join().names(),
            self.items(),
        )
    }

    /// The aggregate over the tuples of the join that contain `x`.
    pub open spec fn delta_of(&self, relation: Seq<char>, x: (i64, JoinRecord<E, S::P>)) -> S::V {
        join_total(
            self.join().ring(),
            self.join().edges(),
            self.join().keys(),
            self.join().names(),
            self.items().insert(relation, seq![x]),
        )
    }

    /// How many tuples of the join contain `x`.
    pub open spec fn matches_of(&self, relation: Seq<char>, x: (i64, JoinRecord<E, S::P>)) -> u64 {
        join_count(
            self.join().edges(),
            self.join().keys(),
            self.join().names(),
            self.items().insert(relation, seq![x]),
        )
    }

    /// Nothing was inserted since the beginning.
    pub open spec fn is_blank(&self) -> bool {
        &&& forall|n: Seq<char>| #[trigger] self.items().contains_key(n) ==> self.items()[n].len() == 0
        &&& self.value() == self.join().ring().spec_zero()
        &&& self.inserts() == 0
        &&& self.matches() == 0
        &&& self.cached() == 0
    }

    /// The running aggregate is the aggregate over the whole join, and no answer
    /// is cached any more.
    pub closed spec fn wf(&self) -> bool {
        &&& self.core.wf()
        &&& self.range_cache.wf()
        &&& self.range_cache@.len() == 0
        &&& self.aggregate == self.full_join()
    }

    /// At all times the running aggregate is the aggregate over the join of
    /// what was inserted and not deleted.
    pub proof fn law_aggregate_is_full_join(&self)
        requires
            self.wf(),
        ensures
            self.value() == self.full_join(),
    {
    }

    /// Between operations the range cache is empty.
    pub proof fn law_cache_is_empty_between_operations(&self)
        requires
            self.wf(),
        ensures
            self.cached() == 0,
    {
    }

    /// With nothing in the relations the join is empty.
    proof fn lemma_empty(&self)
        requires
            self.core.set_up(),
            self.items().dom() == self.core.graph.relation_map().dom(),
            forall|n: Seq<char>| #[trigger] self.items().contains_key(n) ==> self.items()[n].len() == 0,
        ensures
            self.full_join() == self.core.spec.spec_zero(),
    {
        let names = self.join().names();
        self.core.graph.lemma_parts();
        if names.len() > 0 {
            assert(names.contains(names[0]));
            assert(self.core.graph.relation_map().contains_key(names[0]));
            assert(self.items().dom().contains(names[0]));
            let f = branch(
                self.core.spec.spec_zero(),
                plus_of(self.core.spec),
                tuple_value(self.core.spec, self.join().edges(), self.join().keys()),
                names.skip(1),
                names[0],
                self.items(),
                Map::empty(),
            );
            assert(self.items()[names[0]].map_values(f) =~= Seq::empty());
        }
    }

    /// One item more in a relation adds the tuples that contain it.
    proof fn lemma_item_more(
        s: S,
        edges: Seq<Edge>,
        keys: spec_fn(Seq<char>, E) -> K,
        names: Seq<Seq<char>>,
        less: Map<Seq<char>, Seq<(i64, JoinRecord<E, S::P>)>>,
        more: Map<Seq<char>, Seq<(i64, JoinRecord<E, S::P>)>>,
        relation: Seq<char>,
        x: (i64, JoinRecord<E, S::P>),
    )
        requires
            is_multiway_ring(s),
            names.no_duplicates(),
            names.contains(relation),
            inserted(less[relation], more[relation], x),
            forall|n: Seq<char>| n != relation ==> #[trigger] less[n] == more[n],
        ensures
            join_total(s, edges, keys, names, more) == s.spec_add(
                join_total(s, edges, keys, names, less),
                join_total(s, edges, keys, names, less.insert(relation, seq![x])),
            ),
    {
        let zero = s.spec_zero();
        let plus = plus_of(s);
        let leaf = tuple_value(s, edges, keys);
        let none = Map::<Seq<char>, (i64, JoinRecord<E, S::P>)>::empty();
        let only = less.insert(relation, seq![x]);
        let i = names.index_of(relation);
        let rest = names.remove(i);
        lemma_found_monoid(s);
        assert(names[i] == relation);
        lemma_join_sum_front(zero, plus, leaf, names, i, more, none);
        lemma_join_sum_front(zero, plus, leaf, names, i, less, none);
        lemma_join_sum_front(zero, plus, leaf, names, i, only, none);
        let f = branch(zero, plus, leaf, rest, relation, less, none);
        let g = branch(zero, plus, leaf, rest, relation, more, none);
        let h = branch(zero, plus, leaf, rest, relation, only, none);
        assert forall|y: (i64, JoinRecord<E, S::P>)| #[trigger] f(y) == g(y) && f(y) == h(y) by {
            assert forall|j: int| 0 <= j < rest.len() implies less[#[trigger] rest[j]] == more[rest[j]]
                && less[rest[j]] == only[rest[j]] by {
                assert(rest[j] == names[if j < i { j } else { j + 1 }]);
            }
            lemma_join_sum_same_items(zero, plus, leaf, rest, less, more, none.insert(relation, y));
            lemma_join_sum_same_items(zero, plus, leaf, rest, less, only, none.insert(relation, y));
        }
        lemma_total_same(zero, plus, more[relation], f, g);
        crate::listing::lemma_inserted_map(less[relation], more[relation], x, f);
        crate::algebra::lemma_total_inserted(
            zero,
            plus,
            less[relation].map_values(f),
            more[relation].map_values(f),
            f(x),
        );
        let one = only[relation].map_values(h);
        assert(one.drop_last() =~= Seq::empty());
        assert(one.last() == f(x));
        assert(total(zero, plus, one.drop_last()) == zero);
        assert(plus(zero, f(x)) == f(x));
    }

    /// An executor for a connected graph with extractors for each of its
    /// relations.
    pub fn with_extractors(graph: JoinGraph, spec: S, extractors: NameMap<RelationExtractors<FK, FP>>) -> (r: Self)
        requires
            lawful::<E>(),
            lawful::<K>(),
            lawful::<S::P>(),
            is_multiway_ring(spec),
            graph.wf(),
            connected(graph.neighbor_map()),
            forall|n: Seq<char>| #[trigger]
                graph.relation_map().contains_key(n) ==> graph.neighbor_map()[n] != Set::<Seq<char>>::empty(),
            extractors.wf(),
            extractors@.dom() == graph.relation_map().dom(),
        ensures
            r.wf(),
            r.join().topology() == graph,
            r.join().ring() == spec,
            forall|n: Seq<char>| #[trigger] r.join().extractor(n) == extractors@[n],
            r.items().dom() == graph.relation_map().dom(),
            r.is_blank(),
    {
        let view_plan = FactorizedViewPlan::from_graph(&graph, graph.build_variable_order());
        let aggregate = spec.zero();
        let ghost contents = Map::new(
            |n: Seq<char>| graph.relation_map().contains_key(n),
            |n: Seq<char>| Seq::<(i64, JoinRecord<E, S::P>)>::empty(),
        );
        let indices = edge_indices(&graph);
        let core = JoinCore {
            graph,
            spec,
            extractors,
            indices,
            view_plan,
            contents: Ghost(contents),
        };
        let r = MultiWayJoinState {
            core,
            range_cache: RangeCache::new(RANGE_CACHE_CAPACITY),
            aggregate,
            total_inserts: 0,
            total_matches: 0,
        };
        proof {
            assert(contents.dom() =~= graph.relation_map().dom());
            assert(core.edges() == graph.edge_list());
            assert forall|i: int| 0 <= i < core.indices@.len() implies core.index_ok(#[trigger] core.indices@[i]) by {
                let slot = core.indices@[i];
                assert(contents.dom().contains(slot.relation@));
                assert(slot.index@ =~= core.items()[slot.relation@].map_values(
                    index_item(core.keys(), slot.relation@),
                ));
            }
            assert forall|n: Seq<char>| #[trigger] core.items().contains_key(n) implies exists|i: int|
                0 <= i < core.indices@.len() && (#[trigger] core.indices@[i]).relation@ == n by {
                assert(graph.relation_map().contains_key(n));
                let i = choose|i: int| 0 <= i < indices@.len() && (#[trigger] indices@[i]).relation@ == n;
                assert(core.indices@[i].relation@ == n);
            }
            assert(core.wf());
            r.lemma_empty();
        }
        r
    }
}

impl<E: Eq + Clone, K: Eq + Clone, S: MultiWayAggregateSpec, FK: Fn(&E) -> K, FP: Fn(&E) -> S::P> MultiWayJoinState<
    E,
    K,
    S,
    FK,
    FP,
> {
    /// The element may be one of a relation.
    pub open spec fn suits(&self, relation: Seq<char>, element: E) -> bool {
        &&& self.join().topology().relation_map().contains_key(relation)
        &&& self.join().accepts(relation, element)
    }

    /// The element may be handed to a relation at a time.
    pub open spec fn accepts(&self, relation: Seq<char>, timestamp: i64, element: E) -> bool {
        &&& self.suits(relation, element)
        &&& stamp_fits(self.join().edges(), relation, timestamp)
    }

    /// The element as the relation keeps it.
    pub open spec fn item_of(&self, relation: Seq<char>, timestamp: i64, element: E) -> (
        i64,
        JoinRecord<E, S::P>,
    ) {
        (timestamp, JoinRecord { element, payload: self.join().payload_of(relation, element) })
    }

    /// What inserting an element does to the elements and the aggregate.
    pub open spec fn insertion(
        before: &Self,
        after: &Self,
        relation: Seq<char>,
        timestamp: i64,
        element: E,
        r: S::V,
    ) -> bool {
        let x = before.item_of(relation, timestamp, element);
        &&& after.join().agrees(&before.join())
        &&& r == before.delta_of(relation, x)
        &&& after.value() == before.join().ring().spec_add(before.value(), r)
        &&& after.items() == before.items().insert(relation, before.items()[relation].push(x))
    }

    /// What deleting an element does to the elements and the aggregate.
    pub open spec fn deletion(
        before: &Self,
        after: &Self,
        relation: Seq<char>,
        timestamp: i64,
        element: E,
        r: S::V,
    ) -> bool {
        let x = before.item_of(relation, timestamp, element);
        let c = before.items()[relation];
        &&& after.join().agrees(&before.join())
        &&& after.value() == before.join().ring().spec_add(before.value(), r)
        &&& if c.contains(x) {
            &&& r == before.join().ring().spec_negate(before.delta_of(relation, x))
            &&& after.items() == before.items().insert(relation, c.remove(c.index_of(x)))
        } else {
            &&& r == before.join().ring().spec_zero()
            &&& after.items() == before.items()
        }
    }

    /// Inserts an element into a relation. Returns what it adds to the
    /// aggregate.
    pub fn insert(&mut self, relation_name: &str, timestamp: i64, element: E) -> (r: S::V)
        requires
            old(self).wf(),
            old(self).accepts(relation_name@, timestamp, element),
            old(self).inserts() < u64::MAX,
            old(self).items()[relation_name@].len() < u64::MAX,
        ensures
            final(self).wf(),
            final(self).join().same_join(&old(self).join()),
            Self::insertion(old(self), final(self), relation_name@, timestamp, element, r),
            final(self).cached() == 0,
            final(self).inserts() == old(self).inserts() + 1,
            final(self).matches() == old(self).matches().wrapping_add(
                old(self).matches_of(relation_name@, old(self).item_of(relation_name@, timestamp, element)),
            ),
    {
        let ghost before = self.core;
        let ghost relation = relation_name@;
        proof {
            assert(before.extractors@.dom().contains(relation));
        }
        let payload = apply(&self.core.extractors.get(relation_name).unwrap().payload, &element);
        let record = JoinRecord::new(element, payload);
        let ghost x = (timestamp, record);
        proof {
            assert(x == self.item_of(relation, timestamp, element));
            before.lemma_found_with(relation, x);
            lemma_found_parts(
                before.ring(),
                before.edges(),
                before.keys(),
                before.names(),
                before.items().insert(relation, seq![x]),
                Map::empty(),
            );
        }
        let (delta, found) = self.core.compute_delta(&mut self.range_cache, relation_name, timestamp, &record);
        self.total_inserts = self.total_inserts + 1;
        self.total_matches = self.total_matches.wrapping_add(found);
        self.aggregate = self.core.spec.add(&self.aggregate, &delta);
        self.core.index_element(relation_name, timestamp, record);
        self.range_cache.clear();
        proof {
            self.core.lemma_same_join(&before);
            let less = before.items();
            let more = self.core.items();
            let c = less[relation];
            assert(c.push(x) =~= c.insert(c.len() as int, x));
            assert(inserted(c, more[relation], x));
            Self::lemma_item_more(
                before.ring(),
                before.edges(),
                before.keys(),
                before.names(),
                less,
                more,
                relation,
                x,
            );
        }
        delta
    }

    /// Taking an item out takes its tuples from the aggregate.
    proof fn lemma_taken(
        before: &JoinCore<E, K, S, FK, FP>,
        after: &JoinCore<E, K, S, FK, FP>,
        relation: Seq<char>,
        x: (i64, JoinRecord<E, S::P>),
    )
        requires
            before.set_up(),
            after.same_join(before),
            before.graph.relation_map().contains_key(relation),
            before.items()[relation].contains(x),
            after.items() == before.items().insert(
                relation,
                before.items()[relation].remove(before.items()[relation].index_of(x)),
            ),
        ensures
            ({
                let ring = before.ring();
                let edges = before.edges();
                let keys = before.keys();
                let names = before.names();
                let only = before.items().insert(relation, seq![x]);
                let delta = join_total(ring, edges, keys, names, only);
                &&& after.found_with(relation, x) == (delta, join_count(edges, keys, names, only))
                &&& ring.spec_add(
                    join_total(ring, edges, keys, names, before.items()),
                    ring.spec_negate(delta),
                ) == join_total(ring, edges, keys, names, after.items())
            }),
    {
        let ring = before.ring();
        let less = after.items();
        let more = before.items();
        after.lemma_same_join(before);
        lemma_remove_multiset(more[relation], x, index_item::<E, K, S::P>(before.keys(), relation));
        after.lemma_found_with(relation, x);
        assert(less.insert(relation, seq![x]) =~= more.insert(relation, seq![x]));
        lemma_found_parts(
            ring,
            before.edges(),
            before.keys(),
            before.names(),
            less.insert(relation, seq![x]),
            Map::empty(),
        );
        Self::lemma_item_more(ring, before.edges(), before.keys(), before.names(), less, more, relation, x);
        let full = join_total(ring, before.edges(), before.keys(), before.names(), less);
        let delta = join_total(ring, before.edges(), before.keys(), before.names(), less.insert(relation, seq![x]));
        lemma_take_back(ring, full, delta);
    }

    /// Deletes one occurrence of an element from a relation. Returns what it
    /// takes from the aggregate: zero if the element was not there.
    pub fn delete(&mut self, relation_name: &str, timestamp: i64, element: E) -> (r: S::V)
        requires
            old(self).wf(),
            old(self).suits(relation_name@, element),
        ensures
            final(self).wf(),
            final(self).join().same_join(&old(self).join()),
            final(self).cached() == 0,
            final(self).inserts() == old(self).inserts(),
            Self::deletion(old(self), final(self), relation_name@, timestamp, element, r),
            ({
                let x = old(self).item_of(relation_name@, timestamp, element);
                if old(self).items()[relation_name@].contains(x) {
                    final(self).matches() == old(self).matches().wrapping_add(old(self).matches_of(relation_name@, x))
                } else {
                    final(self).matches() == old(self).matches()
                }
            }),
    {
        let ghost before = self.core;
        let ghost relation = relation_name@;
        proof {
            assert(before.extractors@.dom().contains(relation));
        }
        let payload = apply(&self.core.extractors.get(relation_name).unwrap().payload, &element);
        let record = JoinRecord::new(element, payload);
        let ghost x = (timestamp, record);
        assert(x == self.item_of(relation, timestamp, element));
        let removed = self.core.unindex_element(relation_name, timestamp, &record);
        proof {
            self.core.lemma_same_join(&before);
        }
        if !removed {
            let r = self.core.spec.zero();
            proof {
                lemma_found_monoid(before.ring());
                let a = self.aggregate;
                assert(plus_of(before.ring())(a, before.ring().spec_zero()) == plus_of(before.ring())(
                    before.ring().spec_zero(),
                    a,
                ));
                assert(plus_of(before.ring())(before.ring().spec_zero(), a) == a);
            }
            return r;
        }
        proof {
            let c = before.items()[relation];
            assert(before.items().dom().contains(relation));
            assert(before.item_ok(relation, before.items()[relation][c.index_of(x)]));
            Self::lemma_taken(&before, &self.core, relation, x);
        }
        let (positive, found) = self.core.compute_delta(&mut self.range_cache, relation_name, timestamp, &record);
        self.range_cache.clear();
        let delta = self.core.spec.negate(&positive);
        self.total_matches = self.total_matches.wrapping_add(found);
        self.aggregate = self.core.spec.add(&self.aggregate, &delta);
        delta
    }

    /// Forgets every element and all counts.
    pub fn clear(&mut self)
        requires
            old(self).wf(),
        ensures
            final(self).wf(),
            final(self).join().same_join(&old(self).join()),
            final(self).join().agrees(&old(self).join()),
            final(self).items().dom() == old(self).items().dom(),
            final(self).is_blank(),
    {
        let ghost before = self.core;
        self.core.clear_indices();
        self.range_cache.clear();
        self.aggregate = self.core.spec.zero();
        self.total_inserts = 0;
        self.total_matches = 0;
        proof {
            self.core.lemma_same_join(&before);
            self.lemma_empty();
        }
    }
}

impl<E: Eq + Clone, K: Eq + Clone, S: MultiWayAggregateSpec, FK: Fn(&E) -> K, FP: Fn(&E) -> S::P> JoinCore<
    E,
    K,
    S,
    FK,
    FP,
> {
    /// Empties every index.
    fn clear_indices(&mut self)
        requires
            old(self).wf(),
        ensures
            final(self).wf(),
            final(self).same_join(old(self)),
            final(self).items().dom() == old(self).items().dom(),
            forall|n: Seq<char>| #[trigger] final(self).items().contains_key(n) ==> final(self).items()[n].len() == 0,
    {
        let ghost before = *self;
        let mut i: usize = 0;
        while i < self.indices.len()
            invariant
                before.wf(),
                self.same_join(&before),
                self.contents == before.contents,
                i <= self.indices@.len(),
                self.indices@.len() == before.indices@.len(),
                forall|j: int|
                    0 <= j < self.indices@.len() ==> {
                        let slot = #[trigger] self.indices@[j];
                        &&& slot.relation == before.indices@[j].relation
                        &&& slot.neighbor == before.indices@[j].neighbor
                        &&& slot.index.wf()
                        &&& slot.index.depth() == 1
                        &&& j < i ==> slot.index@.len() == 0
                        &&& j >= i ==> slot.index == before.indices@[j].index
                    },
            decreases self.indices@.len() - i,
        {
            assert(before.index_ok(before.indices@[i as int]));
            self.indices[i].index.clear();
            i += 1;
        }
        self.contents = Ghost(
            Map::new(
                |n: Seq<char>| before.items().contains_key(n),
                |n: Seq<char>| Seq::<(i64, JoinRecord<E, S::P>)>::empty(),
            ),
        );
        proof {
            self.lemma_same_join(&before);
            assert(self.items().dom() =~= before.items().dom());
            assert forall|j: int| 0 <= j < self.indices@.len() implies {
                let slot = #[trigger] self.indices@[j];
                &&& self.items().contains_key(slot.relation@)
                &&& slot.index.wf()
                &&& slot.index.depth() == 1
                &&& slot.index@.to_multiset() == self.items()[slot.relation@].map_values(
                    index_item(self.keys(), slot.relation@),
                ).to_multiset()
            } by {
                let slot = self.indices@[j];
                assert(before.index_ok(before.indices@[j]));
                assert(before.items().dom().contains(slot.relation@));
                assert(slot.index@ =~= self.items()[slot.relation@].map_values(
                    index_item(self.keys(), slot.relation@),
                ));
            }
            self.lemma_reindexed(&before);
        }
    }
}

/// An empty index for each pair of neighbours.
fn edge_indices<K, T>(graph: &JoinGraph) -> (r: Vec<EdgeIndex<K, T>>)
    requires
        graph.wf(),
        forall|n: Seq<char>| #[trigger]
            graph.relation_map().contains_key(n) ==> graph.neighbor_map()[n] != Set::<Seq<char>>::empty(),
    ensures
        forall|i: int|
            0 <= i < r@.len() ==> {
                let slot = #[trigger] r@[i];
                &&& graph.relation_map().contains_key(slot.relation@)
                &&& slot.index.wf()
                &&& slot.index.depth() == 1
                &&& slot.index@.len() == 0
            },
        forall|a: Seq<char>, b: Seq<char>| #[trigger]
            linked(graph.edge_list(), a, b) ==> exists|i: int| 0 <= i < r@.len() && is_slot(r@[i], a, b),
        forall|n: Seq<char>| #[trigger]
            graph.relation_map().contains_key(n) ==> exists|i: int|
                0 <= i < r@.len() && (#[trigger] r@[i]).relation@ == n,
{
    let mut r: Vec<EdgeIndex<K, T>> = Vec::new();
    let names = graph.relation_names();
    let ghost g = graph.neighbor_map();
    proof {
        graph.lemma_parts();
    }
    let mut i: usize = 0;
    while i < names.len()
        invariant
            graph.wf(),
            g == graph.neighbor_map(),
            names@.map_values(|n: &str| n@) == graph.names(),
            i <= names@.len(),
            forall|k: int|
                0 <= k < r@.len() ==> {
                    let slot = #[trigger] r@[k];
                    &&& graph.relation_map().contains_key(slot.relation@)
                    &&& slot.index.wf()
                    &&& slot.index.depth() == 1
                    &&& slot.index@.len() == 0
                },
            forall|j: int, b: Seq<char>|
                0 <= j < i && #[trigger] g[graph.names()[j]].contains(b) ==> exists|k: int|
                    0 <= k < r@.len() && #[trigger] is_slot(r@[k], graph.names()[j], b),
        decreases names@.len() - i,
    {
        let name = names[i];
        proof {
            graph.lemma_parts();
            assert(graph.names()[i as int] == name@);
            assert(graph.names().contains(name@));
            assert(graph.relation_map().contains_key(name@));
        }
        let neighbors = graph.neighbors(name);
        let ghost r0 = r@;
        let mut j: usize = 0;
        while j < neighbors.len()
            invariant
                graph.relation_map().contains_key(name@),
                j <= neighbors@.len(),
                r0.len() <= r@.len(),
                forall|k: int| 0 <= k < r0.len() ==> r@[k] == r0[k],
                forall|k: int|
                    0 <= k < r@.len() ==> {
                        let slot = #[trigger] r@[k];
                        &&& graph.relation_map().contains_key(slot.relation@)
                        &&& slot.index.wf()
                        &&& slot.index.depth() == 1
                        &&& slot.index@.len() == 0
                    },
                forall|q: int| 0 <= q < j ==> has_slot(r@, name@, (#[trigger] neighbors@[q])@),
            decreases neighbors@.len() - j,
        {
            let ghost r1 = r@;
            r.push(
                EdgeIndex {
                    relation: name.to_string(),
                    neighbor: neighbors[j].to_string(),
                    index: CTrieIndex::new(1),
                },
            );
            proof {
                assert forall|q: int| 0 <= q < j + 1 implies has_slot(r@, name@, (#[trigger] neighbors@[q])@) by {
                    if q < j {
                        assert(has_slot(r1, name@, neighbors@[q]@));
                        let k = choose|k: int| 0 <= k < r1.len() && #[trigger] is_slot(r1[k], name@, neighbors@[q]@);
                        assert(is_slot(r@[k], name@, neighbors@[q]@));
                    } else {
                        assert(is_slot(r@[r1.len() as int], name@, neighbors@[q]@));
                    }
                }
            }
            j += 1;
        }
        proof {
            assert forall|p: int, b: Seq<char>|
                0 <= p < i + 1 && #[trigger] g[graph.names()[p]].contains(b) implies exists|k: int|
                0 <= k < r@.len() && #[trigger] is_slot(r@[k], graph.names()[p], b) by {
                if p < i {
                    let k = choose|k: int| 0 <= k < r0.len() && #[trigger] is_slot(r0[k], graph.names()[p], b);
                    assert(is_slot(r@[k], graph.names()[p], b));
                } else {
                    let l = neighbors@.map_values(|n: &str| n@);
                    assert(l.to_set().contains(b));
                    let q = choose|q: int| 0 <= q < l.len() && l[q] == b;
                    assert(neighbors@[q]@ == b);
                    assert(has_slot(r@, name@, b));
                }
            }
        }
        i += 1;
    }
    proof {
        assert(names@.map_values(|n: &str| n@).len() == names@.len());
        assert forall|a: Seq<char>, b: Seq<char>| #[trigger] linked(graph.edge_list(), a, b) implies exists|k: int|
            0 <= k < r@.len() && is_slot(r@[k], a, b) by {
            graph.lemma_parts();
            let e = choose|e: int| 0 <= e < graph.edge_list().len() && (#[trigger] graph.edge_list()[e]).links(a, b);
            assert(graph.edge_list()[e].wf());
            assert(graph.relation_map().contains_key(a));
            assert(g.dom().contains(a));
            assert(g[a].contains(b));
            let p = choose|p: int| 0 <= p < graph.names().len() && graph.names()[p] == a;
            assert(g[graph.names()[p]].contains(b));
        }
        assert forall|n: Seq<char>| #[trigger] graph.relation_map().contains_key(n) implies exists|k: int|
            0 <= k < r@.len() && (#[trigger] r@[k]).relation@ == n by {
            graph.lemma_parts();
            assert(exists|b: Seq<char>| g[n].contains(b)) by {
                if forall|b: Seq<char>| !g[n].contains(b) {
                    assert(g[n] =~= Set::empty());
                }
            }
            let b = choose|b: Seq<char>| g[n].contains(b);
            let p = choose|p: int| 0 <= p < graph.names().len() && graph.names()[p] == n;
            assert(g[graph.names()[p]].contains(b));
            let k = choose|k: int| 0 <= k < r@.len() && #[trigger] is_slot(r@[k], graph.names()[p], b);
            assert(r@[k].relation@ == n);
        }
    }
    r
}

/// Some slot indexes `a` for joins with `b`.
spec fn has_slot<K, T>(slots: Seq<EdgeIndex<K, T>>, a: Seq<char>, b: Seq<char>) -> bool {
    exists|k: int| 0 <= k < slots.len() && #[trigger] is_slot(slots[k], a, b)
}

/// What was added can be taken back.
proof fn lemma_take_back<S: MultiWayAggregateSpec>(ring: S, a: S::V, b: S::V)
    requires
        is_multiway_ring(ring),
    ensures
        ring.spec_add(ring.spec_add(a, b), ring.spec_negate(b)) == a,
{
    let plus = plus_of(ring);
    let zero = ring.spec_zero();
    let back = minus_of(ring)(b);
    assert(plus(plus(a, b), back) == plus(a, plus(b, back)));
    assert(plus(b, back) == zero);
    assert(plus(a, zero) == plus(zero, a));
}

/// The slot indexes `a` for joins with `b`.
spec fn is_slot<K, T>(slot: EdgeIndex<K, T>, a: Seq<char>, b: Seq<char>) -> bool {
    slot.relation@ == a && slot.neighbor@ == b
}

impl<E: Eq + Clone, K: Eq + Clone, S: MultiWayAggregateSpec, FK: Fn(&E) -> K, FP: Fn(&E) -> S::P> MultiWayJoinState<
    E,
    K,
    S,
    FK,
    FP,
> {
    /// Same join, same aggregate, and the same elements up to their order.
    pub open spec fn alike(&self, other: &Self) -> bool {
        &&& self.join().agrees(&other.join())
        &&& self.value() == other.value()
        &&& self.items().dom() == other.items().dom()
        &&& forall|n: Seq<char>| #[trigger]
            self.items().contains_key(n) ==> self.items()[n].to_multiset() == other.items()[n].to_multiset()
    }

    /// A sound state has a ring, and elements for the relations of its graph.
    proof fn lemma_wf_parts(&self)
        requires
            self.wf(),
        ensures
            is_multiway_ring(self.join().ring()),
            self.items().dom() == self.join().topology().relation_map().dom(),
            forall|i: int|
                0 <= i < self.join().names().len() ==> self.items().contains_key(#[trigger] self.join().names()[i]),
    {
        self.core.graph.lemma_parts();
        assert forall|i: int| 0 <= i < self.join().names().len() implies self.items().contains_key(
            #[trigger] self.join().names()[i],
        ) by {
            assert(self.join().names().contains(self.join().names()[i]));
            assert(self.core.graph.relation_map().contains_key(self.join().names()[i]));
            assert(self.items().dom().contains(self.join().names()[i]));
        }
    }

    /// What an element adds does not depend on the order of the others.
    proof fn lemma_alike_delta(a: &Self, b: &Self, relation: Seq<char>, timestamp: i64, element: E)
        requires
            a.wf(),
            a.alike(b),
        ensures
            a.item_of(relation, timestamp, element) == b.item_of(relation, timestamp, element),
            a.delta_of(relation, a.item_of(relation, timestamp, element)) == b.delta_of(
                relation,
                b.item_of(relation, timestamp, element),
            ),
    {
        a.lemma_wf_parts();
        let x = a.item_of(relation, timestamp, element);
        let s = a.join().ring();
        assert(a.join().keys() =~= b.join().keys());
        lemma_found_monoid(s);
        let names = a.join().names();
        let xs = a.items().insert(relation, seq![x]);
        let ys = b.items().insert(relation, seq![x]);
        assert forall|i: int| 0 <= i < names.len() implies xs[#[trigger] names[i]].to_multiset()
            == ys[names[i]].to_multiset() by {
            assert(a.items().contains_key(names[i]));
        }
        lemma_join_sum_reorder(
            s.spec_zero(),
            plus_of(s),
            tuple_value(s, a.join().edges(), a.join().keys()),
            names,
            xs,
            ys,
            Map::empty(),
        );
    }

    /// States that differ in the order of their elements alone answer an
    /// insert alike, and stay alike.
    pub proof fn law_alike_states_insert_alike(
        a: &Self,
        a_next: &Self,
        b: &Self,
        b_next: &Self,
        relation: Seq<char>,
        timestamp: i64,
        element: E,
        from_a: S::V,
        from_b: S::V,
    )
        requires
            a.wf(),
            a.alike(b),
            a.items().contains_key(relation),
            Self::insertion(a, a_next, relation, timestamp, element, from_a),
            Self::insertion(b, b_next, relation, timestamp, element, from_b),
        ensures
            from_a == from_b,
            a_next.alike(b_next),
    {
        broadcast use vstd::seq_lib::group_to_multiset_ensures;

        Self::lemma_alike_delta(a, b, relation, timestamp, element);
        assert(a_next.items().dom() =~= b_next.items().dom());
    }

    /// States that differ in the order of their elements alone answer a delete
    /// alike, and stay alike.
    pub proof fn law_alike_states_delete_alike(
        a: &Self,
        a_next: &Self,
        b: &Self,
        b_next: &Self,
        relation: Seq<char>,
        timestamp: i64,
        element: E,
        from_a: S::V,
        from_b: S::V,
    )
        requires
            a.wf(),
            a.alike(b),
            a.items().contains_key(relation),
            Self::deletion(a, a_next, relation, timestamp, element, from_a),
            Self::deletion(b, b_next, relation, timestamp, element, from_b),
        ensures
            from_a == from_b,
            a_next.alike(b_next),
    {
        broadcast use vstd::seq_lib::group_to_multiset_ensures;

        Self::lemma_alike_delta(a, b, relation, timestamp, element);
        let x = a.item_of(relation, timestamp, element);
        let c = a.items()[relation];
        let d = b.items()[relation];
        assert(c.contains(x) == d.contains(x)) by {
            assert(c.contains(x) <==> c.to_multiset().count(x) > 0);
            assert(d.contains(x) <==> d.to_multiset().count(x) > 0);
        }
        assert(a_next.items().dom() =~= b_next.items().dom());
        if c.contains(x) {
            lemma_removed_multiset(c, x);
            lemma_removed_multiset(d, x);
        }
    }

    /// Deleting right after inserting takes everything back: the delete
    /// returns the inverse of what the insert returned, the aggregate is what
    /// it was, and so are the elements up to their order. By
    /// [`law_alike_states_insert_alike`](Self::law_alike_states_insert_alike)
    /// and [`law_alike_states_delete_alike`](Self::law_alike_states_delete_alike)
    /// every later call answers as if neither had happened.
    pub proof fn law_delete_undoes_insert(
        before: &Self,
        middle: &Self,
        after: &Self,
        relation: Seq<char>,
        timestamp: i64,
        element: E,
        added: S::V,
        taken: S::V,
    )
        requires
            before.wf(),
            before.items().contains_key(relation),
            Self::insertion(before, middle, relation, timestamp, element, added),
            Self::deletion(middle, after, relation, timestamp, element, taken),
        ensures
            taken == before.join().ring().spec_negate(added),
            after.value() == before.value(),
            after.alike(before),
    {
        before.lemma_wf_parts();
        let s = before.join().ring();
        let x = before.item_of(relation, timestamp, element);
        let c = before.items()[relation];
        let more = c.push(x);
        assert(middle.item_of(relation, timestamp, element) == x);
        assert(middle.items()[relation] == more);
        assert(more[c.len() as int] == x);
        assert(more.contains(x));
        assert(middle.items().insert(relation, seq![x]) =~= before.items().insert(relation, seq![x]));
        assert(middle.join().keys() =~= before.join().keys());
        lemma_take_back(s, before.value(), added);
        lemma_removed_multiset(more, x);
        broadcast use vstd::seq_lib::group_to_multiset_ensures;

        assert(more.to_multiset() =~= c.to_multiset().insert(x));
        assert(more.to_multiset().remove(x) =~= c.to_multiset());
        assert(after.items().dom() =~= before.items().dom());
    }

    /// A cleared state is as good as a new one of the same join: they are
    /// alike, and so answer every later call alike.
    pub proof fn law_cleared_is_as_new(cleared: &Self, new: &Self)
        requires
            cleared.is_blank(),
            new.is_blank(),
            cleared.join().agrees(&new.join()),
            cleared.items().dom() == new.items().dom(),
        ensures
            cleared.alike(new),
            cleared.inserts() == new.inserts(),
            cleared.matches() == new.matches(),
            cleared.cached() == new.cached(),
    {
        assert forall|n: Seq<char>| #[trigger] cleared.items().contains_key(n) implies cleared.items()[n].to_multiset()
            == new.items()[n].to_multiset() by {
            assert(new.items().dom().contains(n));
            assert(new.items().contains_key(n));
            assert(cleared.items()[n] =~= new.items()[n]);
        }
    }
}

proof fn lemma_removed_multiset<A>(s: Seq<A>, x: A)
    requires
        s.contains(x),
    ensures
        s.remove(s.index_of(x)).to_multiset() == s.to_multiset().remove(x),
{
    broadcast use vstd::seq_lib::group_to_multiset_ensures;

    assert(s[s.index_of(x)] == x);
}

} // verus!
