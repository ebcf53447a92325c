//! What a multi-way join aggregates: the ring, the edges between relations,
//! and the sum over all tuples of the join.
use vstd::prelude::*;

use crate::algebra::{additive, group, monoid};
use crate::names::{ascending_names, lemma_ascending_distinct, lemma_ascending_unique, NameMap};
use crate::operator::hypergraph::{lemma_finite_listing, listing};
use crate::operator::join_sums::{join_sum, lemma_join_sum_additive, lemma_join_sum_zero};
use crate::operator::swag_join::JoinRecord;
use crate::operator::swag_join_graph::Edge;
use crate::wrapping::{lemma_add_laws, lemma_mul_laws};

verus! {

/// Ring of an aggregate over an N-way join. One payload type serves all
/// relations.
///
/// `(V, add, zero, negate)` must be an Abelian group, the payloads of each
/// relation a commutative monoid, and `multiply` additive in each payload; see
/// [`is_multiway_ring`].
///
/// An implementation in plain Rust leaves the spec functions out. Each then has
/// one unknown value for all arguments, so that the contracts over them say
/// nothing of such an implementation.
pub trait MultiWayAggregateSpec {
    type P: Eq + Clone;

    type V: Clone;

    open spec fn spec_zero(&self) -> Self::V {
        arbitrary()
    }

    open spec fn spec_add(&self, a: Self::V, b: Self::V) -> Self::V {
        arbitrary()
    }

    open spec fn spec_negate(&self, v: Self::V) -> Self::V {
        arbitrary()
    }

    open spec fn spec_multiply(&self, payloads: Map<Seq<char>, Self::P>) -> Self::V {
        arbitrary()
    }

    open spec fn spec_zero_payload(&self, relation: Seq<char>) -> Self::P {
        arbitrary()
    }

    open spec fn spec_add_payload(&self, relation: Seq<char>, a: Self::P, b: Self::P) -> Self::P {
        arbitrary()
    }

    open spec fn spec_name(&self) -> Seq<char> {
        arbitrary()
    }

    /// Additive identity of the aggregate ring.
    fn zero(&self) -> (r: Self::V)
        ensures
            r == self.spec_zero(),
    ;

    /// Ring addition.
    fn add(&self, a: &Self::V, b: &Self::V) -> (r: Self::V)
        ensures
            r == self.spec_add(*a, *b),
    ;

    /// Additive inverse.
    fn negate(&self, v: &Self::V) -> (r: Self::V)
        ensures
            r == self.spec_negate(*v),
    ;

    /// Multiplies one payload of each relation, keyed by relation name.
    fn multiply(&self, payloads: &NameMap<Self::P>) -> (r: Self::V)
        requires
            payloads.wf(),
        ensures
            r == self.spec_multiply(payloads@),
    ;

    /// Additive identity of the payloads of a relation.
    fn zero_payload(&self, relation_name: &str) -> (r: Self::P)
        ensures
            r == self.spec_zero_payload(relation_name@),
    ;

    /// Payload addition of a relation.
    fn add_payload(&self, relation_name: &str, a: &Self::P, b: &Self::P) -> (r: Self::P)
        ensures
            r == self.spec_add_payload(relation_name@, *a, *b),
    ;

    /// Human-readable name.
    fn name(&self) -> (r: &str)
        ensures
            r@ == self.spec_name(),
    ;
}

pub open spec fn plus_of<S: MultiWayAggregateSpec>(s: S) -> spec_fn(S::V, S::V) -> S::V {
    |a: S::V, b: S::V| s.spec_add(a, b)
}

pub open spec fn minus_of<S: MultiWayAggregateSpec>(s: S) -> spec_fn(S::V) -> S::V {
    |a: S::V| s.spec_negate(a)
}

pub open spec fn payload_plus<S: MultiWayAggregateSpec>(s: S, relation: Seq<char>) -> spec_fn(S::P, S::P) -> S::P {
    |a: S::P, b: S::P| s.spec_add_payload(relation, a, b)
}

/// The product as a function of the payload of one relation.
pub open spec fn slot_of<S: MultiWayAggregateSpec>(
    s: S,
    payloads: Map<Seq<char>, S::P>,
    relation: Seq<char>,
) -> spec_fn(S::P) -> S::V {
    |p: S::P| s.spec_multiply(payloads.insert(relation, p))
}

/// What the ring has to satisfy.
pub open spec fn is_multiway_ring<S: MultiWayAggregateSpec>(s: S) -> bool {
    &&& group(s.spec_zero(), plus_of(s), minus_of(s))
    &&& forall|payloads: Map<Seq<char>, S::P>, relation: Seq<char>|
        payloads.dom().finite() ==> additive(
            #[trigger] slot_of(s, payloads, relation),
            s.spec_zero_payload(relation),
            payload_plus(s, relation),
            s.spec_zero(),
            plus_of(s),
        )
}

/// `COUNT(*)` over an N-way join: every element counts 1, modulo the width of
/// the counter.
#[derive(Clone, Copy, Debug, Default)]
pub struct MultiWayCount;

pub open spec fn product(values: Seq<i64>) -> i64
    decreases values.len(),
{
    if values.len() == 0 {
        1
    } else {
        product(values.drop_last()).wrapping_mul(values.last())
    }
}

/// The values of a map, in the order of its keys.
pub open spec fn values_in_order(m: Map<Seq<char>, i64>) -> Seq<i64> {
    listing(m.dom()).map_values(value_at(m))
}

pub open spec fn value_at(m: Map<Seq<char>, i64>) -> spec_fn(Seq<char>) -> i64 {
    |n: Seq<char>| m[n]
}

impl MultiWayAggregateSpec for MultiWayCount {
    type P = i64;

    type V = i64;

    open spec fn spec_zero(&self) -> i64 {
        0
    }

    open spec fn spec_add(&self, a: i64, b: i64) -> i64 {
        a.wrapping_add(b)
    }

    open spec fn spec_negate(&self, v: i64) -> i64 {
        0i64.wrapping_sub(v)
    }

    open spec fn spec_multiply(&self, payloads: Map<Seq<char>, i64>) -> i64 {
        product(values_in_order(payloads))
    }

    open spec fn spec_zero_payload(&self, relation: Seq<char>) -> i64 {
        0
    }

    open spec fn spec_add_payload(&self, relation: Seq<char>, a: i64, b: i64) -> i64 {
        a.wrapping_add(b)
    }

    open spec fn spec_name(&self) -> Seq<char> {
        "MULTIWAY_COUNT"@
    }

    fn zero(&self) -> i64 {
        0
    }

    fn add(&self, a: &i64, b: &i64) -> i64 {
        a.wrapping_add(*b)
    }

    fn negate(&self, v: &i64) -> i64 {
        0i64.wrapping_sub(*v)
    }

    fn multiply(&self, payloads: &NameMap<i64>) -> i64 {
        let mut r: i64 = 1;
        let mut i: usize = 0;
        proof {
            payloads.lemma_shape();
        }
        while i < payloads.len()
            invariant
                i <= payloads.keys().len(),
                payloads.keys().len() == payloads.values().len(),
                r == product(payloads.values().take(i as int)),
            decreases payloads.keys().len() - i,
        {
            proof {
                let v = payloads.values();
                assert(v.take(i + 1).drop_last() =~= v.take(i as int));
            }
            r = r.wrapping_mul(*payloads.value_at(i));
            i += 1;
        }
        proof {
            assert(payloads.values().take(i as int) =~= payloads.values());
            lemma_values_in_order(payloads);
        }
        r
    }

    fn zero_payload(&self, relation_name: &str) -> i64 {
        0
    }

    fn add_payload(&self, relation_name: &str, a: &i64, b: &i64) -> i64 {
        a.wrapping_add(*b)
    }

    fn name(&self) -> &str {
        "MULTIWAY_COUNT"
    }
}

pub proof fn lemma_values_in_order(m: &NameMap<i64>)
    requires
        m.wf(),
    ensures
        values_in_order(m@) == m.values(),
{
    m.lemma_shape();
    let l = listing(m@.dom());
    assert(m@.dom() =~= m.keys().to_set());
    assert(ascending_names(m.keys()) && m.keys().to_set() == m@.dom());
    lemma_ascending_unique(l, m.keys());
    assert forall|i: int| 0 <= i < l.len() implies m@[#[trigger] l[i]] == m.values()[i] by {
        m.lemma_lookup(i);
    }
    assert(values_in_order(m@) =~= m.values());
}

/// The product is additive in each factor.
proof fn lemma_product_additive(values: Seq<i64>, i: int, a: i64, b: i64)
    requires
        0 <= i < values.len(),
    ensures
        product(values.update(i, a.wrapping_add(b))) == product(values.update(i, a)).wrapping_add(
            product(values.update(i, b)),
        ),
        product(values.update(i, 0)) == 0,
    decreases values.len(),
{
    let last = values.len() - 1;
    let head = values.drop_last();
    let sum = a.wrapping_add(b);
    if i == last {
        assert(values.update(i, sum).drop_last() =~= head);
        assert(values.update(i, a).drop_last() =~= head);
        assert(values.update(i, b).drop_last() =~= head);
        assert(values.update(i, 0).drop_last() =~= head);
        lemma_mul_laws(product(head), a, b);
    } else {
        assert(values.update(i, sum).drop_last() =~= head.update(i, sum));
        assert(values.update(i, a).drop_last() =~= head.update(i, a));
        assert(values.update(i, b).drop_last() =~= head.update(i, b));
        assert(values.update(i, 0).drop_last() =~= head.update(i, 0));
        lemma_product_additive(head, i, a, b);
        let x = values[last];
        let pa = product(head.update(i, a));
        let pb = product(head.update(i, b));
        lemma_mul_laws(pa.wrapping_add(pb), x, 0);
        lemma_mul_laws(x, pa, pb);
        lemma_mul_laws(pa, x, 0);
        lemma_mul_laws(pb, x, 0);
        lemma_mul_laws(0, x, 0);
        lemma_mul_laws(x, 0, 0);
    }
}

/// Counting is a ring.
pub proof fn law_multiway_count_is_ring()
    ensures
        is_multiway_ring(MultiWayCount),
{
    lemma_count_is_group();
    assert forall|payloads: Map<Seq<char>, i64>, relation: Seq<char>| payloads.dom().finite() implies additive(
        #[trigger] slot_of(MultiWayCount, payloads, relation),
        MultiWayCount.spec_zero_payload(relation),
        payload_plus(MultiWayCount, relation),
        MultiWayCount.spec_zero(),
        plus_of(MultiWayCount),
    ) by {
        lemma_count_slot(payloads, relation);
    }
}

proof fn lemma_count_slot(payloads: Map<Seq<char>, i64>, relation: Seq<char>)
    requires
        payloads.dom().finite(),
    ensures
        additive(
            slot_of(MultiWayCount, payloads, relation),
            MultiWayCount.spec_zero_payload(relation),
            payload_plus(MultiWayCount, relation),
            MultiWayCount.spec_zero(),
            plus_of(MultiWayCount),
        ),
{
    let f = slot_of(MultiWayCount, payloads, relation);
    let names = payloads.dom().insert(relation);
    lemma_finite_listing(names);
    let l = listing(names);
    assert(l.to_set().contains(relation));
    let i = choose|i: int| 0 <= i < l.len() && l[i] == relation;
    let base = values_in_order(payloads.insert(relation, 0));
    lemma_ascending_distinct(l);
    assert forall|a: i64| #[trigger] f(a) == product(base.update(i, a)) by {
        let m = payloads.insert(relation, a);
        assert(m.dom() =~= names);
        assert(payloads.insert(relation, 0).dom() =~= names);
        assert(values_in_order(m) =~= base.update(i, a));
    }
    assert(f(0) == 0) by {
        lemma_product_additive(base, i, 0, 0);
    }
    assert forall|a: i64, b: i64| #[trigger] f(payload_plus(MultiWayCount, relation)(a, b)) == plus_of(
        MultiWayCount,
    )(f(a), f(b)) by {
        lemma_product_additive(base, i, a, b);
        assert(f(a.wrapping_add(b)) == product(base.update(i, a.wrapping_add(b))));
        assert(f(a) == product(base.update(i, a)));
        assert(f(b) == product(base.update(i, b)));
    }
}

proof fn lemma_count_is_group()
    ensures
        group(MultiWayCount.spec_zero(), plus_of(MultiWayCount), minus_of(MultiWayCount)),
{
    assert forall|x: i64| #[trigger] plus_of(MultiWayCount)(0i64, x) == x by {
        lemma_add_laws(x, 0, 0);
    }
    assert forall|x: i64, y: i64| #[trigger] plus_of(MultiWayCount)(x, y) == plus_of(MultiWayCount)(y, x) by {
        lemma_add_laws(x, y, 0);
    }
    assert forall|x: i64, y: i64, z: i64| #[trigger]
        plus_of(MultiWayCount)(plus_of(MultiWayCount)(x, y), z) == plus_of(MultiWayCount)(
            x,
            plus_of(MultiWayCount)(y, z),
        ) by {
        lemma_add_laws(x, y, z);
    }
    assert forall|x: i64| #[trigger] plus_of(MultiWayCount)(x, minus_of(MultiWayCount)(x)) == 0 by {
        lemma_add_laws(x, 0, 0);
    }
}

/// The items of the two ends of an edge join: in time and by key.
pub open spec fn edge_fits<E, K, P>(
    e: Edge,
    keys: spec_fn(Seq<char>, E) -> K,
    a: (i64, JoinRecord<E, P>),
    b: (i64, JoinRecord<E, P>),
) -> bool {
    &&& a.0 + e.window_lower <= b.0 <= a.0 + e.window_upper
    &&& keys(e.relation_a@, a.1.element) == keys(e.relation_b@, b.1.element)
}

/// Every edge between relations that have an item is satisfied.
pub open spec fn tuple_fits<E, K, P>(
    edges: Seq<Edge>,
    keys: spec_fn(Seq<char>, E) -> K,
    bound: Map<Seq<char>, (i64, JoinRecord<E, P>)>,
) -> bool {
    forall|i: int|
        0 <= i < edges.len() && bound.contains_key((#[trigger] edges[i]).relation_a@) && bound.contains_key(
            edges[i].relation_b@,
        ) ==> edge_fits(edges[i], keys, bound[edges[i].relation_a@], bound[edges[i].relation_b@])
}

pub open spec fn payload_map<E, P>(bound: Map<Seq<char>, (i64, JoinRecord<E, P>)>) -> Map<Seq<char>, P> {
    Map::new(|n: Seq<char>| bound.contains_key(n), |n: Seq<char>| bound[n].1.payload)
}

/// What a tuple adds to the aggregate.
pub open spec fn tuple_value<E, K, S: MultiWayAggregateSpec>(
    s: S,
    edges: Seq<Edge>,
    keys: spec_fn(Seq<char>, E) -> K,
) -> spec_fn(Map<Seq<char>, (i64, JoinRecord<E, S::P>)>) -> S::V {
    |b: Map<Seq<char>, (i64, JoinRecord<E, S::P>)>|
        if tuple_fits(edges, keys, b) {
            s.spec_multiply(payload_map(b))
        } else {
            s.spec_zero()
        }
}

/// A tuple counts once.
pub open spec fn tuple_count<E, K, P>(
    edges: Seq<Edge>,
    keys: spec_fn(Seq<char>, E) -> K,
) -> spec_fn(Map<Seq<char>, (i64, JoinRecord<E, P>)>) -> u64 {
    |b: Map<Seq<char>, (i64, JoinRecord<E, P>)>|
        if tuple_fits(edges, keys, b) {
            1
        } else {
            0
        }
}

pub open spec fn count_plus() -> spec_fn(u64, u64) -> u64 {
    |a: u64, b: u64| a.wrapping_add(b)
}

/// The aggregate over the join of all relations: the sum over every way to
/// pick one item of each relation so that all edges are satisfied.
pub open spec fn join_total<E, K, S: MultiWayAggregateSpec>(
    s: S,
    edges: Seq<Edge>,
    keys: spec_fn(Seq<char>, E) -> K,
    names: Seq<Seq<char>>,
    contents: Map<Seq<char>, Seq<(i64, JoinRecord<E, S::P>)>>,
) -> S::V {
    if names.len() == 0 {
        s.spec_zero()
    } else {
        join_sum(s.spec_zero(), plus_of(s), tuple_value(s, edges, keys), names, contents, Map::empty())
    }
}

/// How many tuples the join has, modulo the width of the counter.
pub open spec fn join_count<E, K, P>(
    edges: Seq<Edge>,
    keys: spec_fn(Seq<char>, E) -> K,
    names: Seq<Seq<char>>,
    contents: Map<Seq<char>, Seq<(i64, JoinRecord<E, P>)>>,
) -> u64 {
    join_sum(0u64, count_plus(), tuple_count(edges, keys), names, contents, Map::empty())
}

/// Value and count side by side.
pub open spec fn tuple_found<E, K, S: MultiWayAggregateSpec>(
    s: S,
    edges: Seq<Edge>,
    keys: spec_fn(Seq<char>, E) -> K,
) -> spec_fn(Map<Seq<char>, (i64, JoinRecord<E, S::P>)>) -> (S::V, u64) {
    |b: Map<Seq<char>, (i64, JoinRecord<E, S::P>)>|
        (tuple_value(s, edges, keys)(b), tuple_count::<E, K, S::P>(edges, keys)(b))
}

pub open spec fn found_plus<S: MultiWayAggregateSpec>(s: S) -> spec_fn((S::V, u64), (S::V, u64)) -> (S::V, u64) {
    |a: (S::V, u64), b: (S::V, u64)| (s.spec_add(a.0, b.0), a.1.wrapping_add(b.1))
}

pub open spec fn found_zero<S: MultiWayAggregateSpec>(s: S) -> (S::V, u64) {
    (s.spec_zero(), 0u64)
}

pub proof fn lemma_found_monoid<S: MultiWayAggregateSpec>(s: S)
    requires
        is_multiway_ring(s),
    ensures
        monoid(found_zero(s), found_plus(s)),
        monoid(s.spec_zero(), plus_of(s)),
        monoid(0u64, count_plus()),
{
    let plus = found_plus(s);
    assert forall|a: (S::V, u64)| #[trigger] plus(found_zero(s), a) == a by {
        assert(plus_of(s)(s.spec_zero(), a.0) == a.0);
    }
    assert forall|a: (S::V, u64), b: (S::V, u64)| #[trigger] plus(a, b) == plus(b, a) by {
        assert(plus_of(s)(a.0, b.0) == plus_of(s)(b.0, a.0));
    }
    assert forall|a: (S::V, u64), b: (S::V, u64), c: (S::V, u64)| #[trigger] plus(plus(a, b), c) == plus(
        a,
        plus(b, c),
    ) by {
        assert(plus_of(s)(plus_of(s)(a.0, b.0), c.0) == plus_of(s)(a.0, plus_of(s)(b.0, c.0)));
    }
}

/// Summing pairs sums their parts.
pub proof fn lemma_found_parts<E, K, S: MultiWayAggregateSpec>(
    s: S,
    edges: Seq<Edge>,
    keys: spec_fn(Seq<char>, E) -> K,
    names: Seq<Seq<char>>,
    contents: Map<Seq<char>, Seq<(i64, JoinRecord<E, S::P>)>>,
    bound: Map<Seq<char>, (i64, JoinRecord<E, S::P>)>,
)
    ensures
        join_sum(found_zero(s), found_plus(s), tuple_found(s, edges, keys), names, contents, bound) == (
            join_sum(s.spec_zero(), plus_of(s), tuple_value(s, edges, keys), names, contents, bound),
            join_sum(0u64, count_plus(), tuple_count(edges, keys), names, contents, bound),
        ),
{
    let first = |a: (S::V, u64)| a.0;
    let second = |a: (S::V, u64)| a.1;
    lemma_join_sum_additive(
        first,
        found_zero(s),
        found_plus(s),
        tuple_found(s, edges, keys),
        s.spec_zero(),
        plus_of(s),
        tuple_value(s, edges, keys),
        names,
        contents,
        bound,
    );
    lemma_join_sum_additive(
        second,
        found_zero(s),
        found_plus(s),
        tuple_found(s, edges, keys),
        0u64,
        count_plus(),
        tuple_count::<E, K, S::P>(edges, keys),
        names,
        contents,
        bound,
    );
}

/// A tuple that breaks an edge does not count, however it is extended.
pub proof fn lemma_broken_tuple<E, K, S: MultiWayAggregateSpec>(
    s: S,
    edges: Seq<Edge>,
    keys: spec_fn(Seq<char>, E) -> K,
    names: Seq<Seq<char>>,
    contents: Map<Seq<char>, Seq<(i64, JoinRecord<E, S::P>)>>,
    bound: Map<Seq<char>, (i64, JoinRecord<E, S::P>)>,
)
    requires
        is_multiway_ring(s),
        names.no_duplicates(),
        forall|i: int| 0 <= i < names.len() ==> !bound.contains_key(#[trigger] names[i]),
        !tuple_fits(edges, keys, bound),
    ensures
        join_sum(found_zero(s), found_plus(s), tuple_found(s, edges, keys), names, contents, bound) == found_zero(s),
{
    lemma_found_monoid(s);
    let leaf = tuple_found(s, edges, keys);
    let i = choose|i: int|
        0 <= i < edges.len() && bound.contains_key((#[trigger] edges[i]).relation_a@) && bound.contains_key(
            edges[i].relation_b@,
        ) && !edge_fits(edges[i], keys, bound[edges[i].relation_a@], bound[edges[i].relation_b@]);
    assert forall|b: Map<Seq<char>, (i64, JoinRecord<E, S::P>)>| bound.submap_of(b) implies #[trigger] leaf(b)
        == found_zero(s) by {
        assert(b.contains_key(edges[i].relation_a@) && b.contains_key(edges[i].relation_b@));
        assert(!tuple_fits(edges, keys, b));
    }
    lemma_join_sum_zero(found_zero(s), found_plus(s), leaf, names, contents, bound);
}

} // verus!
