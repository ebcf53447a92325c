//! What folds and sums take up, and what a cutoff leaves.
use vstd::prelude::*;

use crate::algebra::total;
use crate::names::NameMap;
use crate::operator::aggregate::{fold, AggregateFunction};
use crate::operator::graph_pattern::{edge_since, Edge};
use crate::operator::join::lemma_filter_count;
use crate::operator::join_sums::{branch, join_sum};
use crate::operator::multiway_spec::{
    lemma_values_in_order, payload_map, product, tuple_count, tuple_fits, tuple_value, MultiWayAggregateSpec,
    MultiWayCount,
};
use crate::operator::swag::{fold_all, is_swag_monoid, lemma_fold_one, lemma_fold_split, SwagCountOp, SwagOp};
use crate::operator::swag_join::JoinRecord;
use crate::operator::swag_join_graph::Edge as JoinEdge;
use crate::operator::swag_triangle::{TriangleCount, TriangleJoinAggregateSpec};
use crate::wrapping::lemma_mul_laws;

verus! {

/// A window of one partial aggregate has its value; one with more has the value
/// of its older part combined with that of its younger part.
pub proof fn law_window_combines_its_parts<In, Partial, Out, Op: SwagOp<In, Partial, Out>>(
    op: Op,
    x: Partial,
    s: Seq<Partial>,
    t: Seq<Partial>,
)
    requires
        is_swag_monoid(op),
    ensures
        fold_all(op, Seq::empty()) == op.spec_identity(),
        fold_all(op, seq![x]) == x,
        fold_all(op, s + t) == op.spec_combine(fold_all(op, s), fold_all(op, t)),
{
    lemma_fold_one(op, x);
    lemma_fold_split(op, s, t);
}

/// The count of a window is the number of values in it.
pub proof fn law_window_count_is_number<T>(op: SwagCountOp<T>, values: Seq<T>)
    requires
        values.len() <= i64::MAX,
    ensures
        op.spec_lower(fold_all(op, values.map_values(|v: T| op.spec_lift(v)))) == values.len(),
    decreases values.len(),
{
    let f = |v: T| op.spec_lift(v);
    let lifted = values.map_values(f);
    if values.len() > 0 {
        let front = values.drop_last();
        law_window_count_is_number(op, front);
        assert(lifted.drop_last() =~= front.map_values(f));
    }
}

/// An accumulator begins at zero and takes up one element after the other.
pub proof fn law_elements_are_folded_in_order<T, ACC, R, AF: AggregateFunction<T, ACC, R>>(
    af: AF,
    elements: Seq<T>,
    x: T,
)
    ensures
        fold::<T, ACC, R, AF>(af, Seq::empty()) == af.zero(),
        fold::<T, ACC, R, AF>(af, elements.push(x)) == af.folded(x, fold::<T, ACC, R, AF>(af, elements)),
{
    assert(elements.push(x).drop_last() =~= elements);
}

/// A product takes up one factor after the other, and is the factor where there
/// is one only.
pub proof fn law_factors_are_multiplied(values: Seq<i64>, x: i64)
    ensures
        product(Seq::empty()) == 1,
        product(seq![x]) == x,
        product(values.push(x)) == product(values).wrapping_mul(x),
{
    assert(values.push(x).drop_last() =~= values);
    assert(seq![x].drop_last() =~= Seq::<i64>::empty());
    assert(product(seq![x].drop_last()) == 1);
}

/// The sum over two relations is, for each item of the one, the sum over the items
/// of the other, of what the tuple of both contributes.
pub proof fn law_two_relations_are_paired<I, V>(
    zero: V,
    plus: spec_fn(V, V) -> V,
    leaf: spec_fn(Map<Seq<char>, I>) -> V,
    a: Seq<char>,
    b: Seq<char>,
    items: Map<Seq<char>, Seq<I>>,
)
    requires
        a != b,
    ensures
        join_sum(zero, plus, leaf, seq![a, b], items, Map::empty()) == total(
            zero,
            plus,
            items[a].map_values(|x: I| total(zero, plus, items[b].map_values(|y: I| leaf(map![a => x, b => y])))),
        ),
{
    let names = seq![a, b];
    let none = Map::<Seq<char>, I>::empty();
    let outer = |x: I| total(zero, plus, items[b].map_values(|y: I| leaf(map![a => x, b => y])));
    let rest = names.skip(1);
    assert(rest =~= seq![b]);
    assert(rest.skip(1) =~= Seq::<Seq<char>>::empty());
    assert forall|x: I| #[trigger] branch(zero, plus, leaf, rest, a, items, none)(x) == outer(x) by {
        let one = none.insert(a, x);
        let inner = |y: I| leaf(map![a => x, b => y]);
        let found = branch(zero, plus, leaf, rest.skip(1), b, items, one);
        assert forall|y: I| #[trigger] found(y) == inner(y) by {
            assert(found(y) == join_sum(zero, plus, leaf, rest.skip(1), items, one.insert(b, y)));
            assert(join_sum(zero, plus, leaf, rest.skip(1), items, one.insert(b, y)) == leaf(one.insert(b, y)));
            assert(one.insert(b, y) =~= map![a => x, b => y]);
        }
        assert(items[b].map_values(found) =~= items[b].map_values(inner));
        assert(join_sum(zero, plus, leaf, rest, items, one) == total(zero, plus, items[b].map_values(found)));
    }
    assert(items[a].map_values(branch(zero, plus, leaf, rest, a, items, none)) =~= items[a].map_values(outer));
}

/// A tuple fits exactly if, at each edge both of whose ends have an item, the keys
/// are equal and the times differ by what the edge allows. It contributes the
/// product of its payloads if it fits, and nothing else; it counts once.
pub proof fn law_tuple_fits_all_edges<E, K, S: MultiWayAggregateSpec>(
    s: S,
    edges: Seq<JoinEdge>,
    keys: spec_fn(Seq<char>, E) -> K,
    bound: Map<Seq<char>, (i64, JoinRecord<E, S::P>)>,
)
    ensures
        ({
            let fits = forall|i: int|
                0 <= i < edges.len() && bound.contains_key((#[trigger] edges[i]).relation_a@) && bound.contains_key(
                    edges[i].relation_b@,
                ) ==> {
                    let a = bound[edges[i].relation_a@];
                    let b = bound[edges[i].relation_b@];
                    edges[i].window_lower <= b.0 - a.0 && b.0 - a.0 <= edges[i].window_upper && keys(
                        edges[i].relation_a@,
                        a.1.element,
                    ) == keys(edges[i].relation_b@, b.1.element)
                };
            &&& tuple_fits(edges, keys, bound) == fits
            &&& tuple_value(s, edges, keys)(bound) == if fits {
                s.spec_multiply(payload_map(bound))
            } else {
                s.spec_zero()
            }
            &&& tuple_count(edges, keys)(bound) == if fits {
                1u64
            } else {
                0u64
            }
        }),
{
}

/// The edges that are not older than the cutoff stay, each as often as it was
/// there; the others go.
pub proof fn law_recent_edges_stay(edges: Seq<Edge>, cutoff: i64, e: Edge)
    ensures
        edges.filter(edge_since(cutoff)).to_multiset().count(e) == if cutoff <= e.timestamp {
            edges.to_multiset().count(e)
        } else {
            0
        },
{
    lemma_filter_count(edges, edge_since(cutoff), e);
}

/// A triangle counts once.
pub proof fn law_each_triangle_counts_once<A, B, C>(s: TriangleCount<A, B, C>, a: A, b: B, c: C)
    ensures
        s.spec_multiply_triple(s.spec_payload_a(a), s.spec_payload_b(b), s.spec_payload_c(c)) == 1,
{
    lemma_mul_laws(1, 1, 1);
}

/// A tuple of payloads that count once each counts once, and one with a single
/// payload counts as that payload does.
pub proof fn law_tuple_counts_as_its_payloads(payloads: NameMap<i64>)
    requires
        payloads.wf(),
    ensures
        (forall|i: int| 0 <= i < payloads.values().len() ==> #[trigger] payloads.values()[i] == 1)
            ==> MultiWayCount.spec_multiply(payloads@) == 1,
        payloads.values().len() == 1 ==> MultiWayCount.spec_multiply(payloads@) == payloads.values()[0],
{
    lemma_values_in_order(&payloads);
    let v = payloads.values();
    if forall|i: int| 0 <= i < v.len() ==> #[trigger] v[i] == 1 {
        lemma_ones(v);
    }
    if v.len() == 1 {
        law_factors_are_multiplied(v, v[0]);
        assert(v =~= seq![v[0]]);
    }
}

proof fn lemma_ones(v: Seq<i64>)
    requires
        forall|i: int| 0 <= i < v.len() ==> #[trigger] v[i] == 1,
    ensures
        product(v) == 1,
    decreases v.len(),
{
    if v.len() > 0 {
        assert forall|i: int| 0 <= i < v.drop_last().len() implies #[trigger] v.drop_last()[i] == 1 by {
            assert(v[i] == 1);
        }
        lemma_ones(v.drop_last());
        assert(v[v.len() - 1] == 1);
        lemma_mul_laws(1, 1, 1);
    }
}

} // verus!
