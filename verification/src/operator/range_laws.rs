//! Which items ranges, windows, edges and tables select.
use vstd::prelude::*;

use crate::operator::join::lemma_filter_count;
use crate::operator::multiway_spec::{edge_fits, tuple_fits};
use crate::operator::parallel_hash_join::{joined_rows, keyed, matching as rows_of};
use crate::operator::swag_ctrie::{leaves_out, selects};
use crate::operator::swag_join::{any_key_range, keyed_range, JoinRecord};
use crate::operator::swag_join_graph::Edge;
use crate::operator::swag_join_laws::pair_count;
use crate::operator::swag_join_state::{matched, matching, partners, IntervalBounds};
use crate::operator::swag_multiway_cache::survives;
use crate::operator::swag_windowed_join::{TumblingWindowAssigner, WindowAssigner};
use crate::operator::time_index::{in_range, out_of_range, TimeIndexEntry};

verus! {

/// A range selects what lies between its ends, both included, as often as it is
/// there. What is left when a range is taken out is the rest.
pub proof fn law_range_selects_between_its_ends<P>(items: Seq<(i64, P)>, start: i64, end: i64, x: (i64, P))
    ensures
        items.filter(in_range(start, end)).to_multiset().count(x) == if start <= x.0 && x.0 <= end {
            items.to_multiset().count(x)
        } else {
            0
        },
        items.filter(out_of_range(start, end)).to_multiset().count(x) == if start <= x.0 && x.0 <= end {
            0
        } else {
            items.to_multiset().count(x)
        },
{
    lemma_filter_count(items, in_range(start, end), x);
    lemma_filter_count(items, out_of_range(start, end), x);
}

/// A range under a key selects what has the key and lies between the ends; a range
/// under any key asks for no key.
pub proof fn law_keyed_range_selects_its_key<K, P>(
    items: Seq<(K, i64, P)>,
    k: K,
    start: i64,
    end: i64,
    x: (K, i64, P),
)
    ensures
        items.filter(keyed_range(k, start, end)).to_multiset().count(x) == if x.0 == k && start <= x.1 && x.1 <= end {
            items.to_multiset().count(x)
        } else {
            0
        },
        items.filter(any_key_range(start, end)).to_multiset().count(x) == if start <= x.1 && x.1 <= end {
            items.to_multiset().count(x)
        } else {
            0
        },
{
    lemma_filter_count(items, keyed_range(k, start, end), x);
    lemma_filter_count(items, any_key_range(start, end), x);
}

/// A partial key selects what has the named keys at their places and lies between
/// the ends. What is left when that is taken out is the rest.
pub proof fn law_partial_key_selects_what_agrees<K, P>(
    items: Seq<(Seq<K>, i64, P)>,
    partial: Seq<Option<K>>,
    start: i64,
    end: i64,
    x: (Seq<K>, i64, P),
)
    ensures
        ({
            let agrees = x.0.len() == partial.len() && (forall|i: int|
                0 <= i < partial.len() ==> ((#[trigger] partial[i]) matches Some(k) ==> x.0[i] == k)) && start <= x.1
                && x.1 <= end;
            &&& items.filter(selects(partial, start, end)).to_multiset().count(x) == if agrees {
                items.to_multiset().count(x)
            } else {
                0
            }
            &&& items.filter(leaves_out(partial, start, end)).to_multiset().count(x) == if agrees {
                0
            } else {
                items.to_multiset().count(x)
            }
        }),
{
    lemma_filter_count(items, selects(partial, start, end), x);
    lemma_filter_count(items, leaves_out(partial, start, end), x);
}

/// A left and a right item join exactly if they have the same key and the right one
/// lies from `lower` to `upper` after the left one, from whichever side they are
/// looked for.
pub proof fn law_items_join_within_the_interval<K, P, Q>(
    l: (Option<K>, i64, P),
    r: (Option<K>, i64, Q),
    b: IntervalBounds,
)
    ensures
        partners::<K, P, Q>(l, b)(r) == (l.0 == r.0 && b.lower <= r.1 - l.1 && r.1 - l.1 <= b.upper),
        matching::<K, Q>(l.0, l.1 + b.lower, l.1 + b.upper)(r) == (l.0 == r.0 && b.lower <= r.1 - l.1 && r.1 - l.1
            <= b.upper),
        matching::<K, P>(r.0, r.1 - b.upper, r.1 - b.lower)(l) == (l.0 == r.0 && b.lower <= r.1 - l.1 && r.1 - l.1
            <= b.upper),
{
}

/// What a left item is joined with are the payloads of the right items that join
/// with it, in their order.
pub proof fn law_matched_are_the_joining_payloads<K, Q>(
    right: Seq<(Option<K>, i64, Q)>,
    key: Option<K>,
    timestamp: i64,
    b: IntervalBounds,
)
    ensures
        matched(right, key, timestamp + b.lower, timestamp + b.upper) == right.filter(
            |r: (Option<K>, i64, Q)| r.0 == key && b.lower <= r.1 - timestamp && r.1 - timestamp <= b.upper,
        ).map_values(|r: (Option<K>, i64, Q)| r.2),
        matched(right, key, timestamp - b.upper, timestamp - b.lower) == right.filter(
            |l: (Option<K>, i64, Q)| l.0 == key && b.lower <= timestamp - l.1 && timestamp - l.1 <= b.upper,
        ).map_values(|l: (Option<K>, i64, Q)| l.2),
{
    assert((|r: (Option<K>, i64, Q)| r.0 == key && b.lower <= r.1 - timestamp && r.1 - timestamp <= b.upper)
        =~= matching::<K, Q>(key, timestamp + b.lower, timestamp + b.upper));
    assert((|l: (Option<K>, i64, Q)| l.0 == key && b.lower <= timestamp - l.1 && timestamp - l.1 <= b.upper)
        =~= matching::<K, Q>(key, timestamp - b.upper, timestamp - b.lower));
    assert((|r: (Option<K>, i64, Q)| r.2) =~= crate::operator::swag_join_state::item_payload::<K, Q>());
}

/// One more left item, or one more right item, adds as many pairs as there are
/// items on the other side that join with it.
pub proof fn law_pairs_are_counted_from_either_side<K, P, Q>(
    left: Seq<(Option<K>, i64, P)>,
    right: Seq<(Option<K>, i64, Q)>,
    l: (Option<K>, i64, P),
    r: (Option<K>, i64, Q),
    b: IntervalBounds,
)
    ensures
        pair_count(Seq::<(Option<K>, i64, P)>::empty(), right, b) == 0,
        pair_count(left.push(l), right, b) == pair_count(left, right, b) + right.filter(
            |x: (Option<K>, i64, Q)| x.0 == l.0 && b.lower <= x.1 - l.1 && x.1 - l.1 <= b.upper,
        ).len(),
        pair_count(left, right.push(r), b) == pair_count(left, right, b) + left.filter(
            |x: (Option<K>, i64, P)| x.0 == r.0 && b.lower <= r.1 - x.1 && r.1 - x.1 <= b.upper,
        ).len(),
    decreases left.len(),
{
    reveal(Seq::filter);
    assert(left.push(l).drop_last() =~= left);
    let p = |x: (Option<K>, i64, Q)| x.0 == l.0 && b.lower <= x.1 - l.1 && x.1 - l.1 <= b.upper;
    assert(p =~= partners::<K, P, Q>(l, b));
    let q = |x: (Option<K>, i64, P)| x.0 == r.0 && b.lower <= r.1 - x.1 && r.1 - x.1 <= b.upper;
    if left.len() == 0 {
        assert(left.filter(q) =~= Seq::<(Option<K>, i64, P)>::empty());
    } else {
        let front = left.drop_last();
        let m = left.last();
        law_pairs_are_counted_from_either_side(front, right, m, r, b);
        let f = partners::<K, P, Q>(m, b);
        assert(right.push(r).drop_last() =~= right);
        assert(right.push(r).filter(f).len() == right.filter(f).len() + if f(r) {
            1nat
        } else {
            0
        });
        assert(f(r) == q(m));
    }
}

/// A tuple of either end of an edge may join one of the other exactly if the one of
/// `relation_b` lies from the lower to the upper bound after the one of
/// `relation_a`.
pub proof fn law_edge_windows_are_mutual(e: Edge, a: i64, b: i64)
    requires
        e.wf(),
    ensures
        ({
            let from_a = e.window(a as int, e.relation_a@);
            let from_b = e.window(b as int, e.relation_b@);
            &&& (from_a.0 <= b && b <= from_a.1) == (e.window_lower <= b - a && b - a <= e.window_upper)
            &&& (from_b.0 <= a && a <= from_b.1) == (e.window_lower <= b - a && b - a <= e.window_upper)
        }),
{
}

/// Items of the ends of an edge fit it exactly if their keys are equal and their
/// times differ by no less than its lower and no more than its upper bound.
pub proof fn law_items_fit_an_edge<E, K, P>(
    e: Edge,
    keys: spec_fn(Seq<char>, E) -> K,
    a: (i64, JoinRecord<E, P>),
    b: (i64, JoinRecord<E, P>),
)
    ensures
        edge_fits(e, keys, a, b) == (e.window_lower <= b.0 - a.0 && b.0 - a.0 <= e.window_upper && keys(
            e.relation_a@,
            a.1.element,
        ) == keys(e.relation_b@, b.1.element)),
{
}

/// A tuple that has an item of both ends of some edge, and whose items differ too
/// much in time or have different keys, does not fit.
pub proof fn law_every_edge_counts<E, K, P>(
    edges: Seq<Edge>,
    keys: spec_fn(Seq<char>, E) -> K,
    bound: Map<Seq<char>, (i64, JoinRecord<E, P>)>,
    i: int,
)
    requires
        0 <= i < edges.len(),
        bound.contains_key(edges[i].relation_a@),
        bound.contains_key(edges[i].relation_b@),
        tuple_fits(edges, keys, bound),
    ensures
        ({
            let a = bound[edges[i].relation_a@];
            let b = bound[edges[i].relation_b@];
            &&& edges[i].window_lower <= b.0 - a.0 && b.0 - a.0 <= edges[i].window_upper
            &&& keys(edges[i].relation_a@, a.1.element) == keys(edges[i].relation_b@, b.1.element)
        }),
{
}

/// A time belongs to one window, the one between whose ends it lies.
pub proof fn law_tumbling_windows_follow_one_another(assigner: TumblingWindowAssigner, timestamp: i64)
    requires
        assigner.wf(),
    ensures
        assigner.windows(timestamp).len() == 1,
        assigner.windows(timestamp)[0] * assigner.span() <= timestamp < (assigner.windows(timestamp)[0] + 1)
            * assigner.span(),
{
    let t = timestamp as int;
    let s = assigner.span() as int;
    let q = t / s;
    assert(i64::MIN <= q <= i64::MAX && q * s <= t && t < (q + 1) * s) by (nonlinear_arith)
        requires
            s > 0,
            q == t / s,
            i64::MIN <= t <= i64::MAX,
    ;
}

/// An answer is dropped exactly if the relation that changed is one of the two that
/// it is about.
pub proof fn law_answers_about_a_changed_relation_go<K, E, P>(
    relation: Seq<char>,
    c: ((Seq<char>, Seq<char>, K, i64, i64), Seq<TimeIndexEntry<JoinRecord<E, P>>>),
)
    ensures
        survives::<K, E, P>(relation)(c) == !((c.0).0 == relation || (c.0).1 == relation),
{
}

/// With key functions and a join function that go by the elements alone, the
/// results of a right element are those of the left elements that have its key, in
/// their order.
pub proof fn law_hash_join_pairs_equal_keys<L, R, K, Out, FL: Fn(&L) -> K, FJ: Fn(&L, &R) -> Out>(
    left_key: FL,
    join_fn: FJ,
    key: spec_fn(L) -> K,
    join: spec_fn(L, R) -> Out,
    left: Seq<L>,
    keys: Seq<K>,
    right: R,
    k: K,
    out: Seq<Out>,
)
    requires
        forall|l: L, q: K| #[trigger] call_ensures(left_key, (&l,), q) ==> q == key(l),
        forall|l: L, r: R, o: Out| #[trigger] call_ensures(join_fn, (&l, &r), o) ==> o == join(l, r),
        keyed(left_key, left, keys),
        joined_rows(join_fn, rows_of(left, keys, k), right, out),
    ensures
        out == left.filter(|l: L| key(l) == k).map_values(|l: L| join(l, right)),
{
    assert forall|i: int| 0 <= i < keys.len() implies #[trigger] keys[i] == key(left[i]) by {
        assert(call_ensures(left_key, (&left[i],), keys[i]));
    }
    lemma_rows_filter(left, keys, key, k);
    let rows = rows_of(left, keys, k);
    let f = |l: L| join(l, right);
    assert forall|i: int| 0 <= i < out.len() implies out[i] == rows.map_values(f)[i] by {
        assert(call_ensures(join_fn, (&rows[i], &right), out[i]));
    }
    assert(out =~= rows.map_values(f));
}

proof fn lemma_rows_filter<K, L>(left: Seq<L>, keys: Seq<K>, key: spec_fn(L) -> K, k: K)
    requires
        keys.len() == left.len(),
        forall|i: int| 0 <= i < keys.len() ==> #[trigger] keys[i] == key(left[i]),
    ensures
        rows_of(left, keys, k) == left.filter(|l: L| key(l) == k),
    decreases left.len(),
{
    reveal(Seq::filter);
    let p = |l: L| key(l) == k;
    if left.len() == 0 {
        assert(left.filter(p) =~= Seq::<L>::empty());
    } else {
        let front = keys.drop_last();
        assert forall|i: int| 0 <= i < front.len() implies #[trigger] front[i] == key(left.drop_last()[i]) by {
            assert(keys[i] == key(left[i]));
        }
        lemma_rows_filter(left.drop_last(), front, key, k);
        assert(keys[left.len() - 1] == key(left[left.len() - 1]));
    }
}

} // verus!
