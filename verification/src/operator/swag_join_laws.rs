//! What holds of pairwise interval joins over several calls: evictions undo
//! insertions, the order of the calls does not matter, and the aggregate is the
//! sum of what the calls returned.
use vstd::prelude::*;

use crate::algebra::{group, lemma_cancel, lemma_total_reorder, monoid, total};
use crate::listing::{inserted, lemma_inserted_multiset, lemma_multiset_images};
use crate::operator::swag_join_state::{
    consistent, is_left_key, is_ring, is_right_key, item_keys, item_payload, item_times, join_key, join_time,
    join_total, law_empty_is_consistent, law_evict_left, law_evict_right, law_insert_left, law_insert_right,
    left_delta, left_evicted, left_inserted, lemma_left_delta_row, lemma_right_delta_column, matched, partners,
    right_delta, right_evicted, right_inserted, row, taken_out, times_right, value_minus, value_plus, IntervalBounds,
    JoinAggregateSpec, JoinKeys, WindowJoinState,
};

verus! {

/// The aggregate of the join depends on which items there are, not on their
/// order.
pub proof fn lemma_join_total_reorder<S: JoinAggregateSpec, K>(
    s: &S,
    left: Seq<(Option<K>, i64, S::PL)>,
    right: Seq<(Option<K>, i64, S::PR)>,
    other_left: Seq<(Option<K>, i64, S::PL)>,
    other_right: Seq<(Option<K>, i64, S::PR)>,
    b: IntervalBounds,
)
    requires
        monoid(s.spec_zero(), value_plus(s)),
        left.to_multiset() == other_left.to_multiset(),
        right.to_multiset() == other_right.to_multiset(),
    ensures
        join_total(s, left, right, b) == join_total(s, other_left, other_right, b),
{
    let f = row(s, right, b);
    let g = row(s, other_right, b);
    assert forall|l: (Option<K>, i64, S::PL)| #[trigger] f(l) == g(l) by {
        let p = partners::<K, S::PL, S::PR>(l, b);
        let pay = item_payload::<K, S::PR>();
        let h = times_right(s, l.2);
        let all = |x: S::PR| true;
        lemma_multiset_images(right, other_right, pay, p);
        lemma_multiset_images(right.filter(p), other_right.filter(p), pay, p);
        lemma_multiset_images(right.filter(p).map_values(pay), other_right.filter(p).map_values(pay), h, all);
        lemma_total_reorder(
            s.spec_zero(),
            value_plus(s),
            right.filter(p).map_values(pay).map_values(h),
            other_right.filter(p).map_values(pay).map_values(h),
        );
    }
    assert(other_left.map_values(f) =~= other_left.map_values(g));
    lemma_multiset_images(left, other_left, f, |l: (Option<K>, i64, S::PL)| true);
    lemma_total_reorder(s.spec_zero(), value_plus(s), left.map_values(f), other_left.map_values(f));
}

/// States over one ring and interval that hold the same items have the same
/// aggregate, whatever the order in which the items came.
pub proof fn law_order_of_calls_does_not_matter<S: JoinAggregateSpec, K, X>(
    a: &WindowJoinState<S, K, X>,
    b: &WindowJoinState<S, K, X>,
)
    requires
        is_ring(&a.ring()),
        a.ring() == b.ring(),
        a.interval() == b.interval(),
        consistent(a),
        consistent(b),
        a.left_items().to_multiset() == b.left_items().to_multiset(),
        a.right_items().to_multiset() == b.right_items().to_multiset(),
    ensures
        a.value() == b.value(),
{
    lemma_join_total_reorder(
        &a.ring(),
        a.left_items(),
        a.right_items(),
        b.left_items(),
        b.right_items(),
        a.interval(),
    );
}

/// The extractor gives one key for the left element.
pub open spec fn one_left_key<S: JoinAggregateSpec, K, X: JoinKeys<S::L, S::R, K>>(
    state: &WindowJoinState<S, K, X>,
    elem: S::L,
) -> bool {
    forall|j: Option<K>, k: Option<K>| #[trigger]
        is_left_key(state, elem, j) && #[trigger] is_left_key(state, elem, k) ==> j == k
}

/// The extractor gives one key for the right element.
pub open spec fn one_right_key<S: JoinAggregateSpec, K, X: JoinKeys<S::L, S::R, K>>(
    state: &WindowJoinState<S, K, X>,
    elem: S::R,
) -> bool {
    forall|j: Option<K>, k: Option<K>| #[trigger]
        is_right_key(state, elem, j) && #[trigger] is_right_key(state, elem, k) ==> j == k
}

/// The two states answer alike: the same aggregate, the same items on both
/// sides, hence the same sizes, timestamps and keys.
pub open spec fn looks_like<S: JoinAggregateSpec, K, X>(
    a: &WindowJoinState<S, K, X>,
    b: &WindowJoinState<S, K, X>,
) -> bool {
    &&& a.value() == b.value()
    &&& a.left_items().to_multiset() == b.left_items().to_multiset()
    &&& a.right_items().to_multiset() == b.right_items().to_multiset()
    &&& a.left_items().len() == b.left_items().len()
    &&& a.right_items().len() == b.right_items().len()
    &&& item_times(a.left_items()) == item_times(b.left_items())
    &&& item_times(a.right_items()) == item_times(b.right_items())
    &&& item_keys(a.left_items()) == item_keys(b.left_items())
    &&& item_keys(a.right_items()) == item_keys(b.right_items())
}

/// What is added and taken away again does not change a value.
proof fn lemma_taken_back<S: JoinAggregateSpec>(s: &S, value: S::V, delta: S::V)
    requires
        is_ring(s),
    ensures
        s.spec_add(s.spec_add(value, delta), s.spec_negate(delta)) == value,
{
    lemma_group_of(s);
    lemma_added_back(s, value, delta, value_plus(s), value_minus(s));
}

proof fn lemma_group_of<S: JoinAggregateSpec>(s: &S)
    requires
        is_ring(s),
    ensures
        group(s.spec_zero(), value_plus(s), value_minus(s)),
{
}

proof fn lemma_added_back<S: JoinAggregateSpec>(
    s: &S,
    value: S::V,
    delta: S::V,
    plus: spec_fn(S::V, S::V) -> S::V,
    minus: spec_fn(S::V) -> S::V,
)
    requires
        group(s.spec_zero(), plus, minus),
        plus == value_plus(s),
        minus == value_minus(s),
    ensures
        s.spec_add(s.spec_add(value, delta), s.spec_negate(delta)) == value,
{
    let sum = s.spec_add(value, delta);
    let less = s.spec_negate(delta);
    assert(plus(value, delta) == sum);
    assert(minus(delta) == less);
    assert(plus(sum, less) == s.spec_add(sum, less));
    lemma_cancel(s.spec_zero(), plus, minus, value, delta);
}

/// An item that came and left again is not seen any more.
proof fn lemma_there_and_back<A>(before: Seq<A>, more: Seq<A>, after: Seq<A>, x: A)
    requires
        inserted(before, more, x),
        taken_out(more, after, x),
    ensures
        after.to_multiset() == before.to_multiset(),
        after.len() == before.len(),
{
    let i = choose|i: int| 0 <= i <= before.len() && more == #[trigger] before.insert(i, x);
    assert(more[i] == x);
    assert(more.contains(x));
    lemma_inserted_multiset(before, more, x);
    lemma_inserted_multiset(after, more, x);
    assert(after.to_multiset() =~= before.to_multiset()) by {
        assert(after.to_multiset().insert(x).remove(x) =~= after.to_multiset());
        assert(before.to_multiset().insert(x).remove(x) =~= before.to_multiset());
    }
    vstd::seq_lib::to_multiset_len(after);
    vstd::seq_lib::to_multiset_len(before);
}

/// Listings of the same items have the same timestamps and keys.
pub proof fn lemma_same_times_and_keys<K, P>(s: Seq<(Option<K>, i64, P)>, t: Seq<(Option<K>, i64, P)>)
    requires
        s.to_multiset() == t.to_multiset(),
    ensures
        item_times(s) == item_times(t),
        item_keys(s) == item_keys(t),
{
    let all = |x: (Option<K>, i64, P)| true;
    lemma_multiset_images(s, t, join_time(), all);
    lemma_multiset_images(s, t, join_key(), all);
    lemma_same_members(s.map_values(join_time()), t.map_values(join_time()));
    lemma_same_members(s.map_values(join_key()), t.map_values(join_key()));
}

proof fn lemma_same_members<A>(s: Seq<A>, t: Seq<A>)
    requires
        s.to_multiset() == t.to_multiset(),
    ensures
        s.to_set() == t.to_set(),
{
    assert forall|a: A| s.to_set().contains(a) == t.to_set().contains(a) by {
        vstd::seq_lib::to_multiset_contains(s, a);
        vstd::seq_lib::to_multiset_contains(t, a);
    }
    assert(s.to_set() =~= t.to_set());
}

proof fn lemma_left_gone<S: JoinAggregateSpec, K, X>(
    before: &WindowJoinState<S, K, X>,
    mid: &WindowJoinState<S, K, X>,
    after: &WindowJoinState<S, K, X>,
    x: (Option<K>, i64, S::PL),
)
    requires
        inserted(before.left_items(), mid.left_items(), x),
        taken_out(mid.left_items(), after.left_items(), x),
        after.right_items() == before.right_items(),
        after.value() == before.value(),
    ensures
        looks_like(after, before),
{
    lemma_there_and_back(before.left_items(), mid.left_items(), after.left_items(), x);
    lemma_same_times_and_keys(after.left_items(), before.left_items());
}

proof fn lemma_right_gone<S: JoinAggregateSpec, K, X>(
    before: &WindowJoinState<S, K, X>,
    mid: &WindowJoinState<S, K, X>,
    after: &WindowJoinState<S, K, X>,
    x: (Option<K>, i64, S::PR),
)
    requires
        inserted(before.right_items(), mid.right_items(), x),
        taken_out(mid.right_items(), after.right_items(), x),
        after.left_items() == before.left_items(),
        after.value() == before.value(),
    ensures
        looks_like(after, before),
{
    lemma_there_and_back(before.right_items(), mid.right_items(), after.right_items(), x);
    lemma_same_times_and_keys(after.right_items(), before.right_items());
}

/// The item of a left element that is inserted and evicted again.
#[verifier::spinoff_prover]
proof fn lemma_left_round_trip<S: JoinAggregateSpec, K, X: JoinKeys<S::L, S::R, K>>(
    before: &WindowJoinState<S, K, X>,
    mid: &WindowJoinState<S, K, X>,
    after: &WindowJoinState<S, K, X>,
    timestamp: i64,
    elem: S::L,
    given: S::V,
    taken: S::V,
) -> (x: (Option<K>, i64, S::PL))
    requires
        is_ring(&before.ring()),
        mid.same_setup(before),
        one_left_key(before, elem),
        left_inserted(before, mid, timestamp, elem, given),
        left_evicted(mid, after, timestamp, elem, taken),
    ensures
        inserted(before.left_items(), mid.left_items(), x),
        taken_out(mid.left_items(), after.left_items(), x),
        after.right_items() == before.right_items(),
        taken == before.ring().spec_negate(given),
        mid.value() == before.ring().spec_add(before.value(), given),
        after.value() == before.ring().spec_add(mid.value(), taken),
{
    let s = before.ring();
    let b = before.interval();
    let p = s.spec_left_payload(elem);
    let key = choose|key: Option<K>|
        #![trigger matched(before.right_items(), key, timestamp + b.lower, timestamp + b.upper)]
        {
            &&& is_left_key(before, elem, key)
            &&& inserted(before.left_items(), mid.left_items(), (key, timestamp, p))
            &&& mid.right_items() == before.right_items()
            &&& left_delta(
                &s,
                p,
                matched(before.right_items(), key, timestamp + b.lower, timestamp + b.upper),
                given,
            )
            &&& mid.value() == s.spec_add(before.value(), given)
        };
    let (again, positive) = choose|again: Option<K>, positive: S::V|
        #![trigger is_left_key(mid, elem, again), s.spec_negate(positive)]
        {
            &&& is_left_key(mid, elem, again)
            &&& taken_out(mid.left_items(), after.left_items(), (again, timestamp, p))
            &&& after.right_items() == mid.right_items()
            &&& left_delta(
                &s,
                p,
                matched(mid.right_items(), again, timestamp + b.lower, timestamp + b.upper),
                positive,
            )
            &&& taken == s.spec_negate(positive)
            &&& after.value() == s.spec_add(mid.value(), taken)
        };
    assert(is_left_key(before, elem, again));
    let l = (key, timestamp, p);
    lemma_left_delta_row(&s, l, before.right_items(), b, given);
    lemma_left_delta_row(&s, l, before.right_items(), b, positive);
    l
}

/// Evicting a left element right after its insertion takes back what the
/// insertion gave, and leaves no trace of it.
pub proof fn law_evict_left_undoes_insert_left<S: JoinAggregateSpec, K, X: JoinKeys<S::L, S::R, K>>(
    before: &WindowJoinState<S, K, X>,
    mid: &WindowJoinState<S, K, X>,
    after: &WindowJoinState<S, K, X>,
    timestamp: i64,
    elem: S::L,
    given: S::V,
    taken: S::V,
)
    requires
        is_ring(&before.ring()),
        mid.same_setup(before),
        one_left_key(before, elem),
        left_inserted(before, mid, timestamp, elem, given),
        left_evicted(mid, after, timestamp, elem, taken),
    ensures
        taken == before.ring().spec_negate(given),
        looks_like(after, before),
{
    let x = lemma_left_round_trip(before, mid, after, timestamp, elem, given, taken);
    lemma_taken_back(&before.ring(), before.value(), given);
    lemma_left_gone(before, mid, after, x);
}

/// The item of a right element that is inserted and evicted again.
#[verifier::spinoff_prover]
proof fn lemma_right_round_trip<S: JoinAggregateSpec, K, X: JoinKeys<S::L, S::R, K>>(
    before: &WindowJoinState<S, K, X>,
    mid: &WindowJoinState<S, K, X>,
    after: &WindowJoinState<S, K, X>,
    timestamp: i64,
    elem: S::R,
    given: S::V,
    taken: S::V,
) -> (x: (Option<K>, i64, S::PR))
    requires
        is_ring(&before.ring()),
        mid.same_setup(before),
        one_right_key(before, elem),
        right_inserted(before, mid, timestamp, elem, given),
        right_evicted(mid, after, timestamp, elem, taken),
    ensures
        inserted(before.right_items(), mid.right_items(), x),
        taken_out(mid.right_items(), after.right_items(), x),
        after.left_items() == before.left_items(),
        taken == before.ring().spec_negate(given),
        mid.value() == before.ring().spec_add(before.value(), given),
        after.value() == before.ring().spec_add(mid.value(), taken),
{
    let s = before.ring();
    let b = before.interval();
    let q = s.spec_right_payload(elem);
    let key = choose|key: Option<K>|
        #![trigger matched(before.left_items(), key, timestamp - b.upper, timestamp - b.lower)]
        {
            &&& is_right_key(before, elem, key)
            &&& inserted(before.right_items(), mid.right_items(), (key, timestamp, q))
            &&& mid.left_items() == before.left_items()
            &&& right_delta(
                &s,
                q,
                matched(before.left_items(), key, timestamp - b.upper, timestamp - b.lower),
                given,
            )
            &&& mid.value() == s.spec_add(before.value(), given)
        };
    let (again, positive) = choose|again: Option<K>, positive: S::V|
        #![trigger is_right_key(mid, elem, again), s.spec_negate(positive)]
        {
            &&& is_right_key(mid, elem, again)
            &&& taken_out(mid.right_items(), after.right_items(), (again, timestamp, q))
            &&& after.left_items() == mid.left_items()
            &&& right_delta(
                &s,
                q,
                matched(mid.left_items(), again, timestamp - b.upper, timestamp - b.lower),
                positive,
            )
            &&& taken == s.spec_negate(positive)
            &&& after.value() == s.spec_add(mid.value(), taken)
        };
    assert(is_right_key(before, elem, again));
    let r = (key, timestamp, q);
    lemma_right_delta_column(&s, before.left_items(), r, b, given);
    lemma_right_delta_column(&s, before.left_items(), r, b, positive);
    r
}

/// Evicting a right element right after its insertion takes back what the
/// insertion gave, and leaves no trace of it.
pub proof fn law_evict_right_undoes_insert_right<S: JoinAggregateSpec, K, X: JoinKeys<S::L, S::R, K>>(
    before: &WindowJoinState<S, K, X>,
    mid: &WindowJoinState<S, K, X>,
    after: &WindowJoinState<S, K, X>,
    timestamp: i64,
    elem: S::R,
    given: S::V,
    taken: S::V,
)
    requires
        is_ring(&before.ring()),
        mid.same_setup(before),
        one_right_key(before, elem),
        right_inserted(before, mid, timestamp, elem, given),
        right_evicted(mid, after, timestamp, elem, taken),
    ensures
        taken == before.ring().spec_negate(given),
        looks_like(after, before),
{
    let x = lemma_right_round_trip(before, mid, after, timestamp, elem, given, taken);
    lemma_taken_back(&before.ring(), before.value(), given);
    lemma_right_gone(before, mid, after, x);
}

/// The left element's payload is held under every key it may have.
pub open spec fn holds_left<S: JoinAggregateSpec, K, X: JoinKeys<S::L, S::R, K>>(
    state: &WindowJoinState<S, K, X>,
    timestamp: i64,
    elem: S::L,
) -> bool {
    forall|key: Option<K>| #[trigger]
        is_left_key(state, elem, key) ==> state.left_items().contains(
            (key, timestamp, state.ring().spec_left_payload(elem)),
        )
}

/// The right element's payload is held under every key it may have.
pub open spec fn holds_right<S: JoinAggregateSpec, K, X: JoinKeys<S::L, S::R, K>>(
    state: &WindowJoinState<S, K, X>,
    timestamp: i64,
    elem: S::R,
) -> bool {
    forall|key: Option<K>| #[trigger]
        is_right_key(state, elem, key) ==> state.right_items().contains(
            (key, timestamp, state.ring().spec_right_payload(elem)),
        )
}

/// One insertion, or one eviction of an element that is held, leads from
/// `before` to `after` and returns `delta`.
pub open spec fn one_call<S: JoinAggregateSpec, K, X: JoinKeys<S::L, S::R, K>>(
    before: &WindowJoinState<S, K, X>,
    after: &WindowJoinState<S, K, X>,
    delta: S::V,
) -> bool {
    &&& after.same_setup(before)
    &&& {
        ||| exists|t: i64, e: S::L| #[trigger] left_inserted(before, after, t, e, delta)
        ||| exists|t: i64, e: S::R| #[trigger] right_inserted(before, after, t, e, delta)
        ||| exists|t: i64, e: S::L| #[trigger] left_evicted(before, after, t, e, delta) && holds_left(before, t, e)
        ||| exists|t: i64, e: S::R| #[trigger] right_evicted(before, after, t, e, delta) && holds_right(before, t, e)
    }
}

/// Calls lead from each state to the next and return the deltas.
pub open spec fn calls<S: JoinAggregateSpec, K, X: JoinKeys<S::L, S::R, K>>(
    states: Seq<WindowJoinState<S, K, X>>,
    deltas: Seq<S::V>,
) -> bool {
    &&& states.len() == deltas.len() + 1
    &&& forall|i: int| 0 <= i < deltas.len() ==> one_call(&states[i], &states[i + 1], #[trigger] deltas[i])
}

/// One call keeps the aggregate that of the join and adds what it returns.
pub proof fn lemma_one_call<S: JoinAggregateSpec, K, X: JoinKeys<S::L, S::R, K>>(
    before: &WindowJoinState<S, K, X>,
    after: &WindowJoinState<S, K, X>,
    delta: S::V,
)
    requires
        is_ring(&before.ring()),
        consistent(before),
        one_call(before, after, delta),
    ensures
        consistent(after),
{
    if exists|t: i64, e: S::L| #[trigger] left_inserted(before, after, t, e, delta) {
        let (t, e) = choose|t: i64, e: S::L| #[trigger] left_inserted(before, after, t, e, delta);
        law_insert_left(before, after, t, e, delta);
    } else if exists|t: i64, e: S::R| #[trigger] right_inserted(before, after, t, e, delta) {
        let (t, e) = choose|t: i64, e: S::R| #[trigger] right_inserted(before, after, t, e, delta);
        law_insert_right(before, after, t, e, delta);
    } else if exists|t: i64, e: S::L| #[trigger] left_evicted(before, after, t, e, delta) && holds_left(before, t, e) {
        let (t, e) = choose|t: i64, e: S::L| #[trigger]
            left_evicted(before, after, t, e, delta) && holds_left(before, t, e);
        law_evict_left(before, after, t, e, delta);
    } else {
        let (t, e) = choose|t: i64, e: S::R| #[trigger]
            right_evicted(before, after, t, e, delta) && holds_right(before, t, e);
        law_evict_right(before, after, t, e, delta);
    }
}

proof fn lemma_calls_add_up<S: JoinAggregateSpec, K, X: JoinKeys<S::L, S::R, K>>(
    states: Seq<WindowJoinState<S, K, X>>,
    deltas: Seq<S::V>,
)
    requires
        calls(states, deltas),
        states[0].value() == states[0].ring().spec_zero(),
    ensures
        states.last().same_setup(&states[0]),
        states.last().value() == total(states[0].ring().spec_zero(), value_plus(&states[0].ring()), deltas),
    decreases deltas.len(),
{
    if deltas.len() > 0 {
        let n = deltas.len() - 1;
        lemma_fewer_calls(states, deltas);
        lemma_calls_add_up(states.drop_last(), deltas.drop_last());
        assert(one_call(&states[n], &states[n + 1], deltas[n]));
    }
}

pub proof fn lemma_fewer_calls<S: JoinAggregateSpec, K, X: JoinKeys<S::L, S::R, K>>(
    states: Seq<WindowJoinState<S, K, X>>,
    deltas: Seq<S::V>,
)
    requires
        calls(states, deltas),
        deltas.len() > 0,
    ensures
        calls(states.drop_last(), deltas.drop_last()),
{
    let shorter = states.drop_last();
    let fewer = deltas.drop_last();
    assert forall|i: int| 0 <= i < fewer.len() implies one_call(&shorter[i], &shorter[i + 1], #[trigger] fewer[i]) by {
        assert(one_call(&states[i], &states[i + 1], deltas[i]));
    }
}

proof fn lemma_calls_consistent<S: JoinAggregateSpec, K, X: JoinKeys<S::L, S::R, K>>(
    states: Seq<WindowJoinState<S, K, X>>,
    deltas: Seq<S::V>,
)
    requires
        calls(states, deltas),
        is_ring(&states[0].ring()),
        consistent(&states[0]),
    ensures
        consistent(&states.last()),
        states.last().ring() == states[0].ring(),
    decreases deltas.len(),
{
    if deltas.len() > 0 {
        let n = deltas.len() - 1;
        lemma_fewer_calls(states, deltas);
        lemma_calls_consistent(states.drop_last(), deltas.drop_last());
        assert(one_call(&states[n], &states[n + 1], deltas[n]));
        lemma_one_call(&states[n], &states[n + 1], deltas[n]);
    }
}

/// After any calls on an empty state, the aggregate is that of the join of
/// what is held, and it is the sum of the deltas that the calls returned.
pub proof fn law_aggregate_after_calls<S: JoinAggregateSpec, K, X: JoinKeys<S::L, S::R, K>>(
    states: Seq<WindowJoinState<S, K, X>>,
    deltas: Seq<S::V>,
)
    requires
        calls(states, deltas),
        is_ring(&states[0].ring()),
        states[0].left_items().len() == 0,
        states[0].right_items().len() == 0,
        states[0].value() == states[0].ring().spec_zero(),
    ensures
        states.last().same_setup(&states[0]),
        consistent(&states.last()),
        states.last().value() == total(states[0].ring().spec_zero(), value_plus(&states[0].ring()), deltas),
{
    law_empty_is_consistent(&states[0]);
    lemma_calls_consistent(states, deltas);
    lemma_calls_add_up(states, deltas);
}

/// How many pairs join: those with equal keys whose timestamps differ by no
/// less than `lower` and no more than `upper`.
pub open spec fn pair_count<K, P, Q>(
    left: Seq<(Option<K>, i64, P)>,
    right: Seq<(Option<K>, i64, Q)>,
    b: IntervalBounds,
) -> nat
    decreases left.len(),
{
    if left.len() == 0 {
        0
    } else {
        pair_count(left.drop_last(), right, b) + right.filter(partners::<K, P, Q>(left.last(), b)).len()
    }
}

} // verus!
