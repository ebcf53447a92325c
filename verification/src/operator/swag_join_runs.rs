//! Runs of calls on a pairwise interval join: an element that is inserted and,
//! whatever is called in between, evicted again leaves no trace.
use vstd::multiset::Multiset;
use vstd::prelude::*;

use crate::algebra::total;
use crate::listing::{inserted, lemma_inserted_multiset};
use crate::operator::swag_join_laws::{
    holds_left, holds_right, law_order_of_calls_does_not_matter, lemma_one_call, lemma_same_times_and_keys,
    looks_like, one_call, one_left_key, one_right_key,
};
use crate::operator::swag_join_specs::JoinUpdate;
use crate::operator::swag_join_state::{
    column_entry, consistent, is_left_key, is_right_key, is_ring, left_delta, left_evicted, left_inserted,
    lemma_left_delta_row, lemma_right_delta_column, matched, right_delta, right_evicted, right_inserted, row,
    taken_out, value_plus, JoinAggregateSpec, JoinKeys, WindowJoinState,
};

verus! {

/// The call that an update stands for leads from `before` to `after` and returns
/// `delta`.
pub open spec fn performed<S: JoinAggregateSpec, K, X: JoinKeys<S::L, S::R, K>>(
    before: &WindowJoinState<S, K, X>,
    after: &WindowJoinState<S, K, X>,
    update: JoinUpdate<S::L, S::R>,
    delta: S::V,
) -> bool {
    &&& after.same_setup(before)
    &&& match update {
        JoinUpdate::InsertLeft { timestamp, element } => left_inserted(before, after, timestamp, element, delta),
        JoinUpdate::InsertRight { timestamp, element } => right_inserted(before, after, timestamp, element, delta),
        JoinUpdate::EvictLeft { timestamp, element } => left_evicted(before, after, timestamp, element, delta),
        JoinUpdate::EvictRight { timestamp, element } => right_evicted(before, after, timestamp, element, delta),
    }
}

/// The calls lead from each state to the next and return the deltas.
pub open spec fn runs<S: JoinAggregateSpec, K, X: JoinKeys<S::L, S::R, K>>(
    states: Seq<WindowJoinState<S, K, X>>,
    updates: Seq<JoinUpdate<S::L, S::R>>,
    deltas: Seq<S::V>,
) -> bool {
    &&& states.len() == updates.len() + 1
    &&& deltas.len() == updates.len()
    &&& forall|i: int|
        0 <= i < updates.len() ==> performed(&states[i], &states[i + 1], #[trigger] updates[i], deltas[i])
}

/// The update evicts nothing that is not held.
pub open spec fn evicts_held<S: JoinAggregateSpec, K, X: JoinKeys<S::L, S::R, K>>(
    state: &WindowJoinState<S, K, X>,
    update: JoinUpdate<S::L, S::R>,
) -> bool {
    match update {
        JoinUpdate::EvictLeft { timestamp, element } => holds_left(state, timestamp, element),
        JoinUpdate::EvictRight { timestamp, element } => holds_right(state, timestamp, element),
        _ => true,
    }
}

/// The extractor gives one key for the element of the update.
pub open spec fn one_key<S: JoinAggregateSpec, K, X: JoinKeys<S::L, S::R, K>>(
    state: &WindowJoinState<S, K, X>,
    update: JoinUpdate<S::L, S::R>,
) -> bool {
    match update {
        JoinUpdate::InsertLeft { element, .. } => one_left_key(state, element),
        JoinUpdate::EvictLeft { element, .. } => one_left_key(state, element),
        JoinUpdate::InsertRight { element, .. } => one_right_key(state, element),
        JoinUpdate::EvictRight { element, .. } => one_right_key(state, element),
    }
}

/// What each call of a run evicts is held when it is made, and the extractors
/// give one key for each element.
pub open spec fn fair<S: JoinAggregateSpec, K, X: JoinKeys<S::L, S::R, K>>(
    states: Seq<WindowJoinState<S, K, X>>,
    updates: Seq<JoinUpdate<S::L, S::R>>,
) -> bool {
    forall|i: int|
        0 <= i < updates.len() ==> evicts_held(&states[i], #[trigger] updates[i]) && one_key(&states[i], updates[i])
}

/// What an update does to the bags of the items held, under a key of its
/// element.
spec fn bags_change<S: JoinAggregateSpec, K, X: JoinKeys<S::L, S::R, K>>(
    before: &WindowJoinState<S, K, X>,
    after: &WindowJoinState<S, K, X>,
    update: JoinUpdate<S::L, S::R>,
    key: Option<K>,
) -> bool {
    let l = before.left_items().to_multiset();
    let r = before.right_items().to_multiset();
    match update {
        JoinUpdate::InsertLeft { timestamp, element } => {
            &&& is_left_key(before, element, key)
            &&& after.left_items().to_multiset() == l.insert((key, timestamp, before.ring().spec_left_payload(element)))
            &&& after.right_items().to_multiset() == r
        },
        JoinUpdate::EvictLeft { timestamp, element } => {
            &&& is_left_key(before, element, key)
            &&& after.left_items().to_multiset() == l.remove((key, timestamp, before.ring().spec_left_payload(element)))
            &&& after.right_items().to_multiset() == r
        },
        JoinUpdate::InsertRight { timestamp, element } => {
            &&& is_right_key(before, element, key)
            &&& after.left_items().to_multiset() == l
            &&& after.right_items().to_multiset() == r.insert(
                (key, timestamp, before.ring().spec_right_payload(element)),
            )
        },
        JoinUpdate::EvictRight { timestamp, element } => {
            &&& is_right_key(before, element, key)
            &&& after.left_items().to_multiset() == l
            &&& after.right_items().to_multiset() == r.remove(
                (key, timestamp, before.ring().spec_right_payload(element)),
            )
        },
    }
}

proof fn lemma_bag_grows<A>(before: Seq<A>, after: Seq<A>, x: A)
    requires
        inserted(before, after, x),
    ensures
        after.to_multiset() == before.to_multiset().insert(x),
{
    lemma_inserted_multiset(before, after, x);
}

proof fn lemma_bag_shrinks<A>(before: Seq<A>, after: Seq<A>, x: A)
    requires
        taken_out(before, after, x),
    ensures
        after.to_multiset() == before.to_multiset().remove(x),
{
    if before.contains(x) {
        lemma_inserted_multiset(after, before, x);
        assert(after.to_multiset().insert(x).remove(x) =~= after.to_multiset());
    } else {
        vstd::seq_lib::to_multiset_contains(before, x);
        assert(before.to_multiset().remove(x) =~= before.to_multiset());
    }
}

proof fn lemma_left_insert_bags<S: JoinAggregateSpec, K, X: JoinKeys<S::L, S::R, K>>(
    before: &WindowJoinState<S, K, X>,
    after: &WindowJoinState<S, K, X>,
    timestamp: i64,
    elem: S::L,
    delta: S::V,
) -> (key: Option<K>)
    requires
        left_inserted(before, after, timestamp, elem, delta),
    ensures
        is_left_key(before, elem, key),
        after.left_items().to_multiset() == before.left_items().to_multiset().insert(
            (key, timestamp, before.ring().spec_left_payload(elem)),
        ),
        after.right_items() == before.right_items(),
{
    let s = before.ring();
    let b = before.interval();
    let p = s.spec_left_payload(elem);
    let key = choose|key: Option<K>|
        #![trigger matched(before.right_items(), key, timestamp + b.lower, timestamp + b.upper)]
        {
            &&& is_left_key(before, elem, key)
            &&& inserted(before.left_items(), after.left_items(), (key, timestamp, p))
            &&& after.right_items() == before.right_items()
            &&& left_delta(
                &s,
                p,
                matched(before.right_items(), key, timestamp + b.lower, timestamp + b.upper),
                delta,
            )
            &&& after.value() == s.spec_add(before.value(), delta)
        };
    lemma_bag_grows(before.left_items(), after.left_items(), (key, timestamp, p));
    key
}

proof fn lemma_right_insert_bags<S: JoinAggregateSpec, K, X: JoinKeys<S::L, S::R, K>>(
    before: &WindowJoinState<S, K, X>,
    after: &WindowJoinState<S, K, X>,
    timestamp: i64,
    elem: S::R,
    delta: S::V,
) -> (key: Option<K>)
    requires
        right_inserted(before, after, timestamp, elem, delta),
    ensures
        is_right_key(before, elem, key),
        after.right_items().to_multiset() == before.right_items().to_multiset().insert(
            (key, timestamp, before.ring().spec_right_payload(elem)),
        ),
        after.left_items() == before.left_items(),
{
    let s = before.ring();
    let b = before.interval();
    let q = s.spec_right_payload(elem);
    let key = choose|key: Option<K>|
        #![trigger matched(before.left_items(), key, timestamp - b.upper, timestamp - b.lower)]
        {
            &&& is_right_key(before, elem, key)
            &&& inserted(before.right_items(), after.right_items(), (key, timestamp, q))
            &&& after.left_items() == before.left_items()
            &&& right_delta(
                &s,
                q,
                matched(before.left_items(), key, timestamp - b.upper, timestamp - b.lower),
                delta,
            )
            &&& after.value() == s.spec_add(before.value(), delta)
        };
    lemma_bag_grows(before.right_items(), after.right_items(), (key, timestamp, q));
    key
}

proof fn lemma_left_evict_bags<S: JoinAggregateSpec, K, X: JoinKeys<S::L, S::R, K>>(
    before: &WindowJoinState<S, K, X>,
    after: &WindowJoinState<S, K, X>,
    timestamp: i64,
    elem: S::L,
    delta: S::V,
) -> (r: (Option<K>, S::V))
    requires
        left_evicted(before, after, timestamp, elem, delta),
    ensures
        is_left_key(before, elem, r.0),
        after.left_items().to_multiset() == before.left_items().to_multiset().remove(
            (r.0, timestamp, before.ring().spec_left_payload(elem)),
        ),
        after.right_items() == before.right_items(),
        delta == before.ring().spec_negate(r.1),
        left_delta(
            &before.ring(),
            before.ring().spec_left_payload(elem),
            matched(
                before.right_items(),
                r.0,
                timestamp + before.interval().lower,
                timestamp + before.interval().upper,
            ),
            r.1,
        ),
{
    let s = before.ring();
    let b = before.interval();
    let p = s.spec_left_payload(elem);
    let (key, positive) = choose|key: Option<K>, positive: S::V|
        #![trigger is_left_key(before, elem, key), s.spec_negate(positive)]
        {
            &&& is_left_key(before, elem, key)
            &&& taken_out(before.left_items(), after.left_items(), (key, timestamp, p))
            &&& after.right_items() == before.right_items()
            &&& left_delta(
                &s,
                p,
                matched(before.right_items(), key, timestamp + b.lower, timestamp + b.upper),
                positive,
            )
            &&& delta == s.spec_negate(positive)
            &&& after.value() == s.spec_add(before.value(), delta)
        };
    lemma_bag_shrinks(before.left_items(), after.left_items(), (key, timestamp, p));
    (key, positive)
}

proof fn lemma_right_evict_bags<S: JoinAggregateSpec, K, X: JoinKeys<S::L, S::R, K>>(
    before: &WindowJoinState<S, K, X>,
    after: &WindowJoinState<S, K, X>,
    timestamp: i64,
    elem: S::R,
    delta: S::V,
) -> (r: (Option<K>, S::V))
    requires
        right_evicted(before, after, timestamp, elem, delta),
    ensures
        is_right_key(before, elem, r.0),
        after.right_items().to_multiset() == before.right_items().to_multiset().remove(
            (r.0, timestamp, before.ring().spec_right_payload(elem)),
        ),
        after.left_items() == before.left_items(),
        delta == before.ring().spec_negate(r.1),
        right_delta(
            &before.ring(),
            before.ring().spec_right_payload(elem),
            matched(
                before.left_items(),
                r.0,
                timestamp - before.interval().upper,
                timestamp - before.interval().lower,
            ),
            r.1,
        ),
{
    let s = before.ring();
    let b = before.interval();
    let q = s.spec_right_payload(elem);
    let (key, positive) = choose|key: Option<K>, positive: S::V|
        #![trigger is_right_key(before, elem, key), s.spec_negate(positive)]
        {
            &&& is_right_key(before, elem, key)
            &&& taken_out(before.right_items(), after.right_items(), (key, timestamp, q))
            &&& after.left_items() == before.left_items()
            &&& right_delta(
                &s,
                q,
                matched(before.left_items(), key, timestamp - b.upper, timestamp - b.lower),
                positive,
            )
            &&& delta == s.spec_negate(positive)
            &&& after.value() == s.spec_add(before.value(), delta)
        };
    lemma_bag_shrinks(before.right_items(), after.right_items(), (key, timestamp, q));
    (key, positive)
}

proof fn lemma_bags_change<S: JoinAggregateSpec, K, X: JoinKeys<S::L, S::R, K>>(
    before: &WindowJoinState<S, K, X>,
    after: &WindowJoinState<S, K, X>,
    update: JoinUpdate<S::L, S::R>,
    delta: S::V,
) -> (key: Option<K>)
    requires
        performed(before, after, update, delta),
    ensures
        bags_change(before, after, update, key),
{
    match update {
        JoinUpdate::InsertLeft { timestamp, element } => lemma_left_insert_bags(
            before,
            after,
            timestamp,
            element,
            delta,
        ),
        JoinUpdate::InsertRight { timestamp, element } => lemma_right_insert_bags(
            before,
            after,
            timestamp,
            element,
            delta,
        ),
        JoinUpdate::EvictLeft { timestamp, element } => lemma_left_evict_bags(
            before,
            after,
            timestamp,
            element,
            delta,
        ).0,
        JoinUpdate::EvictRight { timestamp, element } => lemma_right_evict_bags(
            before,
            after,
            timestamp,
            element,
            delta,
        ).0,
    }
}

/// `more` holds what `less` holds, and the given items besides.
spec fn ahead<S: JoinAggregateSpec, K, X>(
    more: &WindowJoinState<S, K, X>,
    less: &WindowJoinState<S, K, X>,
    left: Multiset<(Option<K>, i64, S::PL)>,
    right: Multiset<(Option<K>, i64, S::PR)>,
) -> bool {
    &&& more.same_setup(less)
    &&& more.left_items().to_multiset() == less.left_items().to_multiset().add(left)
    &&& more.right_items().to_multiset() == less.right_items().to_multiset().add(right)
}

proof fn lemma_bag_steps<A>(less: Multiset<A>, besides: Multiset<A>, x: A)
    ensures
        less.add(besides).insert(x) == less.insert(x).add(besides),
        less.count(x) > 0 ==> less.add(besides).remove(x) == less.remove(x).add(besides),
{
    assert(less.add(besides).insert(x) =~= less.insert(x).add(besides));
    if less.count(x) > 0 {
        assert(less.add(besides).remove(x) =~= less.remove(x).add(besides));
    }
}

/// What the state with less holds, that with more holds too.
proof fn lemma_ahead_holds<S: JoinAggregateSpec, K, X: JoinKeys<S::L, S::R, K>>(
    more: &WindowJoinState<S, K, X>,
    less: &WindowJoinState<S, K, X>,
    left: Multiset<(Option<K>, i64, S::PL)>,
    right: Multiset<(Option<K>, i64, S::PR)>,
    update: JoinUpdate<S::L, S::R>,
)
    requires
        ahead(more, less, left, right),
        evicts_held(less, update),
    ensures
        evicts_held(more, update),
{
    match update {
        JoinUpdate::EvictLeft { timestamp, element } => {
            assert forall|key: Option<K>| #[trigger] is_left_key(more, element, key) implies more.left_items().contains(
                (key, timestamp, more.ring().spec_left_payload(element)),
            ) by {
                let x = (key, timestamp, less.ring().spec_left_payload(element));
                assert(is_left_key(less, element, key));
                vstd::seq_lib::to_multiset_contains(less.left_items(), x);
                vstd::seq_lib::to_multiset_contains(more.left_items(), x);
            }
        },
        JoinUpdate::EvictRight { timestamp, element } => {
            assert forall|key: Option<K>| #[trigger]
                is_right_key(more, element, key) implies more.right_items().contains(
                (key, timestamp, more.ring().spec_right_payload(element)),
            ) by {
                let x = (key, timestamp, less.ring().spec_right_payload(element));
                assert(is_right_key(less, element, key));
                vstd::seq_lib::to_multiset_contains(less.right_items(), x);
                vstd::seq_lib::to_multiset_contains(more.right_items(), x);
            }
        },
        _ => {},
    }
}

/// The same call keeps the one state ahead of the other by the same items.
proof fn lemma_stays_ahead<S: JoinAggregateSpec, K, X: JoinKeys<S::L, S::R, K>>(
    more: &WindowJoinState<S, K, X>,
    less: &WindowJoinState<S, K, X>,
    more_after: &WindowJoinState<S, K, X>,
    less_after: &WindowJoinState<S, K, X>,
    left: Multiset<(Option<K>, i64, S::PL)>,
    right: Multiset<(Option<K>, i64, S::PR)>,
    update: JoinUpdate<S::L, S::R>,
    a: S::V,
    b: S::V,
)
    requires
        ahead(more, less, left, right),
        performed(more, more_after, update, a),
        performed(less, less_after, update, b),
        evicts_held(less, update),
        one_key(less, update),
    ensures
        ahead(more_after, less_after, left, right),
{
    let j = lemma_bags_change(more, more_after, update, a);
    let k = lemma_bags_change(less, less_after, update, b);
    match update {
        JoinUpdate::InsertLeft { timestamp, element } => {
            assert(is_left_key(less, element, j) && is_left_key(less, element, k));
            let x = (k, timestamp, less.ring().spec_left_payload(element));
            lemma_bag_steps(less.left_items().to_multiset(), left, x);
        },
        JoinUpdate::InsertRight { timestamp, element } => {
            assert(is_right_key(less, element, j) && is_right_key(less, element, k));
            let x = (k, timestamp, less.ring().spec_right_payload(element));
            lemma_bag_steps(less.right_items().to_multiset(), right, x);
        },
        JoinUpdate::EvictLeft { timestamp, element } => {
            assert(is_left_key(less, element, j) && is_left_key(less, element, k));
            let x = (k, timestamp, less.ring().spec_left_payload(element));
            vstd::seq_lib::to_multiset_contains(less.left_items(), x);
            lemma_bag_steps(less.left_items().to_multiset(), left, x);
        },
        JoinUpdate::EvictRight { timestamp, element } => {
            assert(is_right_key(less, element, j) && is_right_key(less, element, k));
            let x = (k, timestamp, less.ring().spec_right_payload(element));
            vstd::seq_lib::to_multiset_contains(less.right_items(), x);
            lemma_bag_steps(less.right_items().to_multiset(), right, x);
        },
    }
}

/// A call that evicts nothing that is not held keeps the aggregate that of the
/// join.
proof fn lemma_performed_consistent<S: JoinAggregateSpec, K, X: JoinKeys<S::L, S::R, K>>(
    before: &WindowJoinState<S, K, X>,
    after: &WindowJoinState<S, K, X>,
    update: JoinUpdate<S::L, S::R>,
    delta: S::V,
)
    requires
        is_ring(&before.ring()),
        consistent(before),
        performed(before, after, update, delta),
        evicts_held(before, update),
    ensures
        consistent(after),
{
    assert(one_call(before, after, delta)) by {
        lemma_performed_is_call(before, after, update, delta);
    }
    lemma_one_call(before, after, delta);
}

proof fn lemma_performed_is_call<S: JoinAggregateSpec, K, X: JoinKeys<S::L, S::R, K>>(
    before: &WindowJoinState<S, K, X>,
    after: &WindowJoinState<S, K, X>,
    update: JoinUpdate<S::L, S::R>,
    delta: S::V,
)
    requires
        performed(before, after, update, delta),
        evicts_held(before, update),
    ensures
        one_call(before, after, delta),
{
    match update {
        JoinUpdate::InsertLeft { timestamp, element } => {
            assert(left_inserted(before, after, timestamp, element, delta));
        },
        JoinUpdate::InsertRight { timestamp, element } => {
            assert(right_inserted(before, after, timestamp, element, delta));
        },
        JoinUpdate::EvictLeft { timestamp, element } => {
            assert(left_evicted(before, after, timestamp, element, delta) && holds_left(before, timestamp, element));
        },
        JoinUpdate::EvictRight { timestamp, element } => {
            assert(right_evicted(before, after, timestamp, element, delta) && holds_right(before, timestamp, element));
        },
    }
}

pub proof fn lemma_fewer<S: JoinAggregateSpec, K, X: JoinKeys<S::L, S::R, K>>(
    states: Seq<WindowJoinState<S, K, X>>,
    updates: Seq<JoinUpdate<S::L, S::R>>,
    deltas: Seq<S::V>,
)
    requires
        runs(states, updates, deltas),
        updates.len() > 0,
    ensures
        runs(states.drop_last(), updates.drop_last(), deltas.drop_last()),
        fair(states, updates) ==> fair(states.drop_last(), updates.drop_last()),
        performed(
            &states[updates.len() - 1],
            &states.last(),
            updates.last(),
            deltas.last(),
        ),
        fair(states, updates) ==> evicts_held(&states[updates.len() - 1], updates.last()) && one_key(
            &states[updates.len() - 1],
            updates.last(),
        ),
        states.drop_last().last() == states[updates.len() - 1],
        states.drop_last()[0] == states[0],
{
    let fewer = updates.drop_last();
    assert forall|i: int| 0 <= i < fewer.len() implies performed(
        &states.drop_last()[i],
        &states.drop_last()[i + 1],
        #[trigger] fewer[i],
        deltas.drop_last()[i],
    ) by {
        assert(performed(&states[i], &states[i + 1], updates[i], deltas[i]));
    }
    let n = updates.len() - 1;
    assert(performed(&states[n], &states[n + 1], updates[n], deltas[n]));
    if fair(states, updates) {
        assert forall|i: int| 0 <= i < fewer.len() implies evicts_held(&states.drop_last()[i], #[trigger] fewer[i])
            && one_key(&states.drop_last()[i], fewer[i]) by {
            assert(evicts_held(&states[i], updates[i]));
        }
        assert(evicts_held(&states[n], updates[n]));
    }
}

/// The same calls keep the one run ahead of the other by the same items.
proof fn lemma_runs_stay_ahead<S: JoinAggregateSpec, K, X: JoinKeys<S::L, S::R, K>>(
    more: Seq<WindowJoinState<S, K, X>>,
    less: Seq<WindowJoinState<S, K, X>>,
    left: Multiset<(Option<K>, i64, S::PL)>,
    right: Multiset<(Option<K>, i64, S::PR)>,
    updates: Seq<JoinUpdate<S::L, S::R>>,
    more_deltas: Seq<S::V>,
    less_deltas: Seq<S::V>,
)
    requires
        runs(more, updates, more_deltas),
        runs(less, updates, less_deltas),
        fair(less, updates),
        ahead(&more[0], &less[0], left, right),
    ensures
        ahead(&more.last(), &less.last(), left, right),
        more.last().same_setup(&more[0]),
        less.last().same_setup(&less[0]),
        fair(more, updates),
    decreases updates.len(),
{
    if updates.len() > 0 {
        let n = updates.len() - 1;
        lemma_fewer(more, updates, more_deltas);
        lemma_fewer(less, updates, less_deltas);
        lemma_runs_stay_ahead(
            more.drop_last(),
            less.drop_last(),
            left,
            right,
            updates.drop_last(),
            more_deltas.drop_last(),
            less_deltas.drop_last(),
        );
        lemma_ahead_holds(&more[n], &less[n], left, right, updates.last());
        lemma_one_key_of(&more[n], &less[n], updates.last());
        lemma_stays_ahead(
            &more[n],
            &less[n],
            &more.last(),
            &less.last(),
            left,
            right,
            updates.last(),
            more_deltas.last(),
            less_deltas.last(),
        );
        assert forall|i: int| 0 <= i < updates.len() implies evicts_held(&more[i], #[trigger] updates[i]) && one_key(
            &more[i],
            updates[i],
        ) by {
            if i < n {
                assert(evicts_held(&more.drop_last()[i], updates.drop_last()[i]));
            }
        }
    }
}

proof fn lemma_one_key_of<S: JoinAggregateSpec, K, X: JoinKeys<S::L, S::R, K>>(
    a: &WindowJoinState<S, K, X>,
    b: &WindowJoinState<S, K, X>,
    update: JoinUpdate<S::L, S::R>,
)
    requires
        a.same_setup(b),
        one_key(b, update),
    ensures
        one_key(a, update),
{
    match update {
        JoinUpdate::InsertLeft { element, .. } | JoinUpdate::EvictLeft { element, .. } => {
            assert forall|j: Option<K>, k: Option<K>| #[trigger]
                is_left_key(a, element, j) && #[trigger] is_left_key(a, element, k) implies j == k by {
                assert(is_left_key(b, element, j) && is_left_key(b, element, k));
            }
        },
        JoinUpdate::InsertRight { element, .. } | JoinUpdate::EvictRight { element, .. } => {
            assert forall|j: Option<K>, k: Option<K>| #[trigger]
                is_right_key(a, element, j) && #[trigger] is_right_key(a, element, k) implies j == k by {
                assert(is_right_key(b, element, j) && is_right_key(b, element, k));
            }
        },
    }
}

/// Calls that evict nothing that is not held keep the aggregate that of the
/// join.
proof fn lemma_run_consistent<S: JoinAggregateSpec, K, X: JoinKeys<S::L, S::R, K>>(
    states: Seq<WindowJoinState<S, K, X>>,
    updates: Seq<JoinUpdate<S::L, S::R>>,
    deltas: Seq<S::V>,
)
    requires
        runs(states, updates, deltas),
        fair(states, updates),
        is_ring(&states[0].ring()),
        consistent(&states[0]),
    ensures
        consistent(&states.last()),
        states.last().ring() == states[0].ring(),
    decreases updates.len(),
{
    if updates.len() > 0 {
        let n = updates.len() - 1;
        lemma_fewer(states, updates, deltas);
        lemma_run_consistent(states.drop_last(), updates.drop_last(), deltas.drop_last());
        lemma_performed_consistent(&states[n], &states.last(), updates.last(), deltas.last());
    }
}

proof fn lemma_looks_like<S: JoinAggregateSpec, K, X>(a: &WindowJoinState<S, K, X>, b: &WindowJoinState<S, K, X>)
    requires
        a.value() == b.value(),
        a.left_items().to_multiset() == b.left_items().to_multiset(),
        a.right_items().to_multiset() == b.right_items().to_multiset(),
    ensures
        looks_like(a, b),
{
    lemma_same_times_and_keys(a.left_items(), b.left_items());
    lemma_same_times_and_keys(a.right_items(), b.right_items());
    vstd::seq_lib::to_multiset_len(a.left_items());
    vstd::seq_lib::to_multiset_len(b.left_items());
    vstd::seq_lib::to_multiset_len(a.right_items());
    vstd::seq_lib::to_multiset_len(b.right_items());
}

/// What a right item adds to the aggregate: the sum of the products of the left
/// payloads it matches with it.
pub open spec fn right_change<S: JoinAggregateSpec, K, X>(
    state: &WindowJoinState<S, K, X>,
    r: (Option<K>, i64, S::PR),
) -> S::V {
    total(
        state.ring().spec_zero(),
        value_plus(&state.ring()),
        state.left_items().map_values(column_entry(&state.ring(), r, state.interval())),
    )
}

/// Evicting a right element takes back what it adds to the aggregate then.
proof fn lemma_right_taken<S: JoinAggregateSpec, K, X: JoinKeys<S::L, S::R, K>>(
    before: &WindowJoinState<S, K, X>,
    after: &WindowJoinState<S, K, X>,
    timestamp: i64,
    elem: S::R,
    delta: S::V,
)
    requires
        is_ring(&before.ring()),
        one_right_key(before, elem),
        right_evicted(before, after, timestamp, elem, delta),
    ensures
        forall|key: Option<K>| #[trigger]
            is_right_key(before, elem, key) ==> delta == before.ring().spec_negate(
                right_change(before, (key, timestamp, before.ring().spec_right_payload(elem))),
            ),
{
    let (key, positive) = lemma_right_evict_bags(before, after, timestamp, elem, delta);
    lemma_right_delta_column(
        &before.ring(),
        before.left_items(),
        (key, timestamp, before.ring().spec_right_payload(elem)),
        before.interval(),
        positive,
    );
}

proof fn lemma_right_ahead<S: JoinAggregateSpec, K, X: JoinKeys<S::L, S::R, K>>(
    start: &WindowJoinState<S, K, X>,
    after: &WindowJoinState<S, K, X>,
    timestamp: i64,
    elem: S::R,
    given: S::V,
) -> (x: (Option<K>, i64, S::PR))
    requires
        performed(start, after, JoinUpdate::InsertRight { timestamp, element: elem }, given),
    ensures
        is_right_key(start, elem, x.0),
        x.1 == timestamp,
        x.2 == start.ring().spec_right_payload(elem),
        ahead(after, start, Multiset::empty(), Multiset::singleton(x)),
{
    let key = lemma_right_insert_bags(start, after, timestamp, elem, given);
    let x = (key, timestamp, start.ring().spec_right_payload(elem));
    assert(start.left_items().to_multiset().add(Multiset::empty()) =~= start.left_items().to_multiset());
    x
}

/// Evicting the right element that one state is ahead by makes both hold the
/// same.
proof fn lemma_right_catches_up<S: JoinAggregateSpec, K, X: JoinKeys<S::L, S::R, K>>(
    more: &WindowJoinState<S, K, X>,
    less: &WindowJoinState<S, K, X>,
    end: &WindowJoinState<S, K, X>,
    x: (Option<K>, i64, S::PR),
    elem: S::R,
    taken: S::V,
)
    requires
        ahead(more, less, Multiset::empty(), Multiset::singleton(x)),
        is_right_key(more, elem, x.0),
        one_right_key(more, elem),
        x.2 == more.ring().spec_right_payload(elem),
        performed(more, end, JoinUpdate::EvictRight { timestamp: x.1, element: elem }, taken),
    ensures
        holds_right(more, x.1, elem),
        end.left_items().to_multiset() == less.left_items().to_multiset(),
        end.right_items().to_multiset() == less.right_items().to_multiset(),
{
    let (key, positive) = lemma_right_evict_bags(more, end, x.1, elem, taken);
    assert(key == x.0);
    let held = less.right_items().to_multiset();
    assert(held.add(Multiset::singleton(x)).remove(x) =~= held);
    assert(less.left_items().to_multiset().add(Multiset::empty()) =~= less.left_items().to_multiset());
    vstd::seq_lib::to_multiset_contains(more.right_items(), x);
}

/// A right element that is inserted and, after any other calls, evicted leaves no
/// trace: the state is as the other calls alone would have left it, and the
/// eviction takes back what the element adds to the aggregate by then. The other
/// calls evict nothing that is not held without the element.
pub proof fn law_insert_right_then_evict_right_leaves_no_trace<S: JoinAggregateSpec, K, X: JoinKeys<S::L, S::R, K>>(
    start: &WindowJoinState<S, K, X>,
    with: Seq<WindowJoinState<S, K, X>>,
    without: Seq<WindowJoinState<S, K, X>>,
    end: &WindowJoinState<S, K, X>,
    updates: Seq<JoinUpdate<S::L, S::R>>,
    with_deltas: Seq<S::V>,
    without_deltas: Seq<S::V>,
    timestamp: i64,
    elem: S::R,
    given: S::V,
    taken: S::V,
)
    requires
        is_ring(&start.ring()),
        consistent(start),
        one_right_key(start, elem),
        performed(start, &with[0], JoinUpdate::InsertRight { timestamp, element: elem }, given),
        runs(with, updates, with_deltas),
        performed(&with.last(), end, JoinUpdate::EvictRight { timestamp, element: elem }, taken),
        without[0] == *start,
        runs(without, updates, without_deltas),
        fair(without, updates),
    ensures
        looks_like(end, &without.last()),
        end.same_setup(&without.last()),
        forall|key: Option<K>| #[trigger]
            is_right_key(start, elem, key) ==> taken == start.ring().spec_negate(
                right_change(&with.last(), (key, timestamp, start.ring().spec_right_payload(elem))),
            ),
{
    let x = lemma_right_ahead(start, &with[0], timestamp, elem, given);
    lemma_runs_stay_ahead(
        with,
        without,
        Multiset::empty(),
        Multiset::singleton(x),
        updates,
        with_deltas,
        without_deltas,
    );
    let evict = JoinUpdate::<S::L, S::R>::EvictRight { timestamp, element: elem };
    assert(one_key(start, evict));
    lemma_one_key_of(&with.last(), start, evict);
    assert(is_right_key(&with.last(), elem, x.0));
    lemma_right_catches_up(&with.last(), &without.last(), end, x, elem, taken);
    let insert = JoinUpdate::<S::L, S::R>::InsertRight { timestamp, element: elem };
    lemma_performed_consistent(start, &with[0], insert, given);
    lemma_run_consistent(with, updates, with_deltas);
    lemma_performed_consistent(&with.last(), end, evict, taken);
    lemma_run_consistent(without, updates, without_deltas);
    law_order_of_calls_does_not_matter(end, &without.last());
    lemma_looks_like(end, &without.last());
    lemma_right_taken(&with.last(), end, timestamp, elem, taken);
    assert forall|key: Option<K>| #[trigger] is_right_key(start, elem, key) implies taken == start.ring().spec_negate(
        right_change(&with.last(), (key, timestamp, start.ring().spec_right_payload(elem))),
    ) by {
        assert(is_right_key(&with.last(), elem, key));
    }
}

/// What a left item adds to the aggregate: the sum of the products with the
/// right payloads it matches.
pub open spec fn left_change<S: JoinAggregateSpec, K, X>(
    state: &WindowJoinState<S, K, X>,
    l: (Option<K>, i64, S::PL),
) -> S::V {
    row(&state.ring(), state.right_items(), state.interval())(l)
}

/// Evicting a left element takes back what it adds to the aggregate then.
proof fn lemma_left_taken<S: JoinAggregateSpec, K, X: JoinKeys<S::L, S::R, K>>(
    before: &WindowJoinState<S, K, X>,
    after: &WindowJoinState<S, K, X>,
    timestamp: i64,
    elem: S::L,
    delta: S::V,
)
    requires
        is_ring(&before.ring()),
        one_left_key(before, elem),
        left_evicted(before, after, timestamp, elem, delta),
    ensures
        forall|key: Option<K>| #[trigger]
            is_left_key(before, elem, key) ==> delta == before.ring().spec_negate(
                left_change(before, (key, timestamp, before.ring().spec_left_payload(elem))),
            ),
{
    let (key, positive) = lemma_left_evict_bags(before, after, timestamp, elem, delta);
    lemma_left_delta_row(
        &before.ring(),
        (key, timestamp, before.ring().spec_left_payload(elem)),
        before.right_items(),
        before.interval(),
        positive,
    );
}

proof fn lemma_left_ahead<S: JoinAggregateSpec, K, X: JoinKeys<S::L, S::R, K>>(
    start: &WindowJoinState<S, K, X>,
    after: &WindowJoinState<S, K, X>,
    timestamp: i64,
    elem: S::L,
    given: S::V,
) -> (x: (Option<K>, i64, S::PL))
    requires
        performed(start, after, JoinUpdate::InsertLeft { timestamp, element: elem }, given),
    ensures
        is_left_key(start, elem, x.0),
        x.1 == timestamp,
        x.2 == start.ring().spec_left_payload(elem),
        ahead(after, start, Multiset::singleton(x), Multiset::empty()),
{
    let key = lemma_left_insert_bags(start, after, timestamp, elem, given);
    let x = (key, timestamp, start.ring().spec_left_payload(elem));
    assert(start.right_items().to_multiset().add(Multiset::empty()) =~= start.right_items().to_multiset());
    x
}

/// Evicting the left element that one state is ahead by makes both hold the
/// same.
proof fn lemma_left_catches_up<S: JoinAggregateSpec, K, X: JoinKeys<S::L, S::R, K>>(
    more: &WindowJoinState<S, K, X>,
    less: &WindowJoinState<S, K, X>,
    end: &WindowJoinState<S, K, X>,
    x: (Option<K>, i64, S::PL),
    elem: S::L,
    taken: S::V,
)
    requires
        ahead(more, less, Multiset::singleton(x), Multiset::empty()),
        is_left_key(more, elem, x.0),
        one_left_key(more, elem),
        x.2 == more.ring().spec_left_payload(elem),
        performed(more, end, JoinUpdate::EvictLeft { timestamp: x.1, element: elem }, taken),
    ensures
        holds_left(more, x.1, elem),
        end.left_items().to_multiset() == less.left_items().to_multiset(),
        end.right_items().to_multiset() == less.right_items().to_multiset(),
{
    let (key, positive) = lemma_left_evict_bags(more, end, x.1, elem, taken);
    assert(key == x.0);
    let held = less.left_items().to_multiset();
    assert(held.add(Multiset::singleton(x)).remove(x) =~= held);
    assert(less.right_items().to_multiset().add(Multiset::empty()) =~= less.right_items().to_multiset());
    vstd::seq_lib::to_multiset_contains(more.left_items(), x);
}

/// A left element that is inserted and, after any other calls, evicted leaves no
/// trace: the state is as the other calls alone would have left it, and the
/// eviction takes back what the element adds to the aggregate by then. The other
/// calls evict nothing that is not held without the element.
pub proof fn law_insert_left_then_evict_left_leaves_no_trace<S: JoinAggregateSpec, K, X: JoinKeys<S::L, S::R, K>>(
    start: &WindowJoinState<S, K, X>,
    with: Seq<WindowJoinState<S, K, X>>,
    without: Seq<WindowJoinState<S, K, X>>,
    end: &WindowJoinState<S, K, X>,
    updates: Seq<JoinUpdate<S::L, S::R>>,
    with_deltas: Seq<S::V>,
    without_deltas: Seq<S::V>,
    timestamp: i64,
    elem: S::L,
    given: S::V,
    taken: S::V,
)
    requires
        is_ring(&start.ring()),
        consistent(start),
        one_left_key(start, elem),
        performed(start, &with[0], JoinUpdate::InsertLeft { timestamp, element: elem }, given),
        runs(with, updates, with_deltas),
        performed(&with.last(), end, JoinUpdate::EvictLeft { timestamp, element: elem }, taken),
        without[0] == *start,
        runs(without, updates, without_deltas),
        fair(without, updates),
    ensures
        looks_like(end, &without.last()),
        end.same_setup(&without.last()),
        forall|key: Option<K>| #[trigger]
            is_left_key(start, elem, key) ==> taken == start.ring().spec_negate(
                left_change(&with.last(), (key, timestamp, start.ring().spec_left_payload(elem))),
            ),
{
    let x = lemma_left_ahead(start, &with[0], timestamp, elem, given);
    lemma_runs_stay_ahead(
        with,
        without,
        Multiset::singleton(x),
        Multiset::empty(),
        updates,
        with_deltas,
        without_deltas,
    );
    let evict = JoinUpdate::<S::L, S::R>::EvictLeft { timestamp, element: elem };
    assert(one_key(start, evict));
    lemma_one_key_of(&with.last(), start, evict);
    assert(is_left_key(&with.last(), elem, x.0));
    lemma_left_catches_up(&with.last(), &without.last(), end, x, elem, taken);
    let insert = JoinUpdate::<S::L, S::R>::InsertLeft { timestamp, element: elem };
    lemma_performed_consistent(start, &with[0], insert, given);
    lemma_run_consistent(with, updates, with_deltas);
    lemma_performed_consistent(&with.last(), end, evict, taken);
    lemma_run_consistent(without, updates, without_deltas);
    law_order_of_calls_does_not_matter(end, &without.last());
    lemma_looks_like(end, &without.last());
    lemma_left_taken(&with.last(), end, timestamp, elem, taken);
    assert forall|key: Option<K>| #[trigger] is_left_key(start, elem, key) implies taken == start.ring().spec_negate(
        left_change(&with.last(), (key, timestamp, start.ring().spec_left_payload(elem))),
    ) by {
        assert(is_left_key(&with.last(), elem, key));
    }
}

} // verus!
