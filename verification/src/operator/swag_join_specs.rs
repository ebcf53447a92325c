//! The counting join aggregate and the update-driven runner.
use std::marker::PhantomData;
use vstd::prelude::*;

use crate::algebra::{additive, lemma_total_filter, monoid, total};
use crate::listing::{inserted, lawful};
use crate::operator::swag_join_laws::{
    calls, law_aggregate_after_calls, lemma_fewer_calls, looks_like, one_call, one_left_key, one_right_key, pair_count,
};
use crate::operator::swag_join_runs::{
    fair, law_insert_left_then_evict_left_leaves_no_trace, law_insert_right_then_evict_right_leaves_no_trace,
    left_change, lemma_fewer, performed, right_change, runs,
};
use crate::operator::swag_join_state::{
    column_entry, consistent, is_left_key, is_right_key, is_ring, item_payload, join_total, left_evicted, left_inserted, left_plus, matching, partners, right_evicted,
    right_inserted, right_plus, row, times_left, times_right, value_plus, IntervalBounds, JoinAggregateSpec, JoinKeys, KeyPair, NoKey, NoKeys, WindowJoinState,
};
use crate::wrapping::{
    crop, lemma_add_is_crop, lemma_add_laws, lemma_crop_congruent, lemma_crop_id, lemma_crop_same, lemma_mul_laws,
    lemma_sub_is_crop, modulus,
};

verus! {

/// `COUNT(*)` over the join: every element contributes the payload 1 and the
/// aggregate counts joined pairs, modulo 2^64.
#[derive(Debug)]
pub struct CountSpec<L, R>(PhantomData<(L, R)>);

impl<L, R> CountSpec<L, R> {
    pub fn new() -> (r: Self)
        ensures
            r.spec_zero() == 0,
    {
        CountSpec(PhantomData)
    }
}

impl<L, R> Clone for CountSpec<L, R> {
    fn clone(&self) -> (r: Self)
        ensures
            r == *self,
    {
        CountSpec(self.0)
    }
}

impl<L, R> Default for CountSpec<L, R> {
    fn default() -> (r: Self) {
        Self::new()
    }
}

impl<L, R> JoinAggregateSpec for CountSpec<L, R> {
    type L = L;

    type R = R;

    type PL = i64;

    type PR = i64;

    type V = i64;

    open spec fn spec_left_payload(&self, left: L) -> i64 {
        1
    }

    open spec fn spec_right_payload(&self, right: R) -> i64 {
        1
    }

    open spec fn spec_zero(&self) -> i64 {
        0
    }

    open spec fn spec_add(&self, a: i64, b: i64) -> i64 {
        a.wrapping_add(b)
    }

    open spec fn spec_negate(&self, v: i64) -> i64 {
        0i64.wrapping_sub(v)
    }

    open spec fn spec_multiply_left(&self, left: i64, right: i64) -> i64 {
        left.wrapping_mul(right)
    }

    open spec fn spec_multiply_right(&self, left: i64, right: i64) -> i64 {
        left.wrapping_mul(right)
    }

    open spec fn spec_zero_left(&self) -> i64 {
        0
    }

    open spec fn spec_zero_right(&self) -> i64 {
        0
    }

    open spec fn spec_add_left(&self, a: i64, b: i64) -> i64 {
        a.wrapping_add(b)
    }

    open spec fn spec_add_right(&self, a: i64, b: i64) -> i64 {
        a.wrapping_add(b)
    }

    open spec fn spec_name(&self) -> Seq<char> {
        "COUNT"@
    }

    fn left_payload(&self, left: &L) -> (r: i64) {
        1
    }

    fn right_payload(&self, right: &R) -> (r: i64) {
        1
    }

    fn zero(&self) -> (r: i64) {
        0
    }

    fn add(&self, a: &i64, b: &i64) -> (r: i64) {
        (*a).wrapping_add(*b)
    }

    fn negate(&self, v: &i64) -> (r: i64) {
        0i64.wrapping_sub(*v)
    }

    fn multiply_left(&self, left: &i64, right: &i64) -> (r: i64) {
        (*left).wrapping_mul(*right)
    }

    fn multiply_right(&self, left: &i64, right: &i64) -> (r: i64) {
        (*left).wrapping_mul(*right)
    }

    fn zero_left(&self) -> (r: i64) {
        0
    }

    fn zero_right(&self) -> (r: i64) {
        0
    }

    fn add_left(&self, a: &i64, b: &i64) -> (r: i64) {
        (*a).wrapping_add(*b)
    }

    fn add_right(&self, a: &i64, b: &i64) -> (r: i64) {
        (*a).wrapping_add(*b)
    }

    fn name(&self) -> (r: &str) {
        "COUNT"
    }
}

/// Counting satisfies the ring laws that incremental maintenance needs.
pub proof fn law_count_is_ring<L, R>(s: &CountSpec<L, R>)
    ensures
        is_ring(s),
{
    assert forall|a: i64, b: i64, c: i64|
        #![trigger a.wrapping_add(b).wrapping_add(c)]
        a.wrapping_add(b).wrapping_add(c) == a.wrapping_add(b.wrapping_add(c)) by {
        lemma_add_laws(a, b, c);
    }
    assert forall|a: i64, b: i64| #[trigger] a.wrapping_add(b) == b.wrapping_add(a) by {
        lemma_add_laws(a, b, 0);
    }
    assert forall|a: i64| #[trigger] 0i64.wrapping_add(a) == a by {
        lemma_add_laws(a, 0, 0);
    }
    assert forall|a: i64| #[trigger] a.wrapping_add(0i64.wrapping_sub(a)) == 0 by {
        lemma_add_laws(a, 0, 0);
    }
    assert(monoid(s.spec_zero(), value_plus(s)));
    assert(monoid(s.spec_zero_left(), left_plus(s)));
    assert(monoid(s.spec_zero_right(), right_plus(s)));
    assert forall|p: i64| #[trigger]
        additive(times_right(s, p), s.spec_zero_right(), right_plus(s), s.spec_zero(), value_plus(s)) by {
        lemma_mul_laws(p, 0, 0);
        assert forall|a: i64, b: i64| #[trigger]
            times_right(s, p)(right_plus(s)(a, b)) == value_plus(s)(times_right(s, p)(a), times_right(s, p)(b)) by {
            lemma_mul_laws(p, a, b);
        }
    }
    assert forall|q: i64| #[trigger]
        additive(times_left(s, q), s.spec_zero_left(), left_plus(s), s.spec_zero(), value_plus(s)) by {
        lemma_mul_laws(q, 0, 0);
        lemma_mul_laws(0, q, 0);
        assert forall|a: i64, b: i64| #[trigger]
            times_left(s, q)(left_plus(s)(a, b)) == value_plus(s)(times_left(s, q)(a), times_left(s, q)(b)) by {
            lemma_mul_laws(q, a, b);
            lemma_mul_laws(a, q, 0);
            lemma_mul_laws(b, q, 0);
            lemma_mul_laws(left_plus(s)(a, b), q, 0);
        }
    }
}

/// Every payload is one.
pub open spec fn all_ones<K>(items: Seq<(Option<K>, i64, i64)>) -> bool {
    forall|i: int| 0 <= i < items.len() ==> (#[trigger] items[i]).2 == 1
}

/// Adding the ones of a listing counts it, modulo 2^64.
proof fn lemma_sum_of_ones<L, R>(s: &CountSpec<L, R>, ones: Seq<i64>)
    requires
        forall|i: int| 0 <= i < ones.len() ==> #[trigger] ones[i] == 1,
    ensures
        total(s.spec_zero(), value_plus(s), ones) == crop(ones.len() as int),
    decreases ones.len(),
{
    if ones.len() == 0 {
        lemma_crop_id(0);
    } else {
        let rest = ones.drop_last();
        assert forall|i: int| 0 <= i < rest.len() implies #[trigger] rest[i] == 1 by {
            assert(ones[i] == 1);
        }
        lemma_sum_of_ones(s, rest);
        assert(ones[ones.len() - 1] == 1);
        lemma_add_crops(rest.len() as int, 1);
        lemma_crop_id(1);
    }
}

/// Adding what two numbers are congruent to.
proof fn lemma_add_crops(a: int, b: int)
    ensures
        crop(a).wrapping_add(crop(b)) == crop(a + b),
{
    lemma_add_is_crop(crop(a), crop(b));
    lemma_crop_congruent(a);
    lemma_crop_congruent(b);
    let m = modulus();
    vstd::arithmetic::div_mod::lemma_add_mod_noop(crop(a) as int, crop(b) as int, m);
    vstd::arithmetic::div_mod::lemma_add_mod_noop(a, b, m);
    lemma_crop_same(crop(a) + crop(b), a + b);
}

proof fn lemma_count_of_join<L, R, K>(
    s: &CountSpec<L, R>,
    left: Seq<(Option<K>, i64, i64)>,
    right: Seq<(Option<K>, i64, i64)>,
    b: IntervalBounds,
)
    requires
        all_ones(left),
        all_ones(right),
    ensures
        join_total(s, left, right, b) == crop(pair_count(left, right, b) as int),
    decreases left.len(),
{
    let f = row(s, right, b);
    if left.len() == 0 {
        lemma_crop_id(0);
    } else {
        let rest = left.drop_last();
        let l = left.last();
        assert forall|i: int| 0 <= i < rest.len() implies (#[trigger] rest[i]).2 == 1 by {
            assert(left[i].2 == 1);
        }
        assert(left[left.len() - 1].2 == 1);
        lemma_count_of_join(s, rest, right, b);
        assert(left.map_values(f).drop_last() =~= rest.map_values(f));
        let p = partners::<K, i64, i64>(l, b);
        let found = right.filter(p);
        let ones = found.map_values(item_payload()).map_values(times_right(s, 1));
        assert forall|i: int| 0 <= i < ones.len() implies #[trigger] ones[i] == 1 by {
            crate::listing::lemma_filter_member(right, p, i);
            assert(found[i].2 == 1);
            lemma_one_times_one();
        }
        lemma_sum_of_ones(s, ones);
        lemma_add_crops(pair_count(rest, right, b) as int, found.len() as int);
    }
}

proof fn lemma_one_times_one()
    ensures
        1i64.wrapping_mul(1i64) == 1,
{
    lemma_crop_id(1);
}

/// The state counts the pairs that join among what it holds, modulo 2^64.
pub open spec fn counts_pairs<L, R, K, X>(state: &WindowJoinState<CountSpec<L, R>, K, X>) -> bool {
    &&& all_ones(state.left_items())
    &&& all_ones(state.right_items())
    &&& state.value() == crop(pair_count(state.left_items(), state.right_items(), state.interval()) as int)
}

/// Counting counts: a state that holds ones and whose aggregate is that of its
/// join counts the pairs with equal keys whose timestamps differ by no less
/// than `lower` and no more than `upper`, and exactly so while the number fits.
pub proof fn law_count_is_number_of_pairs<L, R, K, X>(state: &WindowJoinState<CountSpec<L, R>, K, X>)
    requires
        consistent(state),
        all_ones(state.left_items()),
        all_ones(state.right_items()),
    ensures
        counts_pairs(state),
        pair_count(state.left_items(), state.right_items(), state.interval()) <= i64::MAX ==> state.value()
            == pair_count(state.left_items(), state.right_items(), state.interval()),
{
    lemma_count_of_join(&state.ring(), state.left_items(), state.right_items(), state.interval());
    let n = pair_count(state.left_items(), state.right_items(), state.interval());
    if n <= i64::MAX {
        lemma_crop_id(n as i64);
    }
}

/// After any calls on an empty counting state, it counts the pairs that join
/// among what it holds, and its aggregate is the sum of what the calls returned.
pub proof fn law_count_after_calls<L, R, K, X: JoinKeys<L, R, K>>(
    states: Seq<WindowJoinState<CountSpec<L, R>, K, X>>,
    deltas: Seq<i64>,
)
    requires
        calls(states, deltas),
        states[0].left_items().len() == 0,
        states[0].right_items().len() == 0,
        states[0].value() == 0,
    ensures
        counts_pairs(&states.last()),
        states.last().value() == total(0i64, value_plus(&states[0].ring()), deltas),
{
    law_count_is_ring(&states[0].ring());
    law_aggregate_after_calls(states, deltas);
    lemma_calls_keep_ones(states, deltas);
    law_count_is_number_of_pairs(&states.last());
}

proof fn lemma_calls_keep_ones<L, R, K, X: JoinKeys<L, R, K>>(
    states: Seq<WindowJoinState<CountSpec<L, R>, K, X>>,
    deltas: Seq<i64>,
)
    requires
        calls(states, deltas),
        all_ones(states[0].left_items()),
        all_ones(states[0].right_items()),
    ensures
        all_ones(states.last().left_items()),
        all_ones(states.last().right_items()),
    decreases deltas.len(),
{
    if deltas.len() > 0 {
        let n = deltas.len() - 1;
        lemma_fewer_calls(states, deltas);
        lemma_calls_keep_ones(states.drop_last(), deltas.drop_last());
        assert(one_call(&states[n], &states[n + 1], deltas[n]));
        lemma_call_keeps_ones(&states[n], &states[n + 1], deltas[n]);
    }
}

proof fn lemma_call_keeps_ones<L, R, K, X: JoinKeys<L, R, K>>(
    before: &WindowJoinState<CountSpec<L, R>, K, X>,
    after: &WindowJoinState<CountSpec<L, R>, K, X>,
    delta: i64,
)
    requires
        one_call(before, after, delta),
        all_ones(before.left_items()),
        all_ones(before.right_items()),
    ensures
        all_ones(after.left_items()),
        all_ones(after.right_items()),
{
    assert forall|k: Option<K>, t: i64| #[trigger]
        inserted(before.left_items(), after.left_items(), (k, t, 1i64)) implies all_ones(after.left_items()) by {
        lemma_ones_grow(before.left_items(), after.left_items(), (k, t, 1i64));
    }
    assert forall|k: Option<K>, t: i64| #[trigger]
        inserted(before.right_items(), after.right_items(), (k, t, 1i64)) implies all_ones(after.right_items()) by {
        lemma_ones_grow(before.right_items(), after.right_items(), (k, t, 1i64));
    }
    assert forall|k: Option<K>, t: i64| #[trigger]
        inserted(after.left_items(), before.left_items(), (k, t, 1i64)) implies all_ones(after.left_items()) by {
        lemma_ones_shrink(after.left_items(), before.left_items(), (k, t, 1i64));
    }
    assert forall|k: Option<K>, t: i64| #[trigger]
        inserted(after.right_items(), before.right_items(), (k, t, 1i64)) implies all_ones(after.right_items()) by {
        lemma_ones_shrink(after.right_items(), before.right_items(), (k, t, 1i64));
    }
}

proof fn lemma_ones_grow<K>(
    before: Seq<(Option<K>, i64, i64)>,
    after: Seq<(Option<K>, i64, i64)>,
    x: (Option<K>, i64, i64),
)
    requires
        inserted(before, after, x),
        all_ones(before),
        x.2 == 1,
    ensures
        all_ones(after),
{
    let i = choose|i: int| 0 <= i <= before.len() && after == #[trigger] before.insert(i, x);
    assert forall|j: int| 0 <= j < after.len() implies (#[trigger] after[j]).2 == 1 by {
        if j < i {
            assert(after[j] == before[j]);
        } else if j > i {
            assert(after[j] == before[j - 1]);
        }
    }
}

proof fn lemma_ones_shrink<K>(
    after: Seq<(Option<K>, i64, i64)>,
    before: Seq<(Option<K>, i64, i64)>,
    x: (Option<K>, i64, i64),
)
    requires
        inserted(after, before, x),
        all_ones(before),
    ensures
        all_ones(after),
{
    let i = choose|i: int| 0 <= i <= after.len() && before == #[trigger] after.insert(i, x);
    assert forall|j: int| 0 <= j < after.len() implies (#[trigger] after[j]).2 == 1 by {
        if j < i {
            assert(before[j] == after[j]);
        } else {
            assert(before[j + 1] == after[j]);
        }
    }
}

/// A call keeps the payloads ones.
proof fn lemma_performed_keeps_ones<L, R, K, X: JoinKeys<L, R, K>>(
    before: &WindowJoinState<CountSpec<L, R>, K, X>,
    after: &WindowJoinState<CountSpec<L, R>, K, X>,
    update: JoinUpdate<L, R>,
    delta: i64,
)
    requires
        performed(before, after, update, delta),
        all_ones(before.left_items()),
        all_ones(before.right_items()),
    ensures
        all_ones(after.left_items()),
        all_ones(after.right_items()),
{
    assert forall|k: Option<K>, t: i64| #[trigger]
        inserted(before.left_items(), after.left_items(), (k, t, 1i64)) implies all_ones(after.left_items()) by {
        lemma_ones_grow(before.left_items(), after.left_items(), (k, t, 1i64));
    }
    assert forall|k: Option<K>, t: i64| #[trigger]
        inserted(before.right_items(), after.right_items(), (k, t, 1i64)) implies all_ones(after.right_items()) by {
        lemma_ones_grow(before.right_items(), after.right_items(), (k, t, 1i64));
    }
    assert forall|k: Option<K>, t: i64| #[trigger]
        inserted(after.left_items(), before.left_items(), (k, t, 1i64)) implies all_ones(after.left_items()) by {
        lemma_ones_shrink(after.left_items(), before.left_items(), (k, t, 1i64));
    }
    assert forall|k: Option<K>, t: i64| #[trigger]
        inserted(after.right_items(), before.right_items(), (k, t, 1i64)) implies all_ones(after.right_items()) by {
        lemma_ones_shrink(after.right_items(), before.right_items(), (k, t, 1i64));
    }
}

proof fn lemma_run_keeps_ones<L, R, K, X: JoinKeys<L, R, K>>(
    states: Seq<WindowJoinState<CountSpec<L, R>, K, X>>,
    updates: Seq<JoinUpdate<L, R>>,
    deltas: Seq<i64>,
)
    requires
        runs(states, updates, deltas),
        all_ones(states[0].left_items()),
        all_ones(states[0].right_items()),
    ensures
        all_ones(states.last().left_items()),
        all_ones(states.last().right_items()),
        states.last().same_setup(&states[0]),
    decreases updates.len(),
{
    if updates.len() > 0 {
        let n = updates.len() - 1;
        lemma_fewer(states, updates, deltas);
        lemma_run_keeps_ones(states.drop_last(), updates.drop_last(), deltas.drop_last());
        lemma_performed_keeps_ones(&states[n], &states.last(), updates.last(), deltas.last());
    }
}

/// How many left items a right item at a time matches.
pub open spec fn left_matches<K>(
    left: Seq<(Option<K>, i64, i64)>,
    key: Option<K>,
    timestamp: i64,
    b: IntervalBounds,
) -> nat {
    left.filter(matching(key, timestamp - b.upper, timestamp - b.lower)).len()
}

/// How many right items a left item at a time matches.
pub open spec fn right_matches<K>(
    right: Seq<(Option<K>, i64, i64)>,
    key: Option<K>,
    timestamp: i64,
    b: IntervalBounds,
) -> nat {
    right.filter(matching(key, timestamp + b.lower, timestamp + b.upper)).len()
}

proof fn lemma_right_change_counts<L, R, K, X>(
    state: &WindowJoinState<CountSpec<L, R>, K, X>,
    key: Option<K>,
    timestamp: i64,
)
    requires
        all_ones(state.left_items()),
    ensures
        right_change(state, (key, timestamp, 1i64)) == crop(
            left_matches(state.left_items(), key, timestamp, state.interval()) as int,
        ),
{
    let s = state.ring();
    let b = state.interval();
    let r = (key, timestamp, 1i64);
    let p = matching::<K, i64>(key, timestamp - b.upper, timestamp - b.lower);
    let f = |l: (Option<K>, i64, i64)| s.spec_multiply_left(l.2, 1);
    let left = state.left_items();
    law_count_is_ring(&s);
    lemma_total_filter(s.spec_zero(), value_plus(&s), left, p, f, column_entry(&s, r, b));
    let ones = left.filter(p).map_values(f);
    assert forall|i: int| 0 <= i < ones.len() implies #[trigger] ones[i] == 1 by {
        crate::listing::lemma_filter_member(left, p, i);
        assert(left.filter(p)[i].2 == 1);
        lemma_one_times_one();
    }
    lemma_sum_of_ones(&s, ones);
}

proof fn lemma_left_change_counts<L, R, K, X>(
    state: &WindowJoinState<CountSpec<L, R>, K, X>,
    key: Option<K>,
    timestamp: i64,
)
    requires
        all_ones(state.right_items()),
    ensures
        left_change(state, (key, timestamp, 1i64)) == crop(
            right_matches(state.right_items(), key, timestamp, state.interval()) as int,
        ),
{
    let s = state.ring();
    let b = state.interval();
    let p = matching::<K, i64>(key, timestamp + b.lower, timestamp + b.upper);
    let right = state.right_items();
    let ones = right.filter(p).map_values(item_payload()).map_values(times_right(&s, 1));
    assert forall|i: int| 0 <= i < ones.len() implies #[trigger] ones[i] == 1 by {
        crate::listing::lemma_filter_member(right, p, i);
        assert(right.filter(p)[i].2 == 1);
        lemma_one_times_one();
    }
    lemma_sum_of_ones(&s, ones);
    assert(partners::<K, i64, i64>((key, timestamp, 1i64), b) == p);
}

/// The negation of a count, modulo 2^64.
proof fn lemma_negated(n: int)
    ensures
        0i64.wrapping_sub(crop(n)) == crop(-n),
{
    lemma_sub_is_crop(0, crop(n));
    lemma_crop_congruent(n);
    let m = modulus();
    vstd::arithmetic::div_mod::lemma_sub_mod_noop(0, crop(n) as int, m);
    vstd::arithmetic::div_mod::lemma_sub_mod_noop(0, n, m);
    lemma_crop_same(0 - crop(n), -n);
}

/// A right element that is inserted into a counting state and, after any other
/// calls, evicted leaves the counts as the other calls alone would have left
/// them. The eviction returns minus the number of left elements held that it
/// matches, modulo 2^64.
pub proof fn law_count_forgets_evicted_right<L, R, K, X: JoinKeys<L, R, K>>(
    start: &WindowJoinState<CountSpec<L, R>, K, X>,
    with: Seq<WindowJoinState<CountSpec<L, R>, K, X>>,
    without: Seq<WindowJoinState<CountSpec<L, R>, K, X>>,
    end: &WindowJoinState<CountSpec<L, R>, K, X>,
    updates: Seq<JoinUpdate<L, R>>,
    with_deltas: Seq<i64>,
    without_deltas: Seq<i64>,
    timestamp: i64,
    elem: R,
    given: i64,
    taken: i64,
)
    requires
        counts_pairs(start),
        one_right_key(start, elem),
        performed(start, &with[0], JoinUpdate::InsertRight { timestamp, element: elem }, given),
        runs(with, updates, with_deltas),
        performed(&with.last(), end, JoinUpdate::EvictRight { timestamp, element: elem }, taken),
        without[0] == *start,
        runs(without, updates, without_deltas),
        fair(without, updates),
    ensures
        end.value() == without.last().value(),
        end.left_items().len() == without.last().left_items().len(),
        end.right_items().len() == without.last().right_items().len(),
        looks_like(end, &without.last()),
        forall|key: Option<K>| #[trigger]
            is_right_key(start, elem, key) ==> taken == crop(
                -(left_matches(with.last().left_items(), key, timestamp, start.interval()) as int),
            ),
{
    law_count_is_ring(&start.ring());
    lemma_count_of_join(&start.ring(), start.left_items(), start.right_items(), start.interval());
    law_insert_right_then_evict_right_leaves_no_trace(
        start,
        with,
        without,
        end,
        updates,
        with_deltas,
        without_deltas,
        timestamp,
        elem,
        given,
        taken,
    );
    lemma_performed_keeps_ones(start, &with[0], JoinUpdate::InsertRight { timestamp, element: elem }, given);
    lemma_run_keeps_ones(with, updates, with_deltas);
    assert forall|key: Option<K>| #[trigger] is_right_key(start, elem, key) implies taken == crop(
        -(left_matches(with.last().left_items(), key, timestamp, start.interval()) as int),
    ) by {
        lemma_right_change_counts(&with.last(), key, timestamp);
        lemma_negated(left_matches(with.last().left_items(), key, timestamp, start.interval()) as int);
    }
}

/// A left element that is inserted into a counting state and, after any other
/// calls, evicted leaves the counts as the other calls alone would have left
/// them. The eviction returns minus the number of right elements held that it
/// matches, modulo 2^64.
pub proof fn law_count_forgets_evicted_left<L, R, K, X: JoinKeys<L, R, K>>(
    start: &WindowJoinState<CountSpec<L, R>, K, X>,
    with: Seq<WindowJoinState<CountSpec<L, R>, K, X>>,
    without: Seq<WindowJoinState<CountSpec<L, R>, K, X>>,
    end: &WindowJoinState<CountSpec<L, R>, K, X>,
    updates: Seq<JoinUpdate<L, R>>,
    with_deltas: Seq<i64>,
    without_deltas: Seq<i64>,
    timestamp: i64,
    elem: L,
    given: i64,
    taken: i64,
)
    requires
        counts_pairs(start),
        one_left_key(start, elem),
        performed(start, &with[0], JoinUpdate::InsertLeft { timestamp, element: elem }, given),
        runs(with, updates, with_deltas),
        performed(&with.last(), end, JoinUpdate::EvictLeft { timestamp, element: elem }, taken),
        without[0] == *start,
        runs(without, updates, without_deltas),
        fair(without, updates),
    ensures
        end.value() == without.last().value(),
        end.left_items().len() == without.last().left_items().len(),
        end.right_items().len() == without.last().right_items().len(),
        looks_like(end, &without.last()),
        forall|key: Option<K>| #[trigger]
            is_left_key(start, elem, key) ==> taken == crop(
                -(right_matches(with.last().right_items(), key, timestamp, start.interval()) as int),
            ),
{
    law_count_is_ring(&start.ring());
    lemma_count_of_join(&start.ring(), start.left_items(), start.right_items(), start.interval());
    law_insert_left_then_evict_left_leaves_no_trace(
        start,
        with,
        without,
        end,
        updates,
        with_deltas,
        without_deltas,
        timestamp,
        elem,
        given,
        taken,
    );
    lemma_performed_keeps_ones(start, &with[0], JoinUpdate::InsertLeft { timestamp, element: elem }, given);
    lemma_run_keeps_ones(with, updates, with_deltas);
    assert forall|key: Option<K>| #[trigger] is_left_key(start, elem, key) implies taken == crop(
        -(right_matches(with.last().right_items(), key, timestamp, start.interval()) as int),
    ) by {
        lemma_left_change_counts(&with.last(), key, timestamp);
        lemma_negated(right_matches(with.last().right_items(), key, timestamp, start.interval()) as int);
    }
}

/// Update on a binary join's left or right input.
#[derive(Clone, Debug)]
#[allow(inconsistent_fields)]
pub enum JoinUpdate<L, R> {
    /// Insert an element on the left side.
    InsertLeft { timestamp: i64, element: L },
    /// Insert an element on the right side.
    InsertRight { timestamp: i64, element: R },
    /// Evict a previously inserted left element.
    EvictLeft { timestamp: i64, element: L },
    /// Evict a previously inserted right element.
    EvictRight { timestamp: i64, element: R },
}

/// Which input side produced an event.
#[derive(Clone, Copy, Debug, PartialEq, Eq, Hash, Structural)]
#[non_exhaustive]
pub enum Side {
    Left,
    Right,
}

/// One emitted aggregate event: the side that triggered it, the change, and
/// the running aggregate after it.
#[derive(Clone, Debug)]
pub struct JoinAggregateEvent<V> {
    pub side: Side,
    pub timestamp: i64,
    pub delta: V,
    pub aggregate: V,
}

/// An update can be applied: its key is defined, its interval of partners
/// stays in range, and there is room for one more payload.
pub open spec fn applicable<S: JoinAggregateSpec, K, X: JoinKeys<S::L, S::R, K>>(
    state: &WindowJoinState<S, K, X>,
    update: JoinUpdate<S::L, S::R>,
) -> bool {
    let b = state.interval();
    match update {
        JoinUpdate::InsertLeft { timestamp, element } => {
            &&& state.key_mode() ==> state.key_source().left_defined(element)
            &&& i64::MIN <= timestamp + b.lower
            &&& timestamp + b.upper <= i64::MAX
            &&& state.left_items().len() < u64::MAX
        },
        JoinUpdate::InsertRight { timestamp, element } => {
            &&& state.key_mode() ==> state.key_source().right_defined(element)
            &&& i64::MIN <= timestamp - b.upper
            &&& timestamp - b.lower <= i64::MAX
            &&& state.right_items().len() < u64::MAX
        },
        JoinUpdate::EvictLeft { timestamp, element } => {
            &&& state.key_mode() ==> state.key_source().left_defined(element)
            &&& i64::MIN <= timestamp + b.lower
            &&& timestamp + b.upper <= i64::MAX
        },
        JoinUpdate::EvictRight { timestamp, element } => {
            &&& state.key_mode() ==> state.key_source().right_defined(element)
            &&& i64::MIN <= timestamp - b.upper
            &&& timestamp - b.lower <= i64::MAX
        },
    }
}

/// What applying an update does to the state and what event it emits.
pub open spec fn applied<S: JoinAggregateSpec, K, X: JoinKeys<S::L, S::R, K>>(
    before: &WindowJoinState<S, K, X>,
    after: &WindowJoinState<S, K, X>,
    update: JoinUpdate<S::L, S::R>,
    event: JoinAggregateEvent<S::V>,
) -> bool {
    &&& after.same_setup(before)
    &&& cloned(after.value(), event.aggregate)
    &&& match update {
        JoinUpdate::InsertLeft { timestamp, element } => {
            &&& event.side == Side::Left
            &&& event.timestamp == timestamp
            &&& left_inserted(before, after, timestamp, element, event.delta)
        },
        JoinUpdate::InsertRight { timestamp, element } => {
            &&& event.side == Side::Right
            &&& event.timestamp == timestamp
            &&& right_inserted(before, after, timestamp, element, event.delta)
        },
        JoinUpdate::EvictLeft { timestamp, element } => {
            &&& event.side == Side::Left
            &&& event.timestamp == timestamp
            &&& left_evicted(before, after, timestamp, element, event.delta)
        },
        JoinUpdate::EvictRight { timestamp, element } => {
            &&& event.side == Side::Right
            &&& event.timestamp == timestamp
            &&& right_evicted(before, after, timestamp, element, event.delta)
        },
    }
}

/// Every update of the batch can be applied, whatever was applied before it.
pub open spec fn batch_applicable<S: JoinAggregateSpec, K, X: JoinKeys<S::L, S::R, K>>(
    state: &WindowJoinState<S, K, X>,
    updates: Seq<JoinUpdate<S::L, S::R>>,
) -> bool {
    &&& state.left_items().len() + updates.len() <= u64::MAX
    &&& state.right_items().len() + updates.len() <= u64::MAX
    &&& forall|i: int| 0 <= i < updates.len() ==> in_bounds(state, #[trigger] updates[i])
}

/// The part of [`applicable`] that does not depend on what is held.
pub open spec fn in_bounds<S: JoinAggregateSpec, K, X: JoinKeys<S::L, S::R, K>>(
    state: &WindowJoinState<S, K, X>,
    update: JoinUpdate<S::L, S::R>,
) -> bool {
    let b = state.interval();
    match update {
        JoinUpdate::InsertLeft { timestamp, element } | JoinUpdate::EvictLeft { timestamp, element } => {
            &&& state.key_mode() ==> state.key_source().left_defined(element)
            &&& i64::MIN <= timestamp + b.lower
            &&& timestamp + b.upper <= i64::MAX
        },
        JoinUpdate::InsertRight { timestamp, element } | JoinUpdate::EvictRight { timestamp, element } => {
            &&& state.key_mode() ==> state.key_source().right_defined(element)
            &&& i64::MIN <= timestamp - b.upper
            &&& timestamp - b.lower <= i64::MAX
        },
    }
}

/// A run: from state to state by the updates, one event each.
pub open spec fn is_run<S: JoinAggregateSpec, K, X: JoinKeys<S::L, S::R, K>>(
    states: Seq<WindowJoinState<S, K, X>>,
    updates: Seq<JoinUpdate<S::L, S::R>>,
    events: Seq<JoinAggregateEvent<S::V>>,
) -> bool {
    &&& states.len() == updates.len() + 1
    &&& events.len() == updates.len()
    &&& forall|i: int|
        0 <= i < updates.len() ==> applied(&states[i], &states[i + 1], #[trigger] updates[i], events[i])
}

/// Runner over a [`WindowJoinState`]: one event per update.
pub struct WindowedJoinAggregator<S: JoinAggregateSpec, K = NoKey, X = NoKeys> {
    state: WindowJoinState<S, K, X>,
}

impl<S: JoinAggregateSpec> WindowedJoinAggregator<S, NoKey, NoKeys> {
    /// Builds a cross-product aggregator.
    pub fn cross_product(spec: S, bounds: IntervalBounds) -> (r: Self)
        requires
            bounds.lower <= bounds.upper,
        ensures
            r.inner().sound(),
            r.inner().ring() == spec,
            r.inner().interval() == bounds,
            !r.inner().key_mode(),
            r.inner().value() == spec.spec_zero(),
            r.inner().left_items().len() == 0,
            r.inner().right_items().len() == 0,
    {
        WindowedJoinAggregator { state: WindowJoinState::new(spec, bounds) }
    }
}

impl<S: JoinAggregateSpec, K, FL: Fn(&S::L) -> K, FR: Fn(&S::R) -> K> WindowedJoinAggregator<
    S,
    K,
    KeyPair<FL, FR>,
> {
    /// Builds an equi-join aggregator.
    pub fn from_keyed(spec: S, bounds: IntervalBounds, left_extractor: FL, right_extractor: FR) -> (r: Self)
        requires
            bounds.lower <= bounds.upper,
        ensures
            r.inner().sound(),
            r.inner().ring() == spec,
            r.inner().key_source() == (KeyPair { left: left_extractor, right: right_extractor }),
            r.inner().interval() == bounds,
            r.inner().key_mode(),
            r.inner().value() == spec.spec_zero(),
            r.inner().left_items().len() == 0,
            r.inner().right_items().len() == 0,
    {
        WindowedJoinAggregator {
            state: WindowJoinState::with_keys(spec, bounds, left_extractor, right_extractor),
        }
    }
}

impl<S: JoinAggregateSpec, K, X> WindowedJoinAggregator<S, K, X> {
    pub closed spec fn inner(&self) -> WindowJoinState<S, K, X> {
        self.state
    }

    /// Borrowed access to the join state.
    pub fn state(&self) -> (r: &WindowJoinState<S, K, X>)
        ensures
            *r == self.inner(),
    {
        &self.state
    }

    /// Current running aggregate.
    pub fn aggregate(&self) -> (r: S::V)
        ensures
            cloned(self.inner().value(), r),
    {
        self.state.aggregate()
    }
}

impl<S: JoinAggregateSpec, K: Eq + Clone, X: JoinKeys<S::L, S::R, K>> WindowedJoinAggregator<S, K, X> {
    /// Applies one update and emits its event.
    pub fn apply(&mut self, update: JoinUpdate<S::L, S::R>) -> (event: JoinAggregateEvent<S::V>)
        requires
            lawful::<K>(),
            lawful::<S::PL>(),
            lawful::<S::PR>(),
            old(self).inner().sound(),
            applicable(&old(self).inner(), update),
        ensures
            final(self).inner().sound(),
            applied(&old(self).inner(), &final(self).inner(), update, event),
    {
        match update {
            JoinUpdate::InsertLeft { timestamp, element } => {
                let delta = self.state.insert_left(timestamp, element);
                JoinAggregateEvent { side: Side::Left, timestamp, delta, aggregate: self.state.aggregate() }
            },
            JoinUpdate::InsertRight { timestamp, element } => {
                let delta = self.state.insert_right(timestamp, element);
                JoinAggregateEvent { side: Side::Right, timestamp, delta, aggregate: self.state.aggregate() }
            },
            JoinUpdate::EvictLeft { timestamp, element } => {
                let delta = self.state.evict_left(timestamp, element);
                JoinAggregateEvent { side: Side::Left, timestamp, delta, aggregate: self.state.aggregate() }
            },
            JoinUpdate::EvictRight { timestamp, element } => {
                let delta = self.state.evict_right(timestamp, element);
                JoinAggregateEvent { side: Side::Right, timestamp, delta, aggregate: self.state.aggregate() }
            },
        }
    }

    /// Applies the updates in order and emits one event for each.
    pub fn process(self, updates: Vec<JoinUpdate<S::L, S::R>>) -> (events: Vec<JoinAggregateEvent<S::V>>)
        requires
            lawful::<K>(),
            lawful::<S::PL>(),
            lawful::<S::PR>(),
            self.inner().sound(),
            batch_applicable(&self.inner(), updates@),
        ensures
            exists|states: Seq<WindowJoinState<S, K, X>>|
                states.len() > 0 && states[0] == self.inner() && #[trigger] is_run(states, updates@, events@),
    {
        let mut me = self;
        let mut events: Vec<JoinAggregateEvent<S::V>> = Vec::new();
        let ghost all = updates@;
        let ghost mut states = seq![me.state];
        for update in iter: updates
            invariant
                lawful::<K>(),
                lawful::<S::PL>(),
                lawful::<S::PR>(),
                iter.seq() == all,
                batch_applicable(&self.inner(), all),
                me.state.sound(),
                states.len() == iter.index() + 1,
                states[0] == self.inner(),
                states.last() == me.state,
                me.state.same_setup(&self.inner()),
                me.state.left_items().len() <= self.inner().left_items().len() + iter.index(),
                me.state.right_items().len() <= self.inner().right_items().len() + iter.index(),
                is_run(states, all.take(iter.index()), events@),
        {
            let ghost i = iter.index();
            assert(update == all[i]);
            assert(in_bounds(&self.inner(), all[i]));
            let ghost prior = me.state;
            let event = me.apply(update);
            let ghost before_events = events@;
            events.push(event);
            proof {
                let run = states;
                states = states.push(me.state);
                let done = all.take(i + 1);
                assert forall|j: int| 0 <= j < done.len() implies applied(
                    &states[j],
                    &states[j + 1],
                    #[trigger] done[j],
                    events@[j],
                ) by {
                    if j < i {
                        assert(all.take(i)[j] == done[j]);
                        assert(states[j] == run[j]);
                        assert(states[j + 1] == run[j + 1]);
                        assert(events@[j] == before_events[j]);
                    }
                }
                lemma_applied_len(&prior, &me.state, update, event);
            }
        }
        assert(all.take(all.len() as int) =~= all);
        assert(is_run(states, all, events@));
        events
    }
}

/// An update adds at most one payload to a side.
proof fn lemma_applied_len<S: JoinAggregateSpec, K, X: JoinKeys<S::L, S::R, K>>(
    before: &WindowJoinState<S, K, X>,
    after: &WindowJoinState<S, K, X>,
    update: JoinUpdate<S::L, S::R>,
    event: JoinAggregateEvent<S::V>,
)
    requires
        applied(before, after, update, event),
    ensures
        after.left_items().len() <= before.left_items().len() + 1,
        after.right_items().len() <= before.right_items().len() + 1,
{
}

} // verus!
