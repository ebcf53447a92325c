//! Batch recomputation of a join aggregate, in parallel where it pays.
use vstd::prelude::*;

use crate::algebra::{lemma_total_append, monoid, total};
use crate::listing::{concat, lawful, lemma_filter_all_or_none, repeated};
use crate::operator::swag_join_laws::lemma_join_total_reorder;
use crate::operator::swag_join_state::{
    aggregate_right, consistent, is_ring, item_payload, join_total, left_delta, lemma_left_delta_row,
    lemma_matched_unkeyed, matched, partners, row, times_right, unkeyed_item, value_plus, IntervalBounds, JoinAggregateSpec, NoKey, WindowJoinState,
};
use crate::operator::time_index::{entry_items, in_range, TimeIndex, TimeIndexEntry};
use crate::par::par_map;

verus! {

/// From how many distinct left entries on the work is done in parallel.
pub const DEFAULT_PARALLEL_THRESHOLD: usize = 1000;

/// Recomputes a join aggregate from two time indexes.
pub struct ParallelJoinAggregator<S> {
    spec: S,
    parallel_threshold: usize,
}

/// An indexed pair as a join item.
pub open spec fn joinable<P>(items: Seq<(i64, P)>) -> Seq<(Option<NoKey>, i64, P)> {
    items.map_values(unkeyed_item::<NoKey, P>())
}

/// The partners of a timestamp lie within the range of timestamps.
pub open spec fn window_fits(b: IntervalBounds, t: i64) -> bool {
    i64::MIN <= t + b.lower <= i64::MAX && i64::MIN <= t + b.upper <= i64::MAX
}

impl<S> ParallelJoinAggregator<S> {
    pub closed spec fn ring(&self) -> S {
        self.spec
    }

    pub closed spec fn threshold(&self) -> usize {
        self.parallel_threshold
    }

    pub fn new(spec: S) -> (r: Self)
        ensures
            r.ring() == spec,
            r.threshold() == DEFAULT_PARALLEL_THRESHOLD,
    {
        Self::with_threshold(spec, DEFAULT_PARALLEL_THRESHOLD)
    }

    /// A threshold of 0 is taken as 1.
    pub fn with_threshold(spec: S, parallel_threshold: usize) -> (r: Self)
        ensures
            r.ring() == spec,
            r.threshold() == if parallel_threshold == 0 { 1 } else { parallel_threshold },
    {
        ParallelJoinAggregator { spec, parallel_threshold: if parallel_threshold < 1 { 1 } else { parallel_threshold } }
    }

    pub fn spec(&self) -> (r: &S)
        ensures
            *r == self.ring(),
    {
        &self.spec
    }

    pub fn parallel_threshold(&self) -> (r: usize)
        ensures
            r == self.threshold(),
    {
        self.parallel_threshold
    }
}

/// The items of an entry, each with its row.
spec fn entry_rows<S: JoinAggregateSpec>(
    s: &S,
    right: Seq<(i64, S::PR)>,
    b: IntervalBounds,
) -> spec_fn(TimeIndexEntry<S::PL>) -> Seq<S::V> {
    |e: TimeIndexEntry<S::PL>| repeated(row(s, joinable(right), b)((None::<NoKey>, e.timestamp, e.payload)), e.count as nat)
}

/// What an entry contributes.
spec fn entry_value<S: JoinAggregateSpec>(
    s: &S,
    right: Seq<(i64, S::PR)>,
    b: IntervalBounds,
    e: TimeIndexEntry<S::PL>,
) -> S::V {
    total(s.spec_zero(), value_plus(s), entry_rows(s, right, b)(e))
}

/// Summing entry by entry sums all rows.
proof fn lemma_entries_total<S: JoinAggregateSpec>(
    s: &S,
    right: Seq<(i64, S::PR)>,
    b: IntervalBounds,
    entries: Seq<TimeIndexEntry<S::PL>>,
    values: Seq<S::V>,
)
    requires
        is_ring(s),
        values.len() == entries.len(),
        forall|i: int| 0 <= i < entries.len() ==> #[trigger] values[i] == entry_value(s, right, b, entries[i]),
    ensures
        total(s.spec_zero(), value_plus(s), values) == join_total(
            s,
            joinable(concat(entries, entry_items())),
            joinable(right),
            b,
        ),
    decreases entries.len(),
{
    let zero = s.spec_zero();
    let plus = value_plus(s);
    let f = row::<S, NoKey>(s, joinable(right), b);
    if entries.len() == 0 {
        assert(joinable(concat(entries, entry_items())).map_values(f) =~= Seq::empty());
    } else {
        let rest = entries.drop_last();
        let e = entries.last();
        let short = values.drop_last();
        assert forall|i: int| 0 <= i < rest.len() implies #[trigger] short[i] == entry_value(s, right, b, rest[i]) by {
            assert(values[i] == entry_value(s, right, b, entries[i]));
        }
        lemma_entries_total(s, right, b, rest, short);
        let head = joinable(concat(rest, entry_items())).map_values(f);
        let tail = entry_rows(s, right, b)(e);
        assert(joinable(concat(entries, entry_items())).map_values(f) =~= head + tail);
        lemma_total_append(zero, plus, head, tail);
        assert(values[values.len() - 1] == entry_value(s, right, b, entries[entries.len() - 1]));
    }
}

/// With an empty side there are no pairs.
proof fn lemma_empty_side<S: JoinAggregateSpec>(
    s: &S,
    left: Seq<(i64, S::PL)>,
    right: Seq<(i64, S::PR)>,
    b: IntervalBounds,
)
    requires
        monoid(s.spec_zero(), value_plus(s)),
        left.len() == 0 || right.len() == 0,
    ensures
        join_total(s, joinable(left), joinable(right), b) == s.spec_zero(),
    decreases left.len(),
{
    let f = row::<S, NoKey>(s, joinable(right), b);
    let rows = joinable(left).map_values(f);
    if left.len() > 0 {
        let rest = left.drop_last();
        lemma_empty_side(s, rest, right, b);
        assert(rows.drop_last() =~= joinable(rest).map_values(f));
        let l = joinable(left).last();
        lemma_filter_all_or_none(joinable(right), partners::<NoKey, S::PL, S::PR>(l, b));
        assert(joinable(right).filter(partners::<NoKey, S::PL, S::PR>(l, b)).map_values(item_payload()).map_values(
            times_right(s, l.2),
        ) =~= Seq::<S::V>::empty());
        assert(f(l) == s.spec_zero());
        assert(value_plus(s)(s.spec_zero(), s.spec_zero()) == s.spec_zero());
    }
}

impl<S: JoinAggregateSpec> ParallelJoinAggregator<S> {
    /// The aggregate over all pairs within the bounds: zero if either side is
    /// empty. In a ring it does not depend on how the work is split.
    pub fn aggregate(&self, left: &TimeIndex<S::PL>, right: &TimeIndex<S::PR>, bounds: IntervalBounds) -> (r: S::V)
        where S: Sync, S::PL: Sync, S::PR: Sync, S::V: Send
        requires
            lawful::<S::PL>(),
            lawful::<S::PR>(),
            is_ring(&self.ring()),
            left.wf(),
            right.wf(),
            right@.len() > 0 ==> forall|i: int|
                0 <= i < left@.len() ==> window_fits(bounds, (#[trigger] left@[i]).0),
        ensures
            r == join_total(&self.ring(), joinable(left@), joinable(right@), bounds),
    {
        if left.is_empty() || right.is_empty() {
            proof {
                lemma_empty_side(&self.ring(), left@, right@, bounds);
            }
            return self.spec.zero();
        }
        let entries = left.query_range_entries(i64::MIN, i64::MAX);
        proof {
            assert(left@.filter(in_range(i64::MIN, i64::MAX)) == left@) by {
                lemma_filter_all_or_none(left@, in_range::<S::PL>(i64::MIN, i64::MAX));
            }
            assert forall|i: int| 0 <= i < entries@.len() implies window_fits(
                bounds,
                (#[trigger] entries@[i]).timestamp,
            ) by {
                lemma_listed(entries@, i);
                let x = (entries@[i].timestamp, entries@[i].payload);
                let k = choose|k: int| 0 <= k < left@.len() && left@[k] == x;
                assert(window_fits(bounds, left@[k].0));
            }
        }
        let sequential = entries.len() < self.parallel_threshold;
        let values = if sequential {
            let mut list: Vec<S::V> = Vec::new();
            let mut i: usize = 0;
            while i < entries.len()
                invariant
                    lawful::<S::PR>(),
                    is_ring(&self.ring()),
                    right.wf(),
                    forall|i: int|
                        0 <= i < entries@.len() ==> window_fits(bounds, (#[trigger] entries@[i]).timestamp),
                    i <= entries@.len(),
                    list@.len() == i,
                    forall|j: int|
                        0 <= j < i ==> #[trigger] list@[j] == entry_value(&self.ring(), right@, bounds, entries@[j]),
                decreases entries@.len() - i,
            {
                list.push(self.lift_entry(right, &entries[i], bounds));
                i += 1;
            }
            list
        } else {
            let lift = |entry: &TimeIndexEntry<S::PL>| -> (v: S::V)
                requires
                    window_fits(bounds, entry.timestamp),
                ensures
                    v == entry_value(&self.ring(), right@, bounds, *entry),
                { self.lift_entry(right, entry, bounds) };
            par_map(&entries, lift)
        };
        proof {
            lemma_entries_total(&self.ring(), right@, bounds, entries@, values@);
        }
        let mut acc = self.spec.zero();
        let mut i: usize = 0;
        assert(values@.take(0) =~= Seq::empty());
        while i < values.len()
            invariant
                i <= values@.len(),
                acc == total(self.spec.spec_zero(), value_plus(&self.spec), values@.take(i as int)),
            decreases values@.len() - i,
        {
            proof {
                assert(values@.take(i + 1).drop_last() =~= values@.take(i as int));
            }
            acc = self.spec.add(&acc, &values[i]);
            i += 1;
        }
        assert(values@.take(i as int) =~= values@);
        acc
    }

    /// What one left entry contributes: its payload times the sum of the right
    /// payloads in its window, as often as the entry counts.
    fn lift_entry(&self, right: &TimeIndex<S::PR>, entry: &TimeIndexEntry<S::PL>, bounds: IntervalBounds) -> (r: S::V)
        requires
            lawful::<S::PR>(),
            is_ring(&self.ring()),
            right.wf(),
            window_fits(bounds, entry.timestamp),
        ensures
            r == entry_value(&self.ring(), right@, bounds, *entry),
    {
        let start: i64 = entry.timestamp + bounds.lower;
        let end: i64 = entry.timestamp + bounds.upper;
        let range = right.query_range(start, end);
        let sum = aggregate_right(&self.spec, &range);
        let single = self.spec.multiply_left(&entry.payload, &sum);
        proof {
            lemma_matched_unkeyed::<NoKey, S::PR>(right@, start, end);
            let found = matched(joinable(right@), None::<NoKey>, start as int, end as int);
            assert(range.payload_counts.items().to_multiset() == found.to_multiset());
            assert(left_delta(&self.spec, entry.payload, found, single));
            lemma_left_delta_row(
                &self.spec,
                (None::<NoKey>, entry.timestamp, entry.payload),
                joinable(right@),
                bounds,
                single,
            );
        }
        let mut acc = self.spec.zero();
        let mut j: u64 = 0;
        assert(repeated(single, 0) =~= Seq::empty());
        while j < entry.count
            invariant
                j <= entry.count,
                acc == total(self.spec.spec_zero(), value_plus(&self.spec), repeated(single, j as nat)),
            decreases entry.count - j,
        {
            proof {
                let more = repeated(single, (j + 1) as nat);
                assert(more.drop_last() =~= repeated(single, j as nat));
                assert(more.last() == single);
            }
            acc = self.spec.add(&acc, &single);
            j += 1;
        }
        acc
    }
}

/// What an entry lists is in the listing of all entries.
proof fn lemma_listed<T>(entries: Seq<TimeIndexEntry<T>>, i: int)
    requires
        0 <= i < entries.len(),
        entries[i].count > 0,
    ensures
        concat(entries, entry_items()).contains((entries[i].timestamp, entries[i].payload)),
{
    let x = (entries[i].timestamp, entries[i].payload);
    crate::listing::lemma_concat_contains(entries, entry_items(), x);
    assert(entry_items::<T>()(entries[i])[0] == x);
    assert(entry_items::<T>()(entries[i]).contains(x));
}

/// The batch result is the incrementally maintained one: over time indexes that
/// hold the payloads of a state in cross-product mode whose aggregate is that of
/// its join, the aggregate within the state's bounds is the state's.
pub proof fn law_batch_agrees_with_incremental<S: JoinAggregateSpec, X>(
    state: &WindowJoinState<S, NoKey, X>,
    left: &TimeIndex<S::PL>,
    right: &TimeIndex<S::PR>,
)
    requires
        is_ring(&state.ring()),
        consistent(state),
        left@.map_values(unkeyed_item::<NoKey, S::PL>()).to_multiset() == state.left_items().to_multiset(),
        right@.map_values(unkeyed_item::<NoKey, S::PR>()).to_multiset() == state.right_items().to_multiset(),
    ensures
        join_total(&state.ring(), joinable(left@), joinable(right@), state.interval()) == state.value(),
{
    lemma_join_total_reorder(
        &state.ring(),
        joinable(left@),
        joinable(right@),
        state.left_items(),
        state.right_items(),
        state.interval(),
    );
}

} // verus!
