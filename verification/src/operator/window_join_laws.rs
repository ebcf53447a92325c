//! What a windowed join does over time.
use vstd::prelude::*;

use crate::operator::join::{
    answers_at, between, came_left, came_right, in_time_order, joined_left, joined_right, left_answers,
    lemma_filter_count, lemma_not_paired, lemma_paired_count, lemma_placed_count, none_late, not_before, placed,
    right_answers, watermarks_up_to, with_left, with_right, IntervalEvent, JoinFunction, JoinResult,
    WindowedJoinState,
};

verus! {

/// An element of the other side is a partner of an element at a time exactly
/// when it came at most a window before it and not after it, as often as it is
/// there, and partners keep the order of the buffer.
pub proof fn law_window_partners<A>(buffer: Seq<(i64, A)>, window: i64, timestamp: i64, x: (i64, A))
    ensures
        WindowedJoinState::<A, A>::partners(buffer, window, timestamp) == buffer.filter(
            |e: (i64, A)| timestamp - window <= e.0 && e.0 <= timestamp,
        ),
        WindowedJoinState::<A, A>::partners(buffer, window, timestamp).to_multiset().count(x) == if timestamp - window
            <= x.0 && x.0 <= timestamp {
            buffer.to_multiset().count(x)
        } else {
            0
        },
{
    let p = |e: (i64, A)| timestamp - window <= e.0 && e.0 <= timestamp;
    assert(p =~= between::<A>(timestamp - window, timestamp as int));
    lemma_filter_count(buffer, p, x);
}

/// A buffer takes one more element and keeps the others in their order: it
/// stands after all that are not later and before all that are.
pub proof fn law_placed_in_time<A>(buffer: Seq<(i64, A)>, timestamp: i64, element: A) -> (at: int)
    requires
        in_time_order(buffer),
    ensures
        0 <= at <= buffer.len(),
        placed(buffer, timestamp, element) == buffer.insert(at, (timestamp, element)),
        forall|i: int| 0 <= i < at ==> (#[trigger] buffer[i]).0 <= timestamp,
        forall|i: int| at <= i < buffer.len() ==> timestamp < (#[trigger] buffer[i]).0,
    decreases buffer.len(),
{
    if buffer.len() > 0 && buffer.last().0 > timestamp {
        let front = buffer.drop_last();
        let at = law_placed_in_time(front, timestamp, element);
        assert(front.insert(at, (timestamp, element)).push(buffer.last()) =~= buffer.insert(at, (timestamp, element)));
        assert forall|i: int| at <= i < buffer.len() implies timestamp < (#[trigger] buffer[i]).0 by {
            if i < front.len() {
                assert(timestamp < front[i].0);
            }
        }
        assert forall|i: int| 0 <= i < at implies (#[trigger] buffer[i]).0 <= timestamp by {
            assert(front[i].0 <= timestamp);
        }
        at
    } else {
        assert(buffer.push((timestamp, element)) =~= buffer.insert(buffer.len() as int, (timestamp, element)));
        assert forall|i: int| 0 <= i < buffer.len() implies (#[trigger] buffer[i]).0 <= timestamp by {
            if i < buffer.len() - 1 {
                assert(buffer[i].0 <= buffer[buffer.len() - 1].0);
            }
        }
        buffer.len() as int
    }
}

/// A cutoff keeps exactly what is not before it, as often as it is there.
pub proof fn law_cutoff_keeps_the_rest<A>(buffer: Seq<(i64, A)>, cutoff: int, x: (i64, A))
    ensures
        buffer.filter(not_before(cutoff)).to_multiset().count(x) == if cutoff <= x.0 {
            buffer.to_multiset().count(x)
        } else {
            0
        },
{
    lemma_filter_count(buffer, not_before(cutoff), x);
}

proof fn lemma_answers_kept<A, Out>(s: Seq<A>, g: spec_fn(A) -> Option<Out>, timestamp: i64)
    ensures
        answers_at(s.map_values(g), timestamp) == s.filter(|a: A| g(a) is Some).map_values(
            |a: A| JoinResult { value: g(a)->0, timestamp },
        ),
    decreases s.len(),
{
    reveal(Seq::filter);
    let answered = |a: A| g(a) is Some;
    let given = |a: A| JoinResult { value: g(a)->0, timestamp };
    if s.len() == 0 {
        assert(s.filter(answered).map_values(given) =~= Seq::<JoinResult<Out>>::empty());
    } else {
        let front = s.drop_last();
        lemma_answers_kept(front, g, timestamp);
        assert(s.map_values(g).drop_last() =~= front.map_values(g));
        if answered(s.last()) {
            assert(front.filter(answered).push(s.last()).map_values(given) =~= front.filter(answered).map_values(
                given,
            ).push(given(s.last())));
        }
    }
}

proof fn lemma_filter_twice<A>(s: Seq<A>, p: spec_fn(A) -> bool, q: spec_fn(A) -> bool)
    ensures
        s.filter(p).filter(q) == s.filter(|a: A| p(a) && q(a)),
    decreases s.len(),
{
    reveal(Seq::filter);
    if s.len() > 0 {
        let front = s.drop_last();
        lemma_filter_twice(front, p, q);
        if p(s.last()) {
            assert(front.filter(p).push(s.last()).drop_last() =~= front.filter(p));
        }
    }
}

/// With a join function whose answer depends on the two elements alone, the
/// results of a left element are its answers for the right elements of the
/// window, where there are any, in the order of the buffer, each with the time
/// of the element.
pub proof fn law_window_results_of_left<L, R, Out, F: JoinFunction<L, R, Out>>(
    f: F,
    g: spec_fn(L, R) -> Option<Out>,
    left: L,
    timestamp: i64,
    window: i64,
    right: Seq<(i64, R)>,
    results: Seq<JoinResult<Out>>,
)
    requires
        forall|l: L, r: R, out: Option<Out>| #[trigger] f.gives(l, r, out) ==> out == g(l, r),
        joined_left(f, left, timestamp, WindowedJoinState::<L, R>::partners(right, window, timestamp), results),
    ensures
        results == right.filter(
            |e: (i64, R)| timestamp - window <= e.0 && e.0 <= timestamp && g(left, e.1) is Some,
        ).map_values(|e: (i64, R)| JoinResult { value: g(left, e.1)->0, timestamp }),
{
    let partners = WindowedJoinState::<L, R>::partners(right, window, timestamp);
    let answers = choose|answers: Seq<Option<Out>>| #[trigger]
        left_answers(f, left, partners, answers) && results == answers_at(answers, timestamp);
    let h = |e: (i64, R)| g(left, e.1);
    assert(answers =~= partners.map_values(h)) by {
        assert forall|i: int| 0 <= i < answers.len() implies answers[i] == partners.map_values(h)[i] by {
            assert(f.gives(left, partners[i].1, answers[i]));
        }
    }
    lemma_answers_kept(partners, h, timestamp);
    let near = between::<R>(timestamp - window, timestamp as int);
    let some = |e: (i64, R)| h(e) is Some;
    lemma_filter_twice(right, near, some);
    assert((|e: (i64, R)| near(e) && some(e)) =~= (|e: (i64, R)|
        timestamp - window <= e.0 && e.0 <= timestamp && g(left, e.1) is Some));
    assert((|e: (i64, R)| JoinResult { value: h(e)->0, timestamp }) =~= (|e: (i64, R)|
        JoinResult { value: g(left, e.1)->0, timestamp }));
}

/// As [`law_window_results_of_left`], for a right element and the left elements
/// of the window.
pub proof fn law_window_results_of_right<L, R, Out, F: JoinFunction<L, R, Out>>(
    f: F,
    g: spec_fn(L, R) -> Option<Out>,
    right: R,
    timestamp: i64,
    window: i64,
    left: Seq<(i64, L)>,
    results: Seq<JoinResult<Out>>,
)
    requires
        forall|l: L, r: R, out: Option<Out>| #[trigger] f.gives(l, r, out) ==> out == g(l, r),
        joined_right(f, right, timestamp, WindowedJoinState::<L, R>::partners(left, window, timestamp), results),
    ensures
        results == left.filter(
            |e: (i64, L)| timestamp - window <= e.0 && e.0 <= timestamp && g(e.1, right) is Some,
        ).map_values(|e: (i64, L)| JoinResult { value: g(e.1, right)->0, timestamp }),
{
    let partners = WindowedJoinState::<L, R>::partners(left, window, timestamp);
    let answers = choose|answers: Seq<Option<Out>>| #[trigger]
        right_answers(f, right, partners, answers) && results == answers_at(answers, timestamp);
    let h = |e: (i64, L)| g(e.1, right);
    assert(answers =~= partners.map_values(h)) by {
        assert forall|i: int| 0 <= i < answers.len() implies answers[i] == partners.map_values(h)[i] by {
            assert(f.gives(partners[i].1, right, answers[i]));
        }
    }
    lemma_answers_kept(partners, h, timestamp);
    let near = between::<L>(timestamp - window, timestamp as int);
    let some = |e: (i64, L)| h(e) is Some;
    lemma_filter_twice(left, near, some);
    assert((|e: (i64, L)| near(e) && some(e)) =~= (|e: (i64, L)|
        timestamp - window <= e.0 && e.0 <= timestamp && g(e.1, right) is Some));
    assert((|e: (i64, L)| JoinResult { value: h(e)->0, timestamp }) =~= (|e: (i64, L)|
        JoinResult { value: g(e.1, right)->0, timestamp }));
}

/// With a join function whose answer depends on the two elements alone, the
/// results of a left element are its answers for the right elements from `lower`
/// to `upper` after it, where there are any, in the order of the buffer.
pub proof fn law_interval_results_of_left<L, R, Out, F: JoinFunction<L, R, Out>>(
    f: F,
    g: spec_fn(L, R) -> Option<Out>,
    left: L,
    timestamp: i64,
    lower: i64,
    upper: i64,
    right: Seq<(i64, R)>,
    results: Seq<JoinResult<Out>>,
)
    requires
        forall|l: L, r: R, out: Option<Out>| #[trigger] f.gives(l, r, out) ==> out == g(l, r),
        joined_left(
            f,
            left,
            timestamp,
            crate::operator::join::IntervalJoinState::<L, R>::right_partners(right, lower, upper, timestamp),
            results,
        ),
    ensures
        results == right.filter(
            |e: (i64, R)| timestamp + lower <= e.0 && e.0 <= timestamp + upper && g(left, e.1) is Some,
        ).map_values(|e: (i64, R)| JoinResult { value: g(left, e.1)->0, timestamp }),
{
    let partners = crate::operator::join::IntervalJoinState::<L, R>::right_partners(right, lower, upper, timestamp);
    let answers = choose|answers: Seq<Option<Out>>| #[trigger]
        left_answers(f, left, partners, answers) && results == answers_at(answers, timestamp);
    let h = |e: (i64, R)| g(left, e.1);
    assert(answers =~= partners.map_values(h)) by {
        assert forall|i: int| 0 <= i < answers.len() implies answers[i] == partners.map_values(h)[i] by {
            assert(f.gives(left, partners[i].1, answers[i]));
        }
    }
    lemma_answers_kept(partners, h, timestamp);
    let near = between::<R>(timestamp + lower, timestamp + upper);
    let some = |e: (i64, R)| h(e) is Some;
    lemma_filter_twice(right, near, some);
    assert((|e: (i64, R)| near(e) && some(e)) =~= (|e: (i64, R)|
        timestamp + lower <= e.0 && e.0 <= timestamp + upper && g(left, e.1) is Some));
    assert((|e: (i64, R)| JoinResult { value: h(e)->0, timestamp }) =~= (|e: (i64, R)|
        JoinResult { value: g(left, e.1)->0, timestamp }));
}

/// As [`law_interval_results_of_left`], for a right element: the left elements
/// that it lies from `lower` to `upper` after.
pub proof fn law_interval_results_of_right<L, R, Out, F: JoinFunction<L, R, Out>>(
    f: F,
    g: spec_fn(L, R) -> Option<Out>,
    right: R,
    timestamp: i64,
    lower: i64,
    upper: i64,
    left: Seq<(i64, L)>,
    results: Seq<JoinResult<Out>>,
)
    requires
        forall|l: L, r: R, out: Option<Out>| #[trigger] f.gives(l, r, out) ==> out == g(l, r),
        joined_right(
            f,
            right,
            timestamp,
            crate::operator::join::IntervalJoinState::<L, R>::left_partners(left, lower, upper, timestamp),
            results,
        ),
    ensures
        results == left.filter(
            |e: (i64, L)| e.0 + lower <= timestamp && timestamp <= e.0 + upper && g(e.1, right) is Some,
        ).map_values(|e: (i64, L)| JoinResult { value: g(e.1, right)->0, timestamp }),
{
    let partners = crate::operator::join::IntervalJoinState::<L, R>::left_partners(left, lower, upper, timestamp);
    let answers = choose|answers: Seq<Option<Out>>| #[trigger]
        right_answers(f, right, partners, answers) && results == answers_at(answers, timestamp);
    let h = |e: (i64, L)| g(e.1, right);
    assert(answers =~= partners.map_values(h)) by {
        assert forall|i: int| 0 <= i < answers.len() implies answers[i] == partners.map_values(h)[i] by {
            assert(f.gives(partners[i].1, right, answers[i]));
        }
    }
    lemma_answers_kept(partners, h, timestamp);
    let near = between::<L>(timestamp - upper, timestamp - lower);
    let some = |e: (i64, L)| h(e) is Some;
    lemma_filter_twice(left, near, some);
    assert((|e: (i64, L)| near(e) && some(e)) =~= (|e: (i64, L)|
        e.0 + lower <= timestamp && timestamp <= e.0 + upper && g(e.1, right) is Some));
    assert((|e: (i64, L)| JoinResult { value: h(e)->0, timestamp }) =~= (|e: (i64, L)|
        JoinResult { value: g(e.1, right)->0, timestamp }));
}

/// The left elements that a windowed join holds after events: what each call of
/// [`WindowedJoinState`] makes of its left buffer.
pub open spec fn window_left<L, R>(events: Seq<IntervalEvent<L, R>>, window: i64) -> Seq<(i64, L)>
    decreases events.len(),
{
    if events.len() == 0 {
        Seq::empty()
    } else {
        let before = window_left(events.drop_last(), window);
        match events.last() {
            IntervalEvent::Left(t, l) => placed(before, t, l),
            IntervalEvent::Right(t, r) => before,
            IntervalEvent::Watermark(w) => before.filter(not_before(w - window)),
        }
    }
}

/// The right elements that a windowed join holds after events.
pub open spec fn window_right<L, R>(events: Seq<IntervalEvent<L, R>>, window: i64) -> Seq<(i64, R)>
    decreases events.len(),
{
    if events.len() == 0 {
        Seq::empty()
    } else {
        let before = window_right(events.drop_last(), window);
        match events.last() {
            IntervalEvent::Left(t, l) => before,
            IntervalEvent::Right(t, r) => placed(before, t, r),
            IntervalEvent::Watermark(w) => before.filter(not_before(w - window)),
        }
    }
}

/// The pairs that the join function is asked about over events: each element
/// that comes, with its partners among what is held.
pub open spec fn window_pairs<L, R>(events: Seq<IntervalEvent<L, R>>, window: i64) -> Seq<((i64, L), (i64, R))>
    decreases events.len(),
{
    if events.len() == 0 {
        Seq::empty()
    } else {
        let earlier = events.drop_last();
        let before = window_pairs(earlier, window);
        match events.last() {
            IntervalEvent::Left(t, l) => before + WindowedJoinState::<L, R>::partners(
                window_right(earlier, window),
                window,
                t,
            ).map_values(with_left((t, l))),
            IntervalEvent::Right(t, r) => before + WindowedJoinState::<L, R>::partners(
                window_left(earlier, window),
                window,
                t,
            ).map_values(with_right((t, r))),
            IntervalEvent::Watermark(w) => before,
        }
    }
}

/// What may still find a partner after the watermarks is held.
proof fn lemma_window_held<L, R>(events: Seq<IntervalEvent<L, R>>, window: i64, l: (i64, L), r: (i64, R))
    ensures
        watermarks_up_to(events, l.0 + window) ==> window_left(events, window).to_multiset().count(l) == came_left(
            events,
        ).to_multiset().count(l),
        watermarks_up_to(events, r.0 + window) ==> window_right(events, window).to_multiset().count(r) == came_right(
            events,
        ).to_multiset().count(r),
    decreases events.len(),
{
    broadcast use vstd::seq_lib::group_to_multiset_ensures;

    if events.len() > 0 {
        let earlier = events.drop_last();
        lemma_window_held(earlier, window, l, r);
        if watermarks_up_to(events, l.0 + window) {
            assert(watermarks_up_to(earlier, l.0 + window));
        }
        if watermarks_up_to(events, r.0 + window) {
            assert(watermarks_up_to(earlier, r.0 + window));
        }
        assert(events[events.len() - 1] == events.last());
        match events.last() {
            IntervalEvent::Left(t, e) => {
                lemma_placed_count(window_left(earlier, window), t, e, l);
            },
            IntervalEvent::Right(t, e) => {
                lemma_placed_count(window_right(earlier, window), t, e, r);
            },
            IntervalEvent::Watermark(w) => {
                lemma_filter_count(window_left(earlier, window), not_before(w - window), l);
                lemma_filter_count(window_right(earlier, window), not_before(w - window), r);
            },
        }
    }
}

/// How often a pair is asked about more, by one more event.
proof fn lemma_window_step<L, R>(events: Seq<IntervalEvent<L, R>>, window: i64, l: (i64, L), r: (i64, R))
    requires
        none_late(events),
        events.len() > 0,
    ensures
        window_pairs(events, window).to_multiset().count((l, r)) == window_pairs(
            events.drop_last(),
            window,
        ).to_multiset().count((l, r)) + match events.last() {
            IntervalEvent::Left(t, e) => if l == (t, e) && l.0 - window <= r.0 && r.0 <= l.0 {
                came_right(events.drop_last()).to_multiset().count(r)
            } else {
                0
            },
            IntervalEvent::Right(t, e) => if r == (t, e) && r.0 - window <= l.0 && l.0 <= r.0 {
                came_left(events.drop_last()).to_multiset().count(l)
            } else {
                0
            },
            IntervalEvent::Watermark(w) => 0,
        },
{
    broadcast use vstd::seq_lib::group_to_multiset_ensures;

    let earlier = events.drop_last();
    let before = window_pairs(earlier, window);
    match events.last() {
        IntervalEvent::Left(t, e) => {
            let held = window_right(earlier, window);
            let p = between::<R>(t - window, t as int);
            let found = held.filter(p);
            let f = with_left::<L, R>((t, e));
            crate::listing::lemma_multiset_add(before, found.map_values(f));
            if l == (t, e) {
                lemma_paired_count(found, f, (l, r), r);
                lemma_filter_count(held, p, r);
                if p(r) {
                    assert(watermarks_up_to(earlier, r.0 + window));
                    lemma_window_held(earlier, window, l, r);
                }
            } else {
                lemma_not_paired(found, f, (l, r));
            }
        },
        IntervalEvent::Right(t, e) => {
            let held = window_left(earlier, window);
            let p = between::<L>(t - window, t as int);
            let found = held.filter(p);
            let f = with_right::<L, R>((t, e));
            crate::listing::lemma_multiset_add(before, found.map_values(f));
            if r == (t, e) {
                lemma_paired_count(found, f, (l, r), l);
                lemma_filter_count(held, p, l);
                if p(l) {
                    assert(watermarks_up_to(earlier, l.0 + window));
                    lemma_window_held(earlier, window, l, r);
                }
            } else {
                lemma_not_paired(found, f, (l, r));
            }
        },
        IntervalEvent::Watermark(w) => {},
    }
}

/// An element that never came was not seen.
proof fn lemma_never_came<L, R>(events: Seq<IntervalEvent<L, R>>, l: (i64, L), r: (i64, R))
    ensures
        (forall|k: int| 0 <= k < events.len() ==> #[trigger] events[k] != IntervalEvent::<L, R>::Left(l.0, l.1))
            ==> came_left(events).to_multiset().count(l) == 0,
        (forall|k: int| 0 <= k < events.len() ==> #[trigger] events[k] != IntervalEvent::<L, R>::Right(r.0, r.1))
            ==> came_right(events).to_multiset().count(r) == 0,
    decreases events.len(),
{
    broadcast use vstd::seq_lib::group_to_multiset_ensures;

    if events.len() == 0 {
        crate::listing::lemma_multiset_empty::<(i64, L)>();
        crate::listing::lemma_multiset_empty::<(i64, R)>();
    } else {
        let earlier = events.drop_last();
        lemma_never_came(earlier, l, r);
        assert(events[events.len() - 1] == events.last());
        assert(forall|k: int| 0 <= k < earlier.len() ==> #[trigger] earlier[k] == events[k]);
    }
}

/// An element that came in one event was seen once.
proof fn lemma_came_once<L, R>(events: Seq<IntervalEvent<L, R>>, l: (i64, L), r: (i64, R), i: int)
    requires
        0 <= i < events.len(),
        forall|k: int| 0 <= k < events.len() && k != i ==> #[trigger] events[k] != events[i],
    ensures
        events[i] == IntervalEvent::<L, R>::Left(l.0, l.1) ==> came_left(events).to_multiset().count(l) == 1,
        events[i] == IntervalEvent::<L, R>::Right(r.0, r.1) ==> came_right(events).to_multiset().count(r) == 1,
    decreases events.len(),
{
    broadcast use vstd::seq_lib::group_to_multiset_ensures;

    let earlier = events.drop_last();
    assert(events[events.len() - 1] == events.last());
    assert(forall|k: int| 0 <= k < earlier.len() ==> #[trigger] earlier[k] == events[k]);
    if i == earlier.len() {
        lemma_never_came(earlier, l, r);
    } else {
        lemma_came_once(earlier, l, r, i);
    }
}

/// Over a run of calls in which no element is late, the join function is asked
/// about a left and a right element that each came once exactly once, if the one
/// that came first lies at most a window before the other and not after it, and
/// else not at all.
pub proof fn law_each_window_pair_is_asked_once<L, R>(
    events: Seq<IntervalEvent<L, R>>,
    window: i64,
    l: (i64, L),
    r: (i64, R),
    i: int,
    j: int,
)
    requires
        none_late(events),
        0 <= i < events.len(),
        0 <= j < events.len(),
        events[i] == IntervalEvent::<L, R>::Left(l.0, l.1),
        events[j] == IntervalEvent::<L, R>::Right(r.0, r.1),
        forall|k: int| 0 <= k < events.len() && k != i ==> #[trigger] events[k] != events[i],
        forall|k: int| 0 <= k < events.len() && k != j ==> #[trigger] events[k] != events[j],
    ensures
        window_pairs(events, window).to_multiset().count((l, r)) == if i < j && r.0 - window <= l.0 && l.0 <= r.0 || j
            < i && l.0 - window <= r.0 && r.0 <= l.0 {
            1nat
        } else {
            0
        },
    decreases events.len(),
{
    let earlier = events.drop_last();
    assert(events[events.len() - 1] == events.last());
    assert(forall|k: int| 0 <= k < earlier.len() ==> #[trigger] earlier[k] == events[k]);
    lemma_window_step(events, window, l, r);
    if i < earlier.len() && j < earlier.len() {
        law_each_window_pair_is_asked_once(earlier, window, l, r, i, j);
    } else {
        law_window_asks_of_what_came(earlier, window, l, r);
        if i == earlier.len() {
            lemma_came_once(earlier, l, r, j);
        } else {
            lemma_came_once(earlier, l, r, i);
        }
    }
}

/// The join function is asked about elements that came, and about no other.
pub proof fn law_window_asks_of_what_came<L, R>(
    events: Seq<IntervalEvent<L, R>>,
    window: i64,
    l: (i64, L),
    r: (i64, R),
)
    requires
        none_late(events),
        (forall|k: int| 0 <= k < events.len() ==> #[trigger] events[k] != IntervalEvent::<L, R>::Left(l.0, l.1)) || (
        forall|k: int| 0 <= k < events.len() ==> #[trigger] events[k] != IntervalEvent::<L, R>::Right(r.0, r.1)),
    ensures
        window_pairs(events, window).to_multiset().count((l, r)) == 0,
    decreases events.len(),
{
    if events.len() == 0 {
        crate::listing::lemma_multiset_empty::<((i64, L), (i64, R))>();
    } else {
        let earlier = events.drop_last();
        assert(events[events.len() - 1] == events.last());
        assert(forall|k: int| 0 <= k < earlier.len() ==> #[trigger] earlier[k] == events[k]);
        law_window_asks_of_what_came(earlier, window, l, r);
        lemma_window_step(events, window, l, r);
        lemma_never_came(earlier, l, r);
    }
}

} // verus!
