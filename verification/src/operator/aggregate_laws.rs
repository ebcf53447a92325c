//! What aggregation by window and group gives for a batch of elements.
use vstd::prelude::*;

use crate::operator::aggregate::{
    aggregated, any_tag, fold, grouped, has_result, key_of, law_group_folds_its_members, members, quotient, seen,
    tag_of, tagged, window_start, AggregateFunction, AggregateResult, GroupKey, Tag,
};
use crate::stream::Timestamped;

verus! {

/// The texts of the values of an optional key, all of them in order.
pub open spec fn key_texts(group: Option<GroupKey>) -> Option<Seq<Seq<char>>> {
    match group {
        Some(k) => Some(Seq::new(k.values@.len(), |i: int| k.values@[i]@)),
        None => None,
    }
}

/// A time lies in the window that starts at `start`: a multiple of the size,
/// less than the size away from the time and not on the other side of zero.
pub open spec fn in_window(time: int, start: int, size: int) -> bool {
    &&& exists|q: int| start == #[trigger] (q * size)
    &&& -size < time - start < size || size < time - start < -size
    &&& 0 <= start <= time || time <= start <= 0
}

/// Two optional keys make the same group exactly if both are missing, or both
/// are there with as many values and the same text at every place.
pub proof fn law_same_group_is_same_values(a: Option<GroupKey>, b: Option<GroupKey>)
    ensures
        (key_of(a) == key_of(b)) == match (a, b) {
            (None, None) => true,
            (Some(x), Some(y)) => x.values@.len() == y.values@.len() && forall|i: int|
                0 <= i < x.values@.len() ==> (#[trigger] x.values@[i])@ == y.values@[i]@,
            _ => false,
        },
        key_of(a) == key_texts(a),
{
    if let Some(x) = a {
        assert(x@ =~= key_texts(a)->0);
        if let Some(y) = b {
            if key_of(a) == key_of(b) {
                assert(x@.len() == y@.len());
                assert forall|i: int| 0 <= i < x.values@.len() implies (#[trigger] x.values@[i])@ == y.values@[i]@ by {
                    assert(x@[i] == y@[i]);
                }
            }
            if x.values@.len() == y.values@.len() && forall|i: int|
                0 <= i < x.values@.len() ==> (#[trigger] x.values@[i])@ == y.values@[i]@ {
                assert(x@ =~= y@);
            }
        }
    }
}

proof fn lemma_magnitude(x: int, y: int, q: int)
    requires
        x >= 0,
        y > 0,
        q == x / y,
    ensures
        0 <= q * y <= x < q * y + y,
        q * y == (-q) * (-y),
        -(q * y) == (-q) * y,
        -(q * y) == q * (-y),
{
    assert(0 <= q * y <= x < q * y + y) by (nonlinear_arith)
        requires
            x >= 0,
            y > 0,
            q == x / y,
    ;
    assert(q * y == (-q) * (-y) && -(q * y) == (-q) * y && -(q * y) == q * (-y)) by (nonlinear_arith);
}

/// The window of a time starts at the one multiple of the size that is less than
/// the size away from it, towards zero.
pub proof fn law_window_holds_its_time(timestamp: i64, size: i64, start: int)
    requires
        size != 0,
    ensures
        in_window(timestamp as int, start, size as int) == (start == window_start(timestamp, size)),
        size > 0 && timestamp >= 0 ==> window_start(timestamp, size) <= timestamp < window_start(timestamp, size) + size,
{
    let t = timestamp as int;
    let s = size as int;
    let x = if t >= 0 {
        t
    } else {
        -t
    };
    let y = if s > 0 {
        s
    } else {
        -s
    };
    lemma_magnitude(x, y, x / y);
    let w = window_start(timestamp, size);
    assert(w == quotient(t, s) * s);
    assert(in_window(t, w, s));
    if in_window(t, start, s) {
        let q = choose|q: int| start == #[trigger] (q * s);
        let p = quotient(t, s);
        let d = q - p;
        assert(d * s == q * s - p * s) by (nonlinear_arith)
            requires
                d == q - p,
        ;
        assert(d == 0) by (nonlinear_arith)
            requires
                -y < d * s < y,
                s == y || s == -y,
                y > 0,
        ;
    }
}

/// The elements of a window and group, by what the elements themselves say.
pub open spec fn belongs<T: Timestamped>(
    key: spec_fn(T) -> Option<Seq<Seq<char>>>,
    size: int,
    start: int,
    group: Option<Seq<Seq<char>>>,
) -> spec_fn(T) -> bool {
    |e: T| in_window(e.stamp() as int, start, size) && key(e) == group
}

/// There is a result for the window of a time and for a group.
pub open spec fn result_for<R>(
    results: Seq<AggregateResult<R>>,
    time: int,
    size: int,
    group: Option<Seq<Seq<char>>>,
) -> bool {
    exists|i: int| #![trigger results[i]]
        0 <= i < results.len() && in_window(time, results[i].window_start as int, size) && key_texts(
            results[i].group_key,
        ) == group
}

proof fn lemma_members_filter<T>(elements: Seq<T>, tags: Seq<Tag>, tag: Tag, p: spec_fn(T) -> bool, n: int)
    requires
        0 <= n <= elements.len(),
        forall|k: int| 0 <= k < n ==> (#[trigger] tags[k] == tag) == p(elements[k]),
    ensures
        members(elements, tags, tag, n) == elements.take(n).filter(p),
    decreases n,
{
    reveal(Seq::filter);
    if n > 0 {
        lemma_members_filter(elements, tags, tag, p, n - 1);
        assert(elements.take(n).drop_last() =~= elements.take(n - 1));
        assert((tags[n - 1] == tag) == p(elements[n - 1]));
    }
}

/// What the results of a batch are, where the grouping function gives each
/// element one key:
///
/// - each result is for one window and group, and its value is the aggregate of
///   all the elements whose time lies in that window and whose key has the same
///   values, in the order of the batch, and of no others;
/// - each element has a result for its window and for all the values of its key;
/// - no two results are for the same window and values, and none is for a window
///   and group without elements.
pub proof fn law_batch_results<T: Timestamped, ACC, R, AF: AggregateFunction<T, ACC, R>, GF: Fn(&T) -> Option<GroupKey>>(
    af: AF,
    group_by: GF,
    key: spec_fn(T) -> Option<Seq<Seq<char>>>,
    size: i64,
    elements: Seq<T>,
    tags: Seq<Tag>,
    results: Seq<AggregateResult<R>>,
)
    requires
        size != 0,
        forall|e: T, k: Option<GroupKey>| #[trigger] call_ensures(group_by, (&e,), k) ==> key_texts(k) == key(e),
        tagged(group_by, size, elements, tags),
        aggregated::<T, ACC, R, AF>(af, size, elements, tags, any_tag(), results),
    ensures
        forall|i: int| #![trigger results[i]]
            0 <= i < results.len() ==> {
                let r = results[i];
                let mine = elements.filter(
                    belongs(key, size as int, r.window_start as int, key_texts(r.group_key)),
                );
                &&& r.window_end == r.window_start + size
                &&& r.timestamp == r.window_end
                &&& mine.len() > 0
                &&& r.value == af.outcome(fold::<T, ACC, R, AF>(af, mine))
            },
        forall|k: int| #![trigger elements[k]]
            0 <= k < elements.len() ==> result_for(
                results,
                elements[k].stamp() as int,
                size as int,
                key(elements[k]),
            ),
        forall|i: int, j: int| #![trigger results[i], results[j]]
            0 <= i < j < results.len() ==> results[i].window_start != results[j].window_start || key_texts(
                results[i].group_key,
            ) != key_texts(results[j].group_key),
{
    assert forall|k: int| 0 <= k < elements.len() implies (#[trigger] tags[k]).1 == key(elements[k]) && tags[k].0
        == window_start(elements[k].stamp(), size) by {
        assert(grouped(group_by, elements[k], tags[k].1));
        let g = choose|g: Option<GroupKey>| #[trigger]
            call_ensures(group_by, (&elements[k],), g) && key_of(g) == tags[k].1;
        law_same_group_is_same_values(g, g);
    }
    assert forall|i: int| #![trigger results[i]] 0 <= i < results.len() implies {
        let r = results[i];
        let mine = elements.filter(belongs(key, size as int, r.window_start as int, key_texts(r.group_key)));
        &&& r.window_end == r.window_start + size
        &&& r.timestamp == r.window_end
        &&& mine.len() > 0
        &&& r.value == af.outcome(fold::<T, ACC, R, AF>(af, mine))
    } by {
        let r = results[i];
        let tag = tag_of(r);
        let n = elements.len() as int;
        let p = belongs(key, size as int, r.window_start as int, key_texts(r.group_key));
        law_same_group_is_same_values(r.group_key, r.group_key);
        assert forall|k: int| 0 <= k < n implies (#[trigger] tags[k] == tag) == p(elements[k]) by {
            law_window_holds_its_time(elements[k].stamp(), size, r.window_start as int);
            assert(tags[k].1 == key(elements[k]));
        }
        lemma_members_filter(elements, tags, tag, p, n);
        assert(elements.take(n) =~= elements);
        law_group_folds_its_members::<T, ACC, R, AF>(af, elements, tags, tag, n);
        assert(seen(tags, tag, n));
        let k = choose|k: int| 0 <= k < n && #[trigger] tags[k] == tag;
        assert(p(elements[k]));
        crate::listing::lemma_filter_keeps(elements, p, elements[k]);
    }
    assert forall|k: int| #![trigger elements[k]] 0 <= k < elements.len() implies result_for(
        results,
        elements[k].stamp() as int,
        size as int,
        key(elements[k]),
    ) by {
        assert(any_tag()(tags[k]));
        assert(has_result(results, tags[k]));
        let i = choose|i: int| 0 <= i < results.len() && tag_of(#[trigger] results[i]) == tags[k];
        law_same_group_is_same_values(results[i].group_key, results[i].group_key);
        law_window_holds_its_time(elements[k].stamp(), size, results[i].window_start as int);
        assert(tags[k].1 == key(elements[k]));
    }
    assert forall|i: int, j: int| #![trigger results[i], results[j]] 0 <= i < j < results.len() implies results[i].window_start
        != results[j].window_start || key_texts(results[i].group_key) != key_texts(results[j].group_key) by {
        assert(tag_of(results[i]) != tag_of(results[j]));
        law_same_group_is_same_values(results[i].group_key, results[j].group_key);
        law_same_group_is_same_values(results[j].group_key, results[i].group_key);
    }
}

} // verus!
