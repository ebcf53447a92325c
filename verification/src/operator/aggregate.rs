//! Incremental aggregation, grouped by time window and key.
use core::marker::PhantomData;
use vstd::prelude::*;

use crate::names::{same_name, text};
use crate::stream::Timestamped;
use crate::text::{append_text, decimal, decimal_text, join_texts, joined};

verus! {

/// An aggregate that is computed by adding one element after the other.
///
/// An implementation in plain Rust leaves the spec functions out. Each then has
/// one unknown value for all arguments, so that the contracts over them say
/// nothing of such an implementation.
pub trait AggregateFunction<T, ACC, R>: Send + Sync {
    /// The accumulator of no elements.
    open spec fn zero(&self) -> ACC {
        arbitrary()
    }

    /// The accumulator after one more element.
    open spec fn folded(&self, element: T, accumulator: ACC) -> ACC {
        arbitrary()
    }

    /// The result that an accumulator stands for.
    open spec fn outcome(&self, accumulator: ACC) -> R {
        arbitrary()
    }

    /// The accumulator of the elements of both.
    open spec fn merged(&self, a: ACC, b: ACC) -> ACC {
        arbitrary()
    }

    fn create_accumulator(&self) -> (r: ACC)
        ensures
            r == self.zero(),
    ;

    fn add(&self, element: &T, accumulator: ACC) -> (r: ACC)
        ensures
            r == self.folded(*element, accumulator),
    ;

    fn get_result(&self, accumulator: &ACC) -> (r: R)
        ensures
            r == self.outcome(*accumulator),
    ;

    fn merge(&self, a: ACC, b: ACC) -> (r: ACC)
        ensures
            r == self.merged(a, b),
    ;
}

/// An aggregate from which elements can be taken out again.
///
/// An implementation in plain Rust leaves the spec functions out. Each then has
/// one unknown value for all arguments, so that the contracts over them say
/// nothing of such an implementation.
pub trait RetractableAggregateFunction<T, ACC, R>: AggregateFunction<T, ACC, R> {
    /// The accumulator without an element.
    open spec fn retracted(&self, element: T, accumulator: ACC) -> ACC {
        arbitrary()
    }

    fn retract(&self, element: &T, accumulator: ACC) -> (r: ACC)
        ensures
            r == self.retracted(*element, accumulator),
    ;

    /// Does retraction take constant time?
    fn supports_efficient_retraction(&self) -> (r: bool)
        default_ensures
            r,
    {
        true
    }
}

/// Counts elements; the count wraps around.
pub struct CountAggregate;

impl<T> AggregateFunction<T, i64, i64> for CountAggregate {
    open spec fn zero(&self) -> i64 {
        0
    }

    open spec fn folded(&self, element: T, accumulator: i64) -> i64 {
        vstd::wrapping::i64_specs::wrapping_add(accumulator, 1)
    }

    open spec fn outcome(&self, accumulator: i64) -> i64 {
        accumulator
    }

    open spec fn merged(&self, a: i64, b: i64) -> i64 {
        vstd::wrapping::i64_specs::wrapping_add(a, b)
    }

    fn create_accumulator(&self) -> i64 {
        0
    }

    fn add(&self, element: &T, accumulator: i64) -> i64 {
        accumulator.wrapping_add(1)
    }

    fn get_result(&self, accumulator: &i64) -> i64 {
        *accumulator
    }

    fn merge(&self, a: i64, b: i64) -> i64 {
        a.wrapping_add(b)
    }
}

impl<T> RetractableAggregateFunction<T, i64, i64> for CountAggregate {
    open spec fn retracted(&self, element: T, accumulator: i64) -> i64 {
        vstd::wrapping::i64_specs::wrapping_sub(accumulator, 1)
    }

    fn retract(&self, element: &T, accumulator: i64) -> i64 {
        accumulator.wrapping_sub(1)
    }
}

/// The accumulator of some elements, added in order.
pub open spec fn fold<T, ACC, R, AF: AggregateFunction<T, ACC, R>>(af: AF, elements: Seq<T>) -> ACC
    decreases elements.len(),
{
    if elements.len() == 0 {
        af.zero()
    } else {
        af.folded(elements.last(), fold::<T, ACC, R, AF>(af, elements.drop_last()))
    }
}

/// The count of some elements is their number.
pub proof fn law_count_is_number<T>(elements: Seq<T>)
    requires
        elements.len() <= i64::MAX,
    ensures
        fold::<T, i64, i64, CountAggregate>(CountAggregate, elements) == elements.len(),
    decreases elements.len(),
{
    if elements.len() > 0 {
        law_count_is_number(elements.drop_last());
    }
}

/// Taking out an element that was just added gives back the accumulator.
pub proof fn law_count_retraction_undoes_addition<T>(element: T, accumulator: i64)
    ensures
        <CountAggregate as RetractableAggregateFunction<T, i64, i64>>::retracted(
            &CountAggregate,
            element,
            <CountAggregate as AggregateFunction<T, i64, i64>>::folded(&CountAggregate, element, accumulator),
        ) == accumulator,
{
}

/// Counting two parts and merging gives the count of the whole.
pub proof fn law_count_merge_is_whole<T>(left: Seq<T>, right: Seq<T>)
    ensures
        <CountAggregate as AggregateFunction<T, i64, i64>>::merged(
            &CountAggregate,
            fold::<T, i64, i64, CountAggregate>(CountAggregate, left),
            fold::<T, i64, i64, CountAggregate>(CountAggregate, right),
        ) == fold::<T, i64, i64, CountAggregate>(CountAggregate, left + right),
    decreases right.len(),
{
    if right.len() == 0 {
        assert(left + right =~= left);
    } else {
        law_count_merge_is_whole(left, right.drop_last());
        assert((left + right).drop_last() =~= left + right.drop_last());
    }
}

/// The values that identify a group.
#[derive(Clone, Debug, PartialEq, Eq, Hash)]
pub struct GroupKey {
    pub values: Vec<String>,
}

impl View for GroupKey {
    type V = Seq<Seq<char>>;

    open spec fn view(&self) -> Seq<Seq<char>> {
        self.values@.map_values(text())
    }
}

impl GroupKey {
    pub fn new(values: Vec<String>) -> (r: Self)
        ensures
            r.values == values,
    {
        GroupKey { values }
    }

    /// A key of one value.
    pub fn single(value: &str) -> (r: Self)
        ensures
            r@ == seq![value@],
    {
        let mut values: Vec<String> = Vec::new();
        values.push(value.to_string());
        let r = GroupKey { values };
        assert(r@ =~= seq![value@]);
        r
    }

    /// The values in brackets, with commas between them.
    pub open spec fn rendered(&self) -> Seq<char> {
        "("@ + joined(self@, ", "@) + ")"@
    }

    pub fn to_text(&self) -> (r: String)
        ensures
            r@ == self.rendered(),
    {
        let mut r = "(".to_string();
        append_text(&mut r, join_texts(&self.values, ", ").as_str());
        append_text(&mut r, ")");
        r
    }
}

/// The values of an optional key.
pub open spec fn key_of(group: Option<GroupKey>) -> Option<Seq<Seq<char>>> {
    match group {
        Some(k) => Some(k@),
        None => None,
    }
}

/// Do two optional keys hold the same values?
pub fn same_group(a: &Option<GroupKey>, b: &Option<GroupKey>) -> (r: bool)
    ensures
        r == (key_of(*a) == key_of(*b)),
        r == match (*a, *b) {
            (None, None) => true,
            (Some(x), Some(y)) => x.values@.len() == y.values@.len() && forall|i: int|
                0 <= i < x.values@.len() ==> (#[trigger] x.values@[i])@ == y.values@[i]@,
            _ => false,
        },
{
    match (a, b) {
        (None, None) => true,
        (Some(x), Some(y)) => {
            if x.values.len() != y.values.len() {
                assert(x@.len() != y@.len());
                return false;
            }
            let mut i: usize = 0;
            while i < x.values.len()
                invariant
                    x@.len() == x.values@.len(),
                    y@.len() == y.values@.len(),
                    x@.len() == y@.len(),
                    i <= x@.len(),
                    key_of(*a) == Some(x@),
                    key_of(*b) == Some(y@),
                    forall|j: int| 0 <= j < i ==> x@[j] == y@[j],
                    forall|j: int| 0 <= j < i ==> (#[trigger] x.values@[j])@ == y.values@[j]@,
                decreases x@.len() - i,
            {
                assert(x@[i as int] == x.values@[i as int]@);
                assert(y@[i as int] == y.values@[i as int]@);
                if !same_name(x.values[i].as_str(), y.values[i].as_str()) {
                    return false;
                }
                i += 1;
            }
            assert(x@ =~= y@);
            true
        },
        _ => false,
    }
}

/// An aggregate of one window and one group.
#[derive(Clone, Debug)]
pub struct AggregateResult<R> {
    pub window_start: i64,
    pub window_end: i64,
    pub group_key: Option<GroupKey>,
    pub value: R,
    pub timestamp: i64,
}

impl<R> AggregateResult<R> {
    /// The text of a result whose value has the given text.
    pub open spec fn rendered(&self, value: Seq<char>) -> Seq<char> {
        let head = "AggregateResult[window=["@ + decimal_text(self.window_start as int) + ", "@ + decimal_text(
            self.window_end as int,
        ) + "), value="@ + value;
        match self.group_key {
            Some(key) => head + ", group="@ + key.rendered() + "]"@,
            None => head + "]"@,
        }
    }

    pub fn to_text(&self, value: &str) -> (r: String)
        ensures
            r@ == self.rendered(value@),
    {
        let mut r = "AggregateResult[window=[".to_string();
        append_text(&mut r, decimal(self.window_start).as_str());
        append_text(&mut r, ", ");
        append_text(&mut r, decimal(self.window_end).as_str());
        append_text(&mut r, "), value=");
        append_text(&mut r, value);
        match &self.group_key {
            Some(key) => {
                append_text(&mut r, ", group=");
                append_text(&mut r, key.to_text().as_str());
            },
            None => {},
        }
        append_text(&mut r, "]");
        r
    }
}

/// Division rounded towards zero.
pub open spec fn quotient(a: int, b: int) -> int {
    if a >= 0 && b > 0 {
        a / b
    } else if a >= 0 {
        -(a / -b)
    } else if b > 0 {
        -(-a / b)
    } else {
        -a / -b
    }
}

/// Where the window of a timestamp starts.
pub open spec fn window_start(timestamp: i64, size: i64) -> int {
    quotient(timestamp as int, size as int) * size
}

/// The window of a timestamp has bounds in range.
pub open spec fn window_fits(timestamp: i64, size: i64) -> bool {
    &&& size != 0
    &&& !(timestamp == i64::MIN && size == -1)
    &&& i64::MIN <= window_start(timestamp, size) + size <= i64::MAX
}

proof fn lemma_start_between(t: int, s: int)
    requires
        s != 0,
    ensures
        t >= 0 ==> 0 <= quotient(t, s) * s <= t,
        t <= 0 ==> t <= quotient(t, s) * s <= 0,
        -t <= quotient(t, s) <= t || t <= quotient(t, s) <= -t,
{
    let x = if t >= 0 {
        t
    } else {
        -t
    };
    let y = if s > 0 {
        s
    } else {
        -s
    };
    assert(0 <= (x / y) * y <= x && 0 <= x / y <= x) by (nonlinear_arith)
        requires
            x >= 0,
            y > 0,
    ;
    let q = x / y;
    assert(q * y == (-q) * (-y) && -(q * y) == (-q) * y && -(q * y) == q * (-y)) by (nonlinear_arith);
}

/// Where the window of a timestamp starts.
pub fn start_of_window(timestamp: i64, size: i64) -> (r: i64)
    requires
        size != 0,
        !(timestamp == i64::MIN && size == -1),
    ensures
        r == window_start(timestamp, size),
{
    let x: i128 = if timestamp >= 0 {
        timestamp as i128
    } else {
        -(timestamp as i128)
    };
    let y: i128 = if size > 0 {
        size as i128
    } else {
        -(size as i128)
    };
    let q: i128 = x / y;
    proof {
        lemma_start_between(timestamp as int, size as int);
        assert(0 <= q <= x) by (nonlinear_arith)
            requires
                x >= 0,
                y > 0,
                q == x / y,
        ;
    }
    let key: i128 = if (timestamp >= 0) == (size > 0) {
        q
    } else {
        -q
    };
    assert(key == quotient(timestamp as int, size as int));
    let start: i128 = key * (size as i128);
    start as i64
}

/// A window start and a group.
pub type Tag = (i64, Option<Seq<Seq<char>>>);

/// The accumulator of the elements with a tag, among the first `n`.
pub open spec fn folded_upto<T, ACC, R, AF: AggregateFunction<T, ACC, R>>(
    af: AF,
    elements: Seq<T>,
    tags: Seq<Tag>,
    tag: Tag,
    n: int,
) -> ACC
    decreases n,
{
    if n <= 0 {
        af.zero()
    } else {
        let before = folded_upto::<T, ACC, R, AF>(af, elements, tags, tag, n - 1);
        if tags[n - 1] == tag {
            af.folded(elements[n - 1], before)
        } else {
            before
        }
    }
}

/// The elements with a tag, among the first `n`.
pub open spec fn members<T>(elements: Seq<T>, tags: Seq<Tag>, tag: Tag, n: int) -> Seq<T>
    decreases n,
{
    if n <= 0 {
        Seq::empty()
    } else if tags[n - 1] == tag {
        members(elements, tags, tag, n - 1).push(elements[n - 1])
    } else {
        members(elements, tags, tag, n - 1)
    }
}

/// The accumulator of a tag is that of the elements that have it.
pub proof fn law_group_folds_its_members<T, ACC, R, AF: AggregateFunction<T, ACC, R>>(
    af: AF,
    elements: Seq<T>,
    tags: Seq<Tag>,
    tag: Tag,
    n: int,
)
    ensures
        folded_upto::<T, ACC, R, AF>(af, elements, tags, tag, n) == fold::<T, ACC, R, AF>(
            af,
            members(elements, tags, tag, n),
        ),
    decreases n,
{
    if n > 0 {
        law_group_folds_its_members::<T, ACC, R, AF>(af, elements, tags, tag, n - 1);
        let before = members(elements, tags, tag, n - 1);
        assert(before.push(elements[n - 1]).drop_last() =~= before);
    }
}

/// The tag is among the first `n`.
pub open spec fn seen(tags: Seq<Tag>, tag: Tag, n: int) -> bool {
    exists|k: int| 0 <= k < n && #[trigger] tags[k] == tag
}

pub open spec fn tag_of<R>(r: AggregateResult<R>) -> Tag {
    (r.window_start, key_of(r.group_key))
}

/// There is a result for a tag.
pub open spec fn has_result<R>(results: Seq<AggregateResult<R>>, tag: Tag) -> bool {
    exists|i: int| 0 <= i < results.len() && tag_of(#[trigger] results[i]) == tag
}

/// One result for each chosen tag of the elements, holding the aggregate of
/// the elements with that tag.
pub open spec fn aggregated<T, ACC, R, AF: AggregateFunction<T, ACC, R>>(
    af: AF,
    size: i64,
    elements: Seq<T>,
    tags: Seq<Tag>,
    chosen: spec_fn(Tag) -> bool,
    results: Seq<AggregateResult<R>>,
) -> bool {
    &&& forall|i: int|
        0 <= i < results.len() ==> {
            let tag = tag_of(#[trigger] results[i]);
            &&& chosen(tag)
            &&& seen(tags, tag, tags.len() as int)
            &&& results[i].window_end == results[i].window_start + size
            &&& results[i].timestamp == results[i].window_end
            &&& results[i].value == af.outcome(
                folded_upto::<T, ACC, R, AF>(af, elements, tags, tag, tags.len() as int),
            )
        }
    &&& forall|i: int, j: int|
        0 <= i < j < results.len() ==> tag_of(#[trigger] results[i]) != tag_of(#[trigger] results[j])
    &&& forall|k: int| 0 <= k < tags.len() && chosen(#[trigger] tags[k]) ==> has_result(results, tags[k])
}

/// Every tag is chosen.
pub open spec fn any_tag() -> spec_fn(Tag) -> bool {
    |tag: Tag| true
}

/// Two results say the same.
pub open spec fn same_result<R>(a: AggregateResult<R>, b: AggregateResult<R>) -> bool {
    &&& tag_of(a) == tag_of(b)
    &&& a.window_end == b.window_end
    &&& a.timestamp == b.timestamp
    &&& a.value == b.value
}

/// One of the results says the same as `r`.
pub open spec fn has_same<R>(results: Seq<AggregateResult<R>>, r: AggregateResult<R>) -> bool {
    exists|j: int| 0 <= j < results.len() && same_result(r, #[trigger] results[j])
}

/// Two listings of the aggregates of the same elements hold the same results,
/// each exactly once.
pub proof fn law_aggregates_are_determined<T, ACC, R, AF: AggregateFunction<T, ACC, R>>(
    af: AF,
    size: i64,
    elements: Seq<T>,
    tags: Seq<Tag>,
    a: Seq<AggregateResult<R>>,
    b: Seq<AggregateResult<R>>,
)
    requires
        aggregated::<T, ACC, R, AF>(af, size, elements, tags, any_tag(), a),
        aggregated::<T, ACC, R, AF>(af, size, elements, tags, any_tag(), b),
    ensures
        forall|i: int| 0 <= i < a.len() ==> has_same(b, #[trigger] a[i]),
        forall|j: int| 0 <= j < b.len() ==> has_same(a, #[trigger] b[j]),
{
    assert forall|i: int| 0 <= i < a.len() implies has_same(b, #[trigger] a[i]) by {
        lemma_counterpart::<T, ACC, R, AF>(af, size, elements, tags, a, b, i);
    }
    assert forall|j: int| 0 <= j < b.len() implies has_same(a, #[trigger] b[j]) by {
        lemma_counterpart::<T, ACC, R, AF>(af, size, elements, tags, b, a, j);
    }
}

proof fn lemma_counterpart<T, ACC, R, AF: AggregateFunction<T, ACC, R>>(
    af: AF,
    size: i64,
    elements: Seq<T>,
    tags: Seq<Tag>,
    a: Seq<AggregateResult<R>>,
    b: Seq<AggregateResult<R>>,
    i: int,
)
    requires
        aggregated::<T, ACC, R, AF>(af, size, elements, tags, any_tag(), a),
        aggregated::<T, ACC, R, AF>(af, size, elements, tags, any_tag(), b),
        0 <= i < a.len(),
    ensures
        has_same(b, a[i]),
{
    let tag = tag_of(a[i]);
    assert(seen(tags, tag, tags.len() as int));
    let k = choose|k: int| 0 <= k < tags.len() && #[trigger] tags[k] == tag;
    assert(any_tag()(tags[k]));
    assert(has_result(b, tags[k]));
    let j = choose|j: int| 0 <= j < b.len() && tag_of(#[trigger] b[j]) == tag;
    assert(same_result(a[i], b[j]));
}

/// The accumulator of a window and a group.
struct Slot<ACC> {
    start: i64,
    group: Option<GroupKey>,
    acc: ACC,
}

impl<ACC> Slot<ACC> {
    spec fn tag(&self) -> Tag {
        (self.start, key_of(self.group))
    }
}

/// The slots hold the accumulators of the chosen tags among the first `n`.
spec fn slots_hold<T, ACC, R, AF: AggregateFunction<T, ACC, R>>(
    af: AF,
    elements: Seq<T>,
    tags: Seq<Tag>,
    chosen: spec_fn(Tag) -> bool,
    slots: Seq<Slot<ACC>>,
    n: int,
) -> bool {
    &&& forall|i: int|
        0 <= i < slots.len() ==> {
            let tag = (#[trigger] slots[i]).tag();
            &&& chosen(tag)
            &&& seen(tags, tag, n)
            &&& slots[i].acc == folded_upto::<T, ACC, R, AF>(af, elements, tags, tag, n)
        }
    &&& forall|i: int, j: int|
        0 <= i < j < slots.len() ==> (#[trigger] slots[i]).tag() != (#[trigger] slots[j]).tag()
    &&& forall|k: int| 0 <= k < n && chosen(#[trigger] tags[k]) ==> has_slot(slots, tags[k])
}

spec fn has_slot<ACC>(slots: Seq<Slot<ACC>>, tag: Tag) -> bool {
    exists|i: int| 0 <= i < slots.len() && (#[trigger] slots[i]).tag() == tag
}

proof fn lemma_fold_skip<T, ACC, R, AF: AggregateFunction<T, ACC, R>>(
    af: AF,
    elements: Seq<T>,
    tags: Seq<Tag>,
    tag: Tag,
    n: int,
    m: int,
)
    requires
        0 <= n <= m,
        forall|k: int| n <= k < m ==> #[trigger] tags[k] != tag,
    ensures
        folded_upto::<T, ACC, R, AF>(af, elements, tags, tag, m) == folded_upto::<T, ACC, R, AF>(
            af,
            elements,
            tags,
            tag,
            n,
        ),
    decreases m - n,
{
    if n < m {
        lemma_fold_skip::<T, ACC, R, AF>(af, elements, tags, tag, n, m - 1);
        assert(tags[m - 1] != tag);
    }
}

proof fn lemma_fold_none<T, ACC, R, AF: AggregateFunction<T, ACC, R>>(
    af: AF,
    elements: Seq<T>,
    tags: Seq<Tag>,
    tag: Tag,
    n: int,
)
    requires
        0 <= n,
        !seen(tags, tag, n),
    ensures
        folded_upto::<T, ACC, R, AF>(af, elements, tags, tag, n) == af.zero(),
{
    lemma_fold_skip::<T, ACC, R, AF>(af, elements, tags, tag, 0, n);
}

/// Elements that are not chosen leave the slots as they are.
proof fn lemma_slots_skip<T, ACC, R, AF: AggregateFunction<T, ACC, R>>(
    af: AF,
    elements: Seq<T>,
    tags: Seq<Tag>,
    chosen: spec_fn(Tag) -> bool,
    slots: Seq<Slot<ACC>>,
    n: int,
    m: int,
)
    requires
        0 <= n <= m <= tags.len(),
        slots_hold::<T, ACC, R, AF>(af, elements, tags, chosen, slots, n),
        forall|k: int| n <= k < m ==> !chosen(#[trigger] tags[k]),
    ensures
        slots_hold::<T, ACC, R, AF>(af, elements, tags, chosen, slots, m),
{
    assert forall|i: int| 0 <= i < slots.len() implies {
        let tag = (#[trigger] slots[i]).tag();
        &&& chosen(tag)
        &&& seen(tags, tag, m)
        &&& slots[i].acc == folded_upto::<T, ACC, R, AF>(af, elements, tags, tag, m)
    } by {
        let tag = slots[i].tag();
        let k = choose|k: int| 0 <= k < n && #[trigger] tags[k] == tag;
        assert(tags[k] == tag);
        lemma_fold_skip::<T, ACC, R, AF>(af, elements, tags, tag, n, m);
    }
}

/// Adding a chosen element to the slot of its tag.
proof fn lemma_slot_added<T, ACC, R, AF: AggregateFunction<T, ACC, R>>(
    af: AF,
    elements: Seq<T>,
    tags: Seq<Tag>,
    chosen: spec_fn(Tag) -> bool,
    before: Seq<Slot<ACC>>,
    after: Seq<Slot<ACC>>,
    n: int,
    at: int,
)
    requires
        0 <= n < tags.len(),
        slots_hold::<T, ACC, R, AF>(af, elements, tags, chosen, before, n),
        chosen(tags[n]),
        0 <= at <= before.len(),
        at < before.len() ==> before[at].tag() == tags[n] && after.len() == before.len(),
        at == before.len() ==> !has_slot(before, tags[n]) && after.len() == before.len() + 1,
        forall|i: int| 0 <= i < before.len() && i != at ==> #[trigger] after[i] == before[i],
        after[at].tag() == tags[n],
        after[at].acc == af.folded(
            elements[n],
            if at < before.len() {
                before[at].acc
            } else {
                af.zero()
            },
        ),
    ensures
        slots_hold::<T, ACC, R, AF>(af, elements, tags, chosen, after, n + 1),
{
    let tag = tags[n];
    if at == before.len() {
        assert(!seen(tags, tag, n)) by {
            if seen(tags, tag, n) {
                let k = choose|k: int| 0 <= k < n && #[trigger] tags[k] == tag;
                assert(chosen(tags[k]));
                assert(has_slot(before, tags[k]));
            }
        }
        lemma_fold_none::<T, ACC, R, AF>(af, elements, tags, tag, n);
    }
    assert forall|i: int| 0 <= i < after.len() implies {
        let t = (#[trigger] after[i]).tag();
        &&& chosen(t)
        &&& seen(tags, t, n + 1)
        &&& after[i].acc == folded_upto::<T, ACC, R, AF>(af, elements, tags, t, n + 1)
    } by {
        if i == at {
            assert(tags[n] == after[i].tag());
        } else {
            assert(after[i] == before[i]);
            let t = before[i].tag();
            let k = choose|k: int| 0 <= k < n && #[trigger] tags[k] == t;
            assert(tags[k] == t);
            if t == tag {
                if at < before.len() {
                    assert(before[i].tag() != before[at].tag());
                } else {
                    assert(has_slot(before, tag));
                }
            }
        }
    }
    assert forall|i: int, j: int| 0 <= i < j < after.len() implies (#[trigger] after[i]).tag() != (
    #[trigger] after[j]).tag() by {
        if at < before.len() {
            assert(after[i].tag() == before[i].tag());
            assert(after[j].tag() == before[j].tag());
        } else {
            assert(after[i] == before[i]);
            if j == at {
                if before[i].tag() == tag {
                    assert(has_slot(before, tag));
                }
            } else {
                assert(after[j] == before[j]);
            }
        }
    }
    assert forall|k: int| 0 <= k < n + 1 && chosen(#[trigger] tags[k]) implies has_slot(after, tags[k]) by {
        if k == n {
            assert(after[at].tag() == tags[k]);
        } else {
            assert(has_slot(before, tags[k]));
            let i = choose|i: int| 0 <= i < before.len() && (#[trigger] before[i]).tag() == tags[k];
            assert(after[i].tag() == tags[k]);
        }
    }
}

fn find_slot<ACC>(slots: &Vec<Slot<ACC>>, start: i64, group: &Option<GroupKey>) -> (r: usize)
    ensures
        r <= slots@.len(),
        r < slots@.len() ==> slots@[r as int].tag() == (start, key_of(*group)),
        r == slots@.len() ==> !has_slot(slots@, (start, key_of(*group))),
{
    let mut i: usize = 0;
    while i < slots.len()
        invariant
            i <= slots@.len(),
            forall|j: int| 0 <= j < i ==> (#[trigger] slots@[j]).tag() != (start, key_of(*group)),
        decreases slots@.len() - i,
    {
        if slots[i].start == start && same_group(&slots[i].group, group) {
            return i;
        }
        i += 1;
    }
    i
}

fn copy_group(group: &Option<GroupKey>) -> (r: Option<GroupKey>)
    ensures
        key_of(r) == key_of(*group),
{
    match group {
        None => None,
        Some(k) => {
            let mut values: Vec<String> = Vec::new();
            let mut i: usize = 0;
            while i < k.values.len()
                invariant
                    i <= k.values@.len(),
                    values@.map_values(text()) == k@.take(i as int),
                    k@.len() == k.values@.len(),
                decreases k.values@.len() - i,
            {
                let ghost old_values = values@;
                values.push(k.values[i].clone());
                proof {
                    assert(k@[i as int] == k.values@[i as int]@);
                    assert(values@.map_values(text()) =~= old_values.map_values(text()).push(k@[i as int]));
                    assert(k@.take(i + 1) =~= k@.take(i as int).push(k@[i as int]));
                }
                i += 1;
            }
            assert(k@.take(i as int) =~= k@);
            Some(GroupKey { values })
        },
    }
}

/// The tags of a listing of window starts and groups.
pub open spec fn tags_of(keys: Seq<(i64, Option<GroupKey>)>) -> Seq<Tag> {
    keys.map_values(|k: (i64, Option<GroupKey>)| (k.0, key_of(k.1)))
}

/// The picks are the positions of the chosen tags, in order.
pub open spec fn picked(tags: Seq<Tag>, chosen: spec_fn(Tag) -> bool, picks: Seq<usize>, n: int) -> bool {
    &&& forall|j: int| 0 <= j < picks.len() ==> 0 <= #[trigger] picks[j] < n && chosen(tags[picks[j] as int])
    &&& forall|i: int, j: int| 0 <= i < j < picks.len() ==> #[trigger] picks[i] < #[trigger] picks[j]
    &&& forall|k: int| 0 <= k < n && chosen(#[trigger] tags[k]) ==> is_picked(picks, k)
}

pub open spec fn is_picked(picks: Seq<usize>, k: int) -> bool {
    exists|j: int| 0 <= j < picks.len() && #[trigger] picks[j] == k
}

/// Aggregates the elements at the given positions.
pub(crate) fn aggregate_picks<T, ACC, R, AF: AggregateFunction<T, ACC, R>>(
    af: &AF,
    size: i64,
    elements: &[T],
    keys: &Vec<(i64, Option<GroupKey>)>,
    picks: &Vec<usize>,
    Ghost(chosen): Ghost<spec_fn(Tag) -> bool>,
) -> (r: Vec<AggregateResult<R>>)
    requires
        keys@.len() == elements@.len(),
        forall|k: int| 0 <= k < keys@.len() ==> i64::MIN <= (#[trigger] keys@[k]).0 + size <= i64::MAX,
        picked(tags_of(keys@), chosen, picks@, keys@.len() as int),
    ensures
        aggregated::<T, ACC, R, AF>(*af, size, elements@, tags_of(keys@), chosen, r@),
{
    let ghost tags = tags_of(keys@);
    let mut slots: Vec<Slot<ACC>> = Vec::new();
    let mut j: usize = 0;
    let ghost mut done: int = 0;
    while j < picks.len()
        invariant
            tags == tags_of(keys@),
            keys@.len() == elements@.len(),
            picked(tags, chosen, picks@, keys@.len() as int),
            j <= picks@.len(),
            0 <= done <= keys@.len(),
            j == 0 ==> done == 0,
            j > 0 ==> done == picks@[j - 1] + 1,
            slots_hold::<T, ACC, R, AF>(*af, elements@, tags, chosen, slots@, done),
        decreases picks@.len() - j,
    {
        let p: usize = picks[j];
        proof {
            assert forall|k: int| done <= k < p implies !chosen(#[trigger] tags[k]) by {
                if chosen(tags[k]) {
                    assert(is_picked(picks@, k));
                    let q = choose|q: int| 0 <= q < picks@.len() && #[trigger] picks@[q] == k;
                    if q < j {
                        if q < j - 1 {
                            assert(picks@[q] < picks@[j - 1]);
                        }
                    } else if q > j {
                        assert(picks@[j as int] < picks@[q]);
                    }
                }
            }
            lemma_slots_skip::<T, ACC, R, AF>(*af, elements@, tags, chosen, slots@, done, p as int);
        }
        let (start, group) = (keys[p].0, &keys[p].1);
        let ghost before = slots@;
        let at: usize = find_slot(&slots, start, group);
        assert(tags[p as int] == (start, key_of(*group)));
        if at < slots.len() {
            let Slot { start: s0, group: g0, acc } = slots.remove(at);
            let acc = af.add(&elements[p], acc);
            slots.insert(at, Slot { start: s0, group: g0, acc });
        } else {
            let acc = af.add(&elements[p], af.create_accumulator());
            slots.push(Slot { start, group: copy_group(group), acc });
        }
        proof {
            lemma_slot_added::<T, ACC, R, AF>(
                *af,
                elements@,
                tags,
                chosen,
                before,
                slots@,
                p as int,
                at as int,
            );
            done = p + 1;
        }
        j += 1;
    }
    let ghost n = keys@.len() as int;
    proof {
        assert forall|k: int| done <= k < n implies !chosen(#[trigger] tags[k]) by {
            if chosen(tags[k]) {
                assert(is_picked(picks@, k));
                let q = choose|q: int| 0 <= q < picks@.len() && #[trigger] picks@[q] == k;
                if q < j - 1 {
                    assert(picks@[q] < picks@[j - 1]);
                }
            }
        }
        lemma_slots_skip::<T, ACC, R, AF>(*af, elements@, tags, chosen, slots@, done, n);
    }
    let ghost held = slots@;
    let mut r: Vec<AggregateResult<R>> = Vec::new();
    let mut i: usize = 0;
    while i < slots.len()
        invariant
            held == slots@,
            tags == tags_of(keys@),
            n == keys@.len(),
            forall|k: int| 0 <= k < keys@.len() ==> i64::MIN <= (#[trigger] keys@[k]).0 + size <= i64::MAX,
            slots_hold::<T, ACC, R, AF>(*af, elements@, tags, chosen, held, n),
            i <= held.len(),
            r@.len() == i,
            forall|q: int|
                0 <= q < i ==> {
                    let tag = held[q].tag();
                    &&& tag_of(#[trigger] r@[q]) == tag
                    &&& r@[q].window_end == r@[q].window_start + size
                    &&& r@[q].timestamp == r@[q].window_end
                    &&& r@[q].value == af.outcome(
                        folded_upto::<T, ACC, R, AF>(*af, elements@, tags, tag, n),
                    )
                },
        decreases held.len() - i,
    {
        let slot = &slots[i];
        proof {
            let tag = held[i as int].tag();
            let k = choose|k: int| 0 <= k < n && #[trigger] tags[k] == tag;
            assert(tags[k] == tag);
            assert(keys@[k].0 == slot.start);
        }
        let window_end: i64 = slot.start + size;
        r.push(
            AggregateResult {
                window_start: slot.start,
                window_end,
                group_key: copy_group(&slot.group),
                value: af.get_result(&slot.acc),
                timestamp: window_end,
            },
        );
        i += 1;
    }
    proof {
        assert forall|k: int| 0 <= k < tags.len() && chosen(#[trigger] tags[k]) implies has_result(r@, tags[k]) by {
            assert(has_slot(held, tags[k]));
            let q = choose|q: int| 0 <= q < held.len() && (#[trigger] held[q]).tag() == tags[k];
            assert(tag_of(r@[q]) == tags[k]);
        }
        assert forall|a: int, b: int| 0 <= a < b < r@.len() implies tag_of(#[trigger] r@[a]) != tag_of(
            #[trigger] r@[b],
        ) by {
            assert(held[a].tag() != held[b].tag());
        }
        assert forall|q: int| 0 <= q < r@.len() implies chosen(tag_of(#[trigger] r@[q])) && seen(
            tags,
            tag_of(r@[q]),
            n,
        ) by {
            assert(chosen(held[q].tag()));
        }
    }
    r
}

/// Aggregates elements by time window and group.
pub struct WindowedAggregateOperator<T, ACC, R, AF, GF> where
    AF: AggregateFunction<T, ACC, R>,
    GF: Fn(&T) -> Option<GroupKey> + Send + Sync,
 {
    aggregate_fn: AF,
    group_by_fn: GF,
    window_size_ms: i64,
    kinds: PhantomData<(T, ACC, R)>,
}

/// The tags are those that the windows and a grouping function give to the
/// elements.
pub open spec fn tagged<T: Timestamped, GF: Fn(&T) -> Option<GroupKey>>(
    group_by: GF,
    size: i64,
    elements: Seq<T>,
    tags: Seq<Tag>,
) -> bool {
    &&& tags.len() == elements.len()
    &&& forall|i: int|
        0 <= i < tags.len() ==> (#[trigger] tags[i]).0 == window_start(elements[i].stamp(), size) && grouped(
            group_by,
            elements[i],
            tags[i].1,
        )
}

/// The grouping function may put the element into the group.
pub open spec fn grouped<T, GF: Fn(&T) -> Option<GroupKey>>(
    group_by: GF,
    element: T,
    group: Option<Seq<Seq<char>>>,
) -> bool {
    exists|k: Option<GroupKey>| #[trigger] call_ensures(group_by, (&element,), k) && key_of(k) == group
}

/// The windows and groups of elements can be computed.
pub open spec fn taggable<T: Timestamped, GF: Fn(&T) -> Option<GroupKey>>(
    group_by: GF,
    size: i64,
    elements: Seq<T>,
) -> bool {
    forall|i: int|
        0 <= i < elements.len() ==> window_fits((#[trigger] elements[i]).stamp(), size) && call_requires(
            group_by,
            (&elements[i],),
        )
}

/// The window start and the group of each element.
pub(crate) fn tag_elements<T: Timestamped, GF: Fn(&T) -> Option<GroupKey>>(
    group_by: &GF,
    size: i64,
    elements: &[T],
) -> (r: Vec<(i64, Option<GroupKey>)>)
    requires
        taggable(*group_by, size, elements@),
    ensures
        tagged(*group_by, size, elements@, tags_of(r@)),
        forall|k: int| 0 <= k < r@.len() ==> i64::MIN <= (#[trigger] r@[k]).0 + size <= i64::MAX,
{
    let mut r: Vec<(i64, Option<GroupKey>)> = Vec::new();
    let mut i: usize = 0;
    while i < elements.len()
        invariant
            taggable(*group_by, size, elements@),
            i <= elements@.len(),
            r@.len() == i,
            forall|k: int|
                0 <= k < i ==> (#[trigger] r@[k]).0 == window_start(elements@[k].stamp(), size) && grouped(
                    *group_by,
                    elements@[k],
                    key_of(r@[k].1),
                ),
        decreases elements@.len() - i,
    {
        let e = &elements[i];
        assert(window_fits(elements@[i as int].stamp(), size));
        let start: i64 = start_of_window(e.timestamp(), size);
        let group = group_by(e);
        assert(grouped(*group_by, *e, key_of(group)));
        r.push((start, group));
        i += 1;
    }
    proof {
        assert forall|k: int| 0 <= k < r@.len() implies i64::MIN <= (#[trigger] r@[k]).0 + size <= i64::MAX by {
            assert(window_fits(elements@[k].stamp(), size));
        }
        let tags = tags_of(r@);
        assert forall|k: int| 0 <= k < tags.len() implies (#[trigger] tags[k]).0 == window_start(
            elements@[k].stamp(),
            size,
        ) && grouped(*group_by, elements@[k], tags[k].1) by {
            assert(tags[k] == (r@[k].0, key_of(r@[k].1)));
        }
    }
    r
}

/// All positions below `n`.
pub(crate) fn all_positions(n: usize, Ghost(tags): Ghost<Seq<Tag>>) -> (r: Vec<usize>)
    requires
        n == tags.len(),
    ensures
        picked(tags, any_tag(), r@, n as int),
{
    let mut r: Vec<usize> = Vec::new();
    let mut i: usize = 0;
    while i < n
        invariant
            i <= n,
            r@.len() == i,
            forall|j: int| 0 <= j < i ==> #[trigger] r@[j] == j,
        decreases n - i,
    {
        r.push(i);
        i += 1;
    }
    assert forall|k: int| 0 <= k < n && any_tag()(#[trigger] tags[k]) implies is_picked(r@, k) by {
        assert(r@[k] == k);
    }
    r
}

impl<T, ACC, R, AF, GF> WindowedAggregateOperator<T, ACC, R, AF, GF> where
    AF: AggregateFunction<T, ACC, R>,
    GF: Fn(&T) -> Option<GroupKey> + Send + Sync,
 {
    pub closed spec fn function(&self) -> AF {
        self.aggregate_fn
    }

    pub closed spec fn grouping(&self) -> GF {
        self.group_by_fn
    }

    pub closed spec fn size(&self) -> i64 {
        self.window_size_ms
    }

    pub fn new(aggregate_fn: AF, group_by_fn: GF, window_size_ms: i64) -> (r: Self)
        ensures
            r.function() == aggregate_fn,
            r.grouping() == group_by_fn,
            r.size() == window_size_ms,
    {
        WindowedAggregateOperator { aggregate_fn, group_by_fn, window_size_ms, kinds: PhantomData }
    }
}

impl<T: Timestamped, ACC, R, AF, GF> WindowedAggregateOperator<T, ACC, R, AF, GF> where
    AF: AggregateFunction<T, ACC, R>,
    GF: Fn(&T) -> Option<GroupKey> + Send + Sync,
 {
    /// One result for each window and group of the elements.
    pub fn process_batch(&self, elements: &[T]) -> (r: Vec<AggregateResult<R>>)
        requires
            taggable(self.grouping(), self.size(), elements@),
        ensures
            exists|tags: Seq<Tag>| #[trigger]
                tagged(self.grouping(), self.size(), elements@, tags) && aggregated::<T, ACC, R, AF>(
                    self.function(),
                    self.size(),
                    elements@,
                    tags,
                    any_tag(),
                    r@,
                ),
    {
        let keys = tag_elements(&self.group_by_fn, self.window_size_ms, elements);
        let picks = all_positions(keys.len(), Ghost(tags_of(keys@)));
        let r = aggregate_picks::<T, ACC, R, AF>(
            &self.aggregate_fn,
            self.window_size_ms,
            elements,
            &keys,
            &picks,
            Ghost(any_tag()),
        );
        assert(tagged(self.grouping(), self.size(), elements@, tags_of(keys@)));
        r
    }
}

} // verus!
