//! Joins of two streams over time.
pub use crate::operator::graph_pattern::{EdgeInfo, GraphPatternJoinState, VariableLengthPathOperator};

use vstd::prelude::*;

verus! {

/// Combines a left and a right element, where they go together.
pub trait JoinFunction<L, R, Out>: Send + Sync {
    /// The function can be asked about the two.
    spec fn accepts(&self, left: L, right: R) -> bool;

    /// The function may give this answer for the two.
    spec fn gives(&self, left: L, right: R, out: Option<Out>) -> bool;

    fn join(&self, left: &L, right: &R) -> (r: Option<Out>)
        requires
            self.accepts(*left, *right),
        ensures
            self.gives(*left, *right, r),
    ;
}

impl<L, R, Out, F: Fn(&L, &R) -> Option<Out> + Send + Sync> JoinFunction<L, R, Out> for F {
    open spec fn accepts(&self, left: L, right: R) -> bool {
        call_requires(*self, (&left, &right))
    }

    open spec fn gives(&self, left: L, right: R, out: Option<Out>) -> bool {
        call_ensures(*self, (&left, &right), out)
    }

    fn join(&self, left: &L, right: &R) -> (r: Option<Out>) {
        self(left, right)
    }
}

/// An element of the left or of the right stream.
#[derive(Clone, Debug)]
#[non_exhaustive]
pub enum TaggedUnion<L, R> {
    Left(L),
    Right(R),
}

/// A joined value and the time of the element that completed it.
#[derive(Clone, Debug)]
pub struct JoinResult<Out> {
    pub value: Out,
    pub timestamp: i64,
}

/// Timestamps do not decrease.
pub open spec fn in_time_order<A>(buffer: Seq<(i64, A)>) -> bool {
    forall|i: int, j: int| 0 <= i < j < buffer.len() ==> (#[trigger] buffer[i]).0 <= (#[trigger] buffer[j]).0
}

/// The timestamp lies in a range, bounds included.
pub open spec fn between<A>(lower: int, upper: int) -> spec_fn((i64, A)) -> bool {
    |e: (i64, A)| lower <= e.0 <= upper
}

/// The timestamp is not before a cutoff.
pub open spec fn not_before<A>(cutoff: int) -> spec_fn((i64, A)) -> bool {
    |e: (i64, A)| cutoff <= e.0
}

/// A buffer with one more element, behind those that are not later.
pub open spec fn placed<A>(buffer: Seq<(i64, A)>, timestamp: i64, element: A) -> Seq<(i64, A)>
    decreases buffer.len(),
{
    if buffer.len() > 0 && buffer.last().0 > timestamp {
        placed(buffer.drop_last(), timestamp, element).push(buffer.last())
    } else {
        buffer.push((timestamp, element))
    }
}

/// The answers that are there, with a timestamp.
pub open spec fn answers_at<Out>(answers: Seq<Option<Out>>, timestamp: i64) -> Seq<JoinResult<Out>>
    decreases answers.len(),
{
    if answers.len() == 0 {
        Seq::empty()
    } else {
        let before = answers_at(answers.drop_last(), timestamp);
        match answers.last() {
            Some(value) => before.push(JoinResult { value, timestamp }),
            None => before,
        }
    }
}

/// A join function gives these answers for a left element and its partners.
pub open spec fn left_answers<L, R, Out, F: JoinFunction<L, R, Out>>(
    f: F,
    left: L,
    partners: Seq<(i64, R)>,
    answers: Seq<Option<Out>>,
) -> bool {
    &&& answers.len() == partners.len()
    &&& forall|i: int| 0 <= i < answers.len() ==> f.gives(left, partners[i].1, #[trigger] answers[i])
}

/// A join function gives these answers for a right element and its partners.
pub open spec fn right_answers<L, R, Out, F: JoinFunction<L, R, Out>>(
    f: F,
    right: R,
    partners: Seq<(i64, L)>,
    answers: Seq<Option<Out>>,
) -> bool {
    &&& answers.len() == partners.len()
    &&& forall|i: int| 0 <= i < answers.len() ==> f.gives(partners[i].1, right, #[trigger] answers[i])
}

/// The results of a left element: the answers for its partners, in order.
pub open spec fn joined_left<L, R, Out, F: JoinFunction<L, R, Out>>(
    f: F,
    left: L,
    timestamp: i64,
    partners: Seq<(i64, R)>,
    results: Seq<JoinResult<Out>>,
) -> bool {
    exists|answers: Seq<Option<Out>>| #[trigger]
        left_answers(f, left, partners, answers) && results == answers_at(answers, timestamp)
}

/// The results of a right element: the answers for its partners, in order.
pub open spec fn joined_right<L, R, Out, F: JoinFunction<L, R, Out>>(
    f: F,
    right: R,
    timestamp: i64,
    partners: Seq<(i64, L)>,
    results: Seq<JoinResult<Out>>,
) -> bool {
    exists|answers: Seq<Option<Out>>| #[trigger]
        right_answers(f, right, partners, answers) && results == answers_at(answers, timestamp)
}

/// A join function can be asked about a left element and each of a buffer.
pub open spec fn accepts_left<L, R, Out, F: JoinFunction<L, R, Out>>(f: F, left: L, buffer: Seq<(i64, R)>) -> bool {
    forall|i: int| 0 <= i < buffer.len() ==> f.accepts(left, (#[trigger] buffer[i]).1)
}

/// A join function can be asked about a right element and each of a buffer.
pub open spec fn accepts_right<L, R, Out, F: JoinFunction<L, R, Out>>(f: F, right: R, buffer: Seq<(i64, L)>) -> bool {
    forall|i: int| 0 <= i < buffer.len() ==> f.accepts((#[trigger] buffer[i]).1, right)
}

proof fn lemma_placed<A>(buffer: Seq<(i64, A)>, timestamp: i64, element: A, at: int)
    requires
        in_time_order(buffer),
        0 <= at <= buffer.len(),
        forall|i: int| 0 <= i < at ==> (#[trigger] buffer[i]).0 <= timestamp,
        forall|i: int| at <= i < buffer.len() ==> (#[trigger] buffer[i]).0 > timestamp,
    ensures
        placed(buffer, timestamp, element) == buffer.insert(at, (timestamp, element)),
        in_time_order(placed(buffer, timestamp, element)),
    decreases buffer.len(),
{
    if at < buffer.len() {
        let front = buffer.drop_last();
        lemma_placed(front, timestamp, element, at);
        assert(front.insert(at, (timestamp, element)).push(buffer.last()) =~= buffer.insert(
            at,
            (timestamp, element),
        ));
    } else {
        assert(buffer.push((timestamp, element)) =~= buffer.insert(at, (timestamp, element)));
    }
}

fn place<A>(buffer: &mut Vec<(i64, A)>, timestamp: i64, element: A)
    requires
        in_time_order(old(buffer)@),
    ensures
        final(buffer)@ == placed(old(buffer)@, timestamp, element),
        in_time_order(final(buffer)@),
{
    let ghost before = buffer@;
    let mut at: usize = buffer.len();
    while at > 0 && buffer[at - 1].0 > timestamp
        invariant
            buffer@ == before,
            at <= before.len(),
            forall|i: int| at <= i < before.len() ==> (#[trigger] before[i]).0 > timestamp,
        decreases at,
    {
        at -= 1;
    }
    proof {
        if at > 0 {
            assert forall|i: int| 0 <= i < at implies (#[trigger] before[i]).0 <= timestamp by {
                assert(before[at - 1].0 <= timestamp);
                if i < at - 1 {
                    assert(before[i].0 <= before[at - 1].0);
                }
            }
        }
        lemma_placed(before, timestamp, element, at as int);
    }
    buffer.insert(at, (timestamp, element));
}

/// Drops what is before the cutoff.
fn evict<A>(buffer: &mut Vec<(i64, A)>, cutoff: i64)
    requires
        in_time_order(old(buffer)@),
    ensures
        final(buffer)@ == old(buffer)@.filter(not_before(cutoff as int)),
        in_time_order(final(buffer)@),
{
    let ghost before = buffer@;
    let mut n: usize = 0;
    while n < buffer.len() && buffer[n].0 < cutoff
        invariant
            buffer@ == before,
            n <= before.len(),
            forall|i: int| 0 <= i < n ==> (#[trigger] before[i]).0 < cutoff,
        decreases before.len() - n,
    {
        n += 1;
    }
    let tail = buffer.split_off(n);
    *buffer = tail;
    proof {
        assert(buffer@ =~= before.skip(n as int));
        assert forall|i: int| n <= i < before.len() implies (#[trigger] before[i]).0 >= cutoff by {
            if i > n {
                assert(before[n as int].0 <= before[i].0);
            }
        }
        lemma_filter_suffix(before, n as int, not_before(cutoff as int));
    }
}

/// Where a predicate holds exactly from a position on, the filter is the rest.
proof fn lemma_filter_suffix<A>(s: Seq<A>, n: int, p: spec_fn(A) -> bool)
    requires
        0 <= n <= s.len(),
        forall|i: int| 0 <= i < n ==> !p(#[trigger] s[i]),
        forall|i: int| n <= i < s.len() ==> p(#[trigger] s[i]),
    ensures
        s.filter(p) == s.skip(n),
    decreases s.len(),
{
    reveal(Seq::filter);
    if s.len() > 0 {
        let front = s.drop_last();
        if n < s.len() {
            lemma_filter_suffix(front, n, p);
            assert(p(s[s.len() - 1]));
            assert(front.skip(n).push(s.last()) =~= s.skip(n));
        } else {
            lemma_filter_suffix(front, n - 1, p);
            assert(!p(s[n - 1]));
            assert(s.skip(n) =~= front.skip(n - 1));
        }
    } else {
        assert(s.filter(p) =~= s.skip(n));
    }
}

fn join_left<L, R, Out, F: JoinFunction<L, R, Out>>(
    f: &F,
    left: &L,
    timestamp: i64,
    buffer: &Vec<(i64, R)>,
    lower: i64,
    upper: i64,
) -> (r: Vec<JoinResult<Out>>)
    requires
        accepts_left::<L, R, Out, F>(*f, *left, buffer@),
    ensures
        joined_left(*f, *left, timestamp, buffer@.filter(between(lower as int, upper as int)), r@),
{
    let ghost keeps = between::<R>(lower as int, upper as int);
    let ghost mut answers: Seq<Option<Out>> = Seq::empty();
    let mut r: Vec<JoinResult<Out>> = Vec::new();
    let mut i: usize = 0;
    reveal(Seq::filter);
    assert(buffer@.take(0).filter(keeps) =~= Seq::empty());
    while i < buffer.len()
        invariant
            keeps == between::<R>(lower as int, upper as int),
            accepts_left::<L, R, Out, F>(*f, *left, buffer@),
            i <= buffer@.len(),
            left_answers(*f, *left, buffer@.take(i as int).filter(keeps), answers),
            r@ == answers_at(answers, timestamp),
        decreases buffer@.len() - i,
    {
        reveal(Seq::filter);
        assert(buffer@.take(i + 1).drop_last() =~= buffer@.take(i as int));
        let e = &buffer[i];
        if lower <= e.0 && e.0 <= upper {
            assert(f.accepts(*left, buffer@[i as int].1));
            let out = f.join(left, &e.1);
            proof {
                let before = answers;
                answers = answers.push(out);
                assert(answers.drop_last() =~= before);
            }
            match out {
                Some(value) => {
                    r.push(JoinResult { value, timestamp });
                },
                None => {},
            }
        }
        i += 1;
    }
    assert(buffer@.take(i as int) =~= buffer@);
    r
}

fn join_right<L, R, Out, F: JoinFunction<L, R, Out>>(
    f: &F,
    right: &R,
    timestamp: i64,
    buffer: &Vec<(i64, L)>,
    lower: i64,
    upper: i64,
) -> (r: Vec<JoinResult<Out>>)
    requires
        accepts_right::<L, R, Out, F>(*f, *right, buffer@),
    ensures
        joined_right(*f, *right, timestamp, buffer@.filter(between(lower as int, upper as int)), r@),
{
    let ghost keeps = between::<L>(lower as int, upper as int);
    let ghost mut answers: Seq<Option<Out>> = Seq::empty();
    let mut r: Vec<JoinResult<Out>> = Vec::new();
    let mut i: usize = 0;
    reveal(Seq::filter);
    assert(buffer@.take(0).filter(keeps) =~= Seq::empty());
    while i < buffer.len()
        invariant
            keeps == between::<L>(lower as int, upper as int),
            accepts_right::<L, R, Out, F>(*f, *right, buffer@),
            i <= buffer@.len(),
            right_answers(*f, *right, buffer@.take(i as int).filter(keeps), answers),
            r@ == answers_at(answers, timestamp),
        decreases buffer@.len() - i,
    {
        reveal(Seq::filter);
        assert(buffer@.take(i + 1).drop_last() =~= buffer@.take(i as int));
        let e = &buffer[i];
        if lower <= e.0 && e.0 <= upper {
            assert(f.accepts(buffer@[i as int].1, *right));
            let out = f.join(&e.1, right);
            proof {
                let before = answers;
                answers = answers.push(out);
                assert(answers.drop_last() =~= before);
            }
            match out {
                Some(value) => {
                    r.push(JoinResult { value, timestamp });
                },
                None => {},
            }
        }
        i += 1;
    }
    assert(buffer@.take(i as int) =~= buffer@);
    r
}

/// Joins each element with the elements of the other side that came at most a
/// window before it.
pub struct WindowedJoinState<L, R> {
    left_buffer: Vec<(i64, L)>,
    right_buffer: Vec<(i64, R)>,
    window_size_ms: i64,
    current_watermark: i64,
}

impl<L, R> WindowedJoinState<L, R> {
    /// The left elements with their times, in the order of time and then of
    /// arrival.
    pub closed spec fn left(&self) -> Seq<(i64, L)> {
        self.left_buffer@
    }

    pub closed spec fn right(&self) -> Seq<(i64, R)> {
        self.right_buffer@
    }

    pub closed spec fn window(&self) -> i64 {
        self.window_size_ms
    }

    pub closed spec fn watermark(&self) -> i64 {
        self.current_watermark
    }

    pub open spec fn wf(&self) -> bool {
        in_time_order(self.left()) && in_time_order(self.right())
    }

    /// The partners of an element at a time.
    pub open spec fn partners<A>(buffer: Seq<(i64, A)>, window: i64, timestamp: i64) -> Seq<(i64, A)> {
        buffer.filter(between(timestamp - window, timestamp as int))
    }

    /// A state for windows of a length in milliseconds.
    pub fn new(window_size_ms: i64) -> (r: Self)
        ensures
            r.wf(),
            r.left() == Seq::<(i64, L)>::empty(),
            r.right() == Seq::<(i64, R)>::empty(),
            r.window() == window_size_ms,
            r.watermark() == i64::MIN,
    {
        WindowedJoinState {
            left_buffer: Vec::new(),
            right_buffer: Vec::new(),
            window_size_ms,
            current_watermark: i64::MIN,
        }
    }

    /// Adds a left element and joins it with its partners.
    pub fn add_left<Out, F: JoinFunction<L, R, Out>>(&mut self, element: L, timestamp: i64, join_fn: &F) -> (r: Vec<
        JoinResult<Out>,
    >)
        requires
            old(self).wf(),
            i64::MIN <= timestamp - old(self).window() <= i64::MAX,
            accepts_left::<L, R, Out, F>(*join_fn, element, old(self).right()),
        ensures
            final(self).wf(),
            final(self).left() == placed(old(self).left(), timestamp, element),
            final(self).right() == old(self).right(),
            final(self).window() == old(self).window(),
            final(self).watermark() == old(self).watermark(),
            joined_left(
                *join_fn,
                element,
                timestamp,
                Self::partners(old(self).right(), old(self).window(), timestamp),
                r@,
            ),
    {
        let lower: i64 = timestamp - self.window_size_ms;
        let r = join_left(join_fn, &element, timestamp, &self.right_buffer, lower, timestamp);
        place(&mut self.left_buffer, timestamp, element);
        r
    }

    /// Adds a right element and joins it with its partners.
    pub fn add_right<Out, F: JoinFunction<L, R, Out>>(&mut self, element: R, timestamp: i64, join_fn: &F) -> (r: Vec<
        JoinResult<Out>,
    >)
        requires
            old(self).wf(),
            i64::MIN <= timestamp - old(self).window() <= i64::MAX,
            accepts_right::<L, R, Out, F>(*join_fn, element, old(self).left()),
        ensures
            final(self).wf(),
            final(self).right() == placed(old(self).right(), timestamp, element),
            final(self).left() == old(self).left(),
            final(self).window() == old(self).window(),
            final(self).watermark() == old(self).watermark(),
            joined_right(
                *join_fn,
                element,
                timestamp,
                Self::partners(old(self).left(), old(self).window(), timestamp),
                r@,
            ),
    {
        let lower: i64 = timestamp - self.window_size_ms;
        let r = join_right(join_fn, &element, timestamp, &self.left_buffer, lower, timestamp);
        place(&mut self.right_buffer, timestamp, element);
        r
    }

    /// Moves the watermark and drops what is more than a window before it.
    pub fn advance_watermark(&mut self, watermark: i64)
        requires
            old(self).wf(),
            i64::MIN <= watermark - old(self).window() <= i64::MAX,
        ensures
            final(self).wf(),
            final(self).watermark() == watermark,
            final(self).window() == old(self).window(),
            final(self).left() == old(self).left().filter(not_before(watermark - old(self).window())),
            final(self).right() == old(self).right().filter(not_before(watermark - old(self).window())),
    {
        self.current_watermark = watermark;
        let cutoff: i64 = watermark - self.window_size_ms;
        evict(&mut self.left_buffer, cutoff);
        evict(&mut self.right_buffer, cutoff);
    }
}

/// Filtering by a cutoff at or before a range keeps all that lies in the range.
proof fn lemma_cutoff_keeps_range<A>(buffer: Seq<(i64, A)>, cutoff: int, lower: int, upper: int)
    requires
        cutoff <= lower,
    ensures
        buffer.filter(not_before(cutoff)).filter(between(lower, upper)) == buffer.filter(between(lower, upper)),
    decreases buffer.len(),
{
    reveal(Seq::filter);
    if buffer.len() > 0 {
        let front = buffer.drop_last();
        lemma_cutoff_keeps_range(front, cutoff, lower, upper);
        if not_before(cutoff)(buffer.last()) {
            let kept = front.filter(not_before(cutoff));
            assert(kept.push(buffer.last()).drop_last() =~= kept);
        }
    }
}

/// What a watermark drops has no partner any more: an element that comes at or
/// after the watermark finds the same partners as if nothing had been dropped.
pub proof fn law_watermark_keeps_partners<L, R>(buffer: Seq<(i64, L)>, window: i64, watermark: i64, timestamp: i64)
    requires
        watermark <= timestamp,
    ensures
        WindowedJoinState::<L, R>::partners(buffer.filter(not_before(watermark - window)), window, timestamp)
            == WindowedJoinState::<L, R>::partners(buffer, window, timestamp),
{
    lemma_cutoff_keeps_range(buffer, watermark - window, timestamp - window, timestamp as int);
}

/// Joins a left element at `t` with the right elements from `t + lower` to
/// `t + upper`.
pub struct IntervalJoinState<L, R> {
    left_buffer: Vec<(i64, L)>,
    right_buffer: Vec<(i64, R)>,
    lower_bound_ms: i64,
    upper_bound_ms: i64,
}

/// A left element and a right element lie within the interval of each other.
pub open spec fn within(left: i64, right: i64, lower: i64, upper: i64) -> bool {
    left + lower <= right <= left + upper
}

impl<L, R> IntervalJoinState<L, R> {
    /// The left elements with their times, in the order of time and then of
    /// arrival.
    pub closed spec fn left(&self) -> Seq<(i64, L)> {
        self.left_buffer@
    }

    pub closed spec fn right(&self) -> Seq<(i64, R)> {
        self.right_buffer@
    }

    pub closed spec fn lower(&self) -> i64 {
        self.lower_bound_ms
    }

    pub closed spec fn upper(&self) -> i64 {
        self.upper_bound_ms
    }

    pub open spec fn wf(&self) -> bool {
        in_time_order(self.left()) && in_time_order(self.right())
    }

    /// The right elements that a left element at a time goes with.
    pub open spec fn right_partners(buffer: Seq<(i64, R)>, lower: i64, upper: i64, timestamp: i64) -> Seq<(i64, R)> {
        buffer.filter(between(timestamp + lower, timestamp + upper))
    }

    /// The left elements that a right element at a time goes with.
    pub open spec fn left_partners(buffer: Seq<(i64, L)>, lower: i64, upper: i64, timestamp: i64) -> Seq<(i64, L)> {
        buffer.filter(between(timestamp - upper, timestamp - lower))
    }

    /// A state for an interval with bounds in milliseconds.
    pub fn new(lower_bound_ms: i64, upper_bound_ms: i64) -> (r: Self)
        ensures
            r.wf(),
            r.left() == Seq::<(i64, L)>::empty(),
            r.right() == Seq::<(i64, R)>::empty(),
            r.lower() == lower_bound_ms,
            r.upper() == upper_bound_ms,
    {
        IntervalJoinState { left_buffer: Vec::new(), right_buffer: Vec::new(), lower_bound_ms, upper_bound_ms }
    }

    /// Adds a left element and joins it with its partners.
    pub fn add_left<Out, F: JoinFunction<L, R, Out>>(&mut self, element: L, timestamp: i64, join_fn: &F) -> (r: Vec<
        JoinResult<Out>,
    >)
        requires
            old(self).wf(),
            i64::MIN <= timestamp + old(self).lower() <= i64::MAX,
            i64::MIN <= timestamp + old(self).upper() <= i64::MAX,
            accepts_left::<L, R, Out, F>(*join_fn, element, old(self).right()),
        ensures
            final(self).wf(),
            final(self).left() == placed(old(self).left(), timestamp, element),
            final(self).right() == old(self).right(),
            final(self).lower() == old(self).lower(),
            final(self).upper() == old(self).upper(),
            joined_left(
                *join_fn,
                element,
                timestamp,
                Self::right_partners(old(self).right(), old(self).lower(), old(self).upper(), timestamp),
                r@,
            ),
    {
        let lower: i64 = timestamp + self.lower_bound_ms;
        let upper: i64 = timestamp + self.upper_bound_ms;
        let r = join_left(join_fn, &element, timestamp, &self.right_buffer, lower, upper);
        place(&mut self.left_buffer, timestamp, element);
        r
    }

    /// Adds a right element and joins it with its partners.
    pub fn add_right<Out, F: JoinFunction<L, R, Out>>(&mut self, element: R, timestamp: i64, join_fn: &F) -> (r: Vec<
        JoinResult<Out>,
    >)
        requires
            old(self).wf(),
            i64::MIN <= timestamp - old(self).lower() <= i64::MAX,
            i64::MIN <= timestamp - old(self).upper() <= i64::MAX,
            accepts_right::<L, R, Out, F>(*join_fn, element, old(self).left()),
        ensures
            final(self).wf(),
            final(self).right() == placed(old(self).right(), timestamp, element),
            final(self).left() == old(self).left(),
            final(self).lower() == old(self).lower(),
            final(self).upper() == old(self).upper(),
            joined_right(
                *join_fn,
                element,
                timestamp,
                Self::left_partners(old(self).left(), old(self).lower(), old(self).upper(), timestamp),
                r@,
            ),
    {
        let lower: i64 = timestamp - self.upper_bound_ms;
        let upper: i64 = timestamp - self.lower_bound_ms;
        let r = join_right(join_fn, &element, timestamp, &self.left_buffer, lower, upper);
        place(&mut self.right_buffer, timestamp, element);
        r
    }

    /// Drops what can find no partner at or after the watermark.
    pub fn advance_watermark(&mut self, watermark: i64)
        requires
            old(self).wf(),
            i64::MIN <= watermark - old(self).upper() <= i64::MAX,
            i64::MIN <= watermark + old(self).lower() <= i64::MAX,
        ensures
            final(self).wf(),
            final(self).lower() == old(self).lower(),
            final(self).upper() == old(self).upper(),
            final(self).left() == old(self).left().filter(not_before(watermark - old(self).upper())),
            final(self).right() == old(self).right().filter(not_before(watermark + old(self).lower())),
    {
        let left_cutoff: i64 = watermark - self.upper_bound_ms;
        let right_cutoff: i64 = watermark + self.lower_bound_ms;
        evict(&mut self.left_buffer, left_cutoff);
        evict(&mut self.right_buffer, right_cutoff);
    }
}

/// Which elements go together does not depend on which of them comes first.
pub proof fn law_interval_partners_are_mutual<L, R>(l: (i64, L), r: (i64, R), lower: i64, upper: i64)
    ensures
        between::<R>(l.0 + lower, l.0 + upper)(r) == within(l.0, r.0, lower, upper),
        between::<L>(r.0 - upper, r.0 - lower)(l) == within(l.0, r.0, lower, upper),
{
}

/// What a watermark drops has no partner any more: an element that comes at or
/// after the watermark finds the same partners as if nothing had been dropped.
pub proof fn law_interval_watermark_keeps_partners<L, R>(
    left: Seq<(i64, L)>,
    right: Seq<(i64, R)>,
    lower: i64,
    upper: i64,
    watermark: i64,
    timestamp: i64,
)
    requires
        watermark <= timestamp,
    ensures
        IntervalJoinState::<L, R>::left_partners(left.filter(not_before(watermark - upper)), lower, upper, timestamp)
            == IntervalJoinState::<L, R>::left_partners(left, lower, upper, timestamp),
        IntervalJoinState::<L, R>::right_partners(right.filter(not_before(watermark + lower)), lower, upper, timestamp)
            == IntervalJoinState::<L, R>::right_partners(right, lower, upper, timestamp),
{
    lemma_cutoff_keeps_range(left, watermark - upper, timestamp - upper, timestamp - lower);
    lemma_cutoff_keeps_range(right, watermark + lower, timestamp + lower, timestamp + upper);
}

/// What happens to an interval join: an element comes on one side, or the
/// watermark moves.
#[derive(Clone, Debug)]
pub enum IntervalEvent<L, R> {
    Left(i64, L),
    Right(i64, R),
    Watermark(i64),
}

/// The left elements held after events: what each call of
/// [`IntervalJoinState`] makes of its left buffer.
pub open spec fn held_left<L, R>(events: Seq<IntervalEvent<L, R>>, upper: i64) -> Seq<(i64, L)>
    decreases events.len(),
{
    if events.len() == 0 {
        Seq::empty()
    } else {
        let before = held_left(events.drop_last(), upper);
        match events.last() {
            IntervalEvent::Left(t, l) => placed(before, t, l),
            IntervalEvent::Right(t, r) => before,
            IntervalEvent::Watermark(w) => before.filter(not_before(w - upper)),
        }
    }
}

/// The right elements held after events.
pub open spec fn held_right<L, R>(events: Seq<IntervalEvent<L, R>>, lower: i64) -> Seq<(i64, R)>
    decreases events.len(),
{
    if events.len() == 0 {
        Seq::empty()
    } else {
        let before = held_right(events.drop_last(), lower);
        match events.last() {
            IntervalEvent::Left(t, l) => before,
            IntervalEvent::Right(t, r) => placed(before, t, r),
            IntervalEvent::Watermark(w) => before.filter(not_before(w + lower)),
        }
    }
}

/// All left elements that came.
pub open spec fn came_left<L, R>(events: Seq<IntervalEvent<L, R>>) -> Seq<(i64, L)>
    decreases events.len(),
{
    if events.len() == 0 {
        Seq::empty()
    } else {
        let before = came_left(events.drop_last());
        match events.last() {
            IntervalEvent::Left(t, l) => before.push((t, l)),
            _ => before,
        }
    }
}

/// All right elements that came.
pub open spec fn came_right<L, R>(events: Seq<IntervalEvent<L, R>>) -> Seq<(i64, R)>
    decreases events.len(),
{
    if events.len() == 0 {
        Seq::empty()
    } else {
        let before = came_right(events.drop_last());
        match events.last() {
            IntervalEvent::Right(t, r) => before.push((t, r)),
            _ => before,
        }
    }
}

/// Pairs a left element with a right one.
pub open spec fn with_left<L, R>(l: (i64, L)) -> spec_fn((i64, R)) -> ((i64, L), (i64, R)) {
    |r: (i64, R)| (l, r)
}

/// Pairs a right element with a left one.
pub open spec fn with_right<L, R>(r: (i64, R)) -> spec_fn((i64, L)) -> ((i64, L), (i64, R)) {
    |l: (i64, L)| (l, r)
}

/// The pairs that the join function is asked about over events: each element
/// that comes, with its partners among what is held.
pub open spec fn asked_pairs<L, R>(events: Seq<IntervalEvent<L, R>>, lower: i64, upper: i64) -> Seq<
    ((i64, L), (i64, R)),
>
    decreases events.len(),
{
    if events.len() == 0 {
        Seq::empty()
    } else {
        let earlier = events.drop_last();
        let before = asked_pairs(earlier, lower, upper);
        match events.last() {
            IntervalEvent::Left(t, l) => before + IntervalJoinState::<L, R>::right_partners(
                held_right(earlier, lower),
                lower,
                upper,
                t,
            ).map_values(with_left((t, l))),
            IntervalEvent::Right(t, r) => before + IntervalJoinState::<L, R>::left_partners(
                held_left(earlier, upper),
                lower,
                upper,
                t,
            ).map_values(with_right((t, r))),
            IntervalEvent::Watermark(w) => before,
        }
    }
}

/// No watermark among the events is after a time.
pub open spec fn watermarks_up_to<L, R>(events: Seq<IntervalEvent<L, R>>, time: int) -> bool {
    forall|i: int| 0 <= i < events.len() ==> ((#[trigger] events[i]) matches IntervalEvent::Watermark(w) ==> w <= time)
}

/// No element comes after a watermark that is later than it.
pub open spec fn none_late<L, R>(events: Seq<IntervalEvent<L, R>>) -> bool
    decreases events.len(),
{
    events.len() == 0 || none_late(events.drop_last()) && match events.last() {
        IntervalEvent::Left(t, l) => watermarks_up_to(events.drop_last(), t as int),
        IntervalEvent::Right(t, r) => watermarks_up_to(events.drop_last(), t as int),
        IntervalEvent::Watermark(w) => true,
    }
}

pub proof fn lemma_filter_count<A>(s: Seq<A>, p: spec_fn(A) -> bool, x: A)
    ensures
        s.filter(p).to_multiset().count(x) == if p(x) {
            s.to_multiset().count(x)
        } else {
            0
        },
    decreases s.len(),
{
    broadcast use vstd::seq_lib::group_to_multiset_ensures;

    reveal(Seq::filter);
    if s.len() == 0 {
        crate::listing::lemma_multiset_empty::<A>();
        assert(s =~= Seq::<A>::empty());
    } else {
        lemma_filter_count(s.drop_last(), p, x);
        assert(s =~= s.drop_last().push(s.last()));
    }
}

pub proof fn lemma_placed_count<A>(buffer: Seq<(i64, A)>, timestamp: i64, element: A, x: (i64, A))
    ensures
        placed(buffer, timestamp, element).to_multiset().count(x) == buffer.to_multiset().count(x) + if x == (
            timestamp,
            element,
        ) {
            1nat
        } else {
            0
        },
    decreases buffer.len(),
{
    broadcast use vstd::seq_lib::group_to_multiset_ensures;

    if buffer.len() > 0 && buffer.last().0 > timestamp {
        lemma_placed_count(buffer.drop_last(), timestamp, element, x);
        assert(buffer =~= buffer.drop_last().push(buffer.last()));
    }
}

/// A listing paired with one element counts each pair as often as its other
/// element.
pub proof fn lemma_paired_count<A, B>(s: Seq<A>, f: spec_fn(A) -> B, y: B, x: A)
    requires
        f(x) == y,
        forall|a: A| #[trigger] f(a) == y ==> a == x,
    ensures
        s.map_values(f).to_multiset().count(y) == s.to_multiset().count(x),
    decreases s.len(),
{
    broadcast use vstd::seq_lib::group_to_multiset_ensures;

    if s.len() == 0 {
        crate::listing::lemma_multiset_empty::<A>();
        crate::listing::lemma_multiset_empty::<B>();
        assert(s =~= Seq::<A>::empty());
        assert(s.map_values(f) =~= Seq::<B>::empty());
    } else {
        lemma_paired_count(s.drop_last(), f, y, x);
        assert(s =~= s.drop_last().push(s.last()));
        assert(s.map_values(f) =~= s.drop_last().map_values(f).push(f(s.last())));
    }
}

pub proof fn lemma_not_paired<A, B>(s: Seq<A>, f: spec_fn(A) -> B, y: B)
    requires
        forall|a: A| #[trigger] f(a) != y,
    ensures
        s.map_values(f).to_multiset().count(y) == 0,
    decreases s.len(),
{
    broadcast use vstd::seq_lib::group_to_multiset_ensures;

    if s.len() == 0 {
        crate::listing::lemma_multiset_empty::<B>();
        assert(s.map_values(f) =~= Seq::<B>::empty());
    } else {
        lemma_not_paired(s.drop_last(), f, y);
        assert(s.map_values(f) =~= s.drop_last().map_values(f).push(f(s.last())));
    }
}

/// What may still find a partner after the watermarks is held.
proof fn lemma_still_held<L, R>(events: Seq<IntervalEvent<L, R>>, lower: i64, upper: i64, l: (i64, L), r: (i64, R))
    ensures
        watermarks_up_to(events, l.0 + upper) ==> held_left(events, upper).to_multiset().count(l) == came_left(
            events,
        ).to_multiset().count(l),
        watermarks_up_to(events, r.0 - lower) ==> held_right(events, lower).to_multiset().count(r) == came_right(
            events,
        ).to_multiset().count(r),
    decreases events.len(),
{
    broadcast use vstd::seq_lib::group_to_multiset_ensures;

    if events.len() > 0 {
        let earlier = events.drop_last();
        lemma_still_held(earlier, lower, upper, l, r);
        if watermarks_up_to(events, l.0 + upper) {
            assert(watermarks_up_to(earlier, l.0 + upper));
        }
        if watermarks_up_to(events, r.0 - lower) {
            assert(watermarks_up_to(earlier, r.0 - lower));
        }
        assert(events[events.len() - 1] == events.last());
        match events.last() {
            IntervalEvent::Left(t, e) => {
                lemma_placed_count(held_left(earlier, upper), t, e, l);
            },
            IntervalEvent::Right(t, e) => {
                lemma_placed_count(held_right(earlier, lower), t, e, r);
            },
            IntervalEvent::Watermark(w) => {
                lemma_filter_count(held_left(earlier, upper), not_before(w - upper), l);
                lemma_filter_count(held_right(earlier, lower), not_before(w + lower), r);
            },
        }
    }
}

/// The join function is asked about each pair of elements within the interval
/// exactly once, by whichever of the two comes second, and about no other pair:
/// as often as there are occurrences of the one and of the other.
pub proof fn law_each_interval_pair_is_asked_once<L, R>(
    events: Seq<IntervalEvent<L, R>>,
    lower: i64,
    upper: i64,
    l: (i64, L),
    r: (i64, R),
)
    requires
        none_late(events),
    ensures
        asked_pairs(events, lower, upper).to_multiset().count((l, r)) == if within(l.0, r.0, lower, upper) {
            came_left(events).to_multiset().count(l) * came_right(events).to_multiset().count(r)
        } else {
            0
        },
    decreases events.len(),
{
    broadcast use vstd::seq_lib::group_to_multiset_ensures;

    if events.len() == 0 {
        crate::listing::lemma_multiset_empty::<((i64, L), (i64, R))>();
        crate::listing::lemma_multiset_empty::<(i64, L)>();
        assert(0nat * came_right(events).to_multiset().count(r) == 0) by (nonlinear_arith);
    } else {
        let earlier = events.drop_last();
        law_each_interval_pair_is_asked_once(earlier, lower, upper, l, r);
        let a = came_left(earlier).to_multiset().count(l);
        let b = came_right(earlier).to_multiset().count(r);
        assert((a + 1) * b == a * b + b) by (nonlinear_arith);
        assert(a * (b + 1) == a * b + a) by (nonlinear_arith);
        let before = asked_pairs(earlier, lower, upper);
        match events.last() {
            IntervalEvent::Left(t, e) => {
                let held = held_right(earlier, lower);
                let p = between::<R>(t + lower, t + upper);
                let found = held.filter(p);
                let f = with_left::<L, R>((t, e));
                crate::listing::lemma_multiset_add(before, found.map_values(f));
                if l == (t, e) {
                    lemma_paired_count(found, f, (l, r), r);
                    lemma_filter_count(held, p, r);
                    if within(l.0, r.0, lower, upper) {
                        assert(watermarks_up_to(earlier, r.0 - lower));
                        lemma_still_held(earlier, lower, upper, l, r);
                    }
                } else {
                    lemma_not_paired(found, f, (l, r));
                }
            },
            IntervalEvent::Right(t, e) => {
                let held = held_left(earlier, upper);
                let p = between::<L>(t - upper, t - lower);
                let found = held.filter(p);
                let f = with_right::<L, R>((t, e));
                crate::listing::lemma_multiset_add(before, found.map_values(f));
                if r == (t, e) {
                    lemma_paired_count(found, f, (l, r), l);
                    lemma_filter_count(held, p, l);
                    if within(l.0, r.0, lower, upper) {
                        assert(watermarks_up_to(earlier, l.0 + upper));
                        lemma_still_held(earlier, lower, upper, l, r);
                    }
                } else {
                    lemma_not_paired(found, f, (l, r));
                }
            },
            IntervalEvent::Watermark(w) => {},
        }
    }
}

} // verus!
