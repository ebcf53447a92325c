//! Join aggregation partitioned by key and window.
use vstd::prelude::*;

use crate::listing::{dup, lawful, same};
use crate::operator::swag_join_state::{
    consistent, is_ring, law_empty_is_consistent, law_insert_left, law_insert_right, left_inserted,
    lemma_no_key_lawful, right_inserted, IntervalBounds, JoinAggregateSpec, WindowJoinState,
};

verus! {

/// Assigns timestamps to windows.
///
/// An implementation in plain Rust leaves the spec functions out. Each then has
/// one unknown value for all arguments, so that the contracts over them say
/// nothing of such an implementation.
pub trait WindowAssigner<W> {
    open spec fn windows(&self, timestamp: i64) -> Seq<W> {
        arbitrary()
    }

    /// The windows that an element at `timestamp` belongs to.
    fn assign(&self, timestamp: i64) -> (r: Vec<W>)
        ensures
            r@ == self.windows(timestamp),
    ;
}

/// Windows of a fixed size, one behind the other.
#[derive(Clone, Copy, Debug)]
pub struct TumblingWindowAssigner {
    size: i64,
}

impl TumblingWindowAssigner {
    pub closed spec fn span(&self) -> i64 {
        self.size
    }

    pub open spec fn wf(&self) -> bool {
        self.span() > 0
    }

    #[verifier::type_invariant]
    spec fn positive(self) -> bool {
        self.size > 0
    }

    pub fn new(size: i64) -> (r: Self)
        requires
            size > 0,
        ensures
            r.span() == size,
    {
        TumblingWindowAssigner { size }
    }

    pub fn size(&self) -> (r: i64)
        ensures
            r == self.span(),
            r > 0,
    {
        proof {
            use_type_invariant(self);
        }
        self.size
    }
}

impl WindowAssigner<i64> for TumblingWindowAssigner {
    /// The number of the window: the timestamp divided by the size, rounded
    /// down.
    open spec fn windows(&self, timestamp: i64) -> Seq<i64> {
        seq![(timestamp as int / self.span() as int) as i64]
    }

    fn assign(&self, timestamp: i64) -> Vec<i64> {
        proof {
            use_type_invariant(self);
        }
        let w = floor_div(timestamp, self.size);
        let mut r: Vec<i64> = Vec::new();
        r.push(w);
        assert(r@ =~= self.windows(timestamp));
        r
    }
}

/// Division rounded down, by a positive number.
pub fn floor_div(a: i64, b: i64) -> (r: i64)
    requires
        b > 0,
    ensures
        r as int == a as int / b as int,
{
    proof {
        assert(i64::MIN <= a as int / b as int <= i64::MAX) by (nonlinear_arith)
            requires
                b > 0,
                i64::MIN <= a <= i64::MAX,
        ;
    }
    if a >= 0 {
        a / b
    } else {
        // Counts up from the other side, so that the quotient stays in range.
        let up: i64 = -(a + 1);
        let q: i64 = up / b;
        proof {
            assert(-(up as int / b as int) - 1 == a as int / b as int) by (nonlinear_arith)
                requires
                    b > 0,
                    up == -(a + 1),
                    up >= 0,
            ;
        }
        -q - 1
    }
}

/// Which side of the join an element came from.
#[derive(Clone, Copy, Debug, PartialEq, Eq, Hash, Structural)]
#[non_exhaustive]
pub enum Side {
    Left,
    Right,
}

/// What an element did to the aggregate of a key and a window.
#[derive(Clone, Debug)]
pub struct JoinAggregateResult<K, W, V> {
    pub key: K,
    pub window: W,
    pub aggregate: V,
    pub delta: V,
    pub side: Side,
}

/// The join state of a key and a window.
pub struct Partition<S: JoinAggregateSpec, K, W> {
    pub key: K,
    pub window: W,
    pub state: WindowJoinState<S>,
}

/// Keeps a join state for each key and window.
pub struct WindowedJoinAggregateOperator<S: JoinAggregateSpec, K, W, A, FL, FR> {
    spec: S,
    bounds: IntervalBounds,
    assigner: A,
    left_extractor: FL,
    right_extractor: FR,
    partitions: Vec<Partition<S, K, W>>,
}

/// A state to which nothing was added.
pub open spec fn is_fresh<S: JoinAggregateSpec>(state: &WindowJoinState<S>, spec: S, bounds: IntervalBounds) -> bool {
    &&& state.sound()
    &&& state.ring() == spec
    &&& state.interval() == bounds
    &&& !state.key_mode()
    &&& state.value() == spec.spec_zero()
    &&& state.left_items().len() == 0
    &&& state.right_items().len() == 0
}

/// The partition of `key` and `window` is changed, or added, and the others
/// stay: `state` becomes `next`.
pub open spec fn partition_changed<S: JoinAggregateSpec, K, W>(
    before: Seq<Partition<S, K, W>>,
    after: Seq<Partition<S, K, W>>,
    key: K,
    window: W,
    state: WindowJoinState<S>,
    next: WindowJoinState<S>,
    spec: S,
    bounds: IntervalBounds,
) -> bool {
    let changed = Partition { key, window, state: next };
    ||| exists|i: int|
        0 <= i < before.len() && #[trigger] before[i] == (Partition { key, window, state }) && after == before.update(
            i,
            changed,
        )
    ||| no_partition(before, key, window) && is_fresh(&state, spec, bounds) && after == before.push(changed)
}

pub open spec fn no_partition<S: JoinAggregateSpec, K, W>(
    partitions: Seq<Partition<S, K, W>>,
    key: K,
    window: W,
) -> bool {
    forall|i: int|
        0 <= i < partitions.len() ==> !((#[trigger] partitions[i]).key == key && partitions[i].window == window)
}

/// What a left element does to one window.
pub open spec fn left_step<S: JoinAggregateSpec, K, W>(
    before: Seq<Partition<S, K, W>>,
    after: Seq<Partition<S, K, W>>,
    spec: S,
    bounds: IntervalBounds,
    window: W,
    timestamp: i64,
    element: S::L,
    r: JoinAggregateResult<K, W, S::V>,
) -> bool {
    exists|state: WindowJoinState<S>, next: WindowJoinState<S>| #[trigger]
        partition_changed(before, after, r.key, window, state, next, spec, bounds) && left_inserted(
            &state,
            &next,
            timestamp,
            element,
            r.delta,
        ) && cloned(next.value(), r.aggregate) && r.window == window && r.side == Side::Left
}

/// What a right element does to one window.
pub open spec fn right_step<S: JoinAggregateSpec, K, W>(
    before: Seq<Partition<S, K, W>>,
    after: Seq<Partition<S, K, W>>,
    spec: S,
    bounds: IntervalBounds,
    window: W,
    timestamp: i64,
    element: S::R,
    r: JoinAggregateResult<K, W, S::V>,
) -> bool {
    exists|state: WindowJoinState<S>, next: WindowJoinState<S>| #[trigger]
        partition_changed(before, after, r.key, window, state, next, spec, bounds) && right_inserted(
            &state,
            &next,
            timestamp,
            element,
            r.delta,
        ) && cloned(next.value(), r.aggregate) && r.window == window && r.side == Side::Right
}

/// A left element goes to its windows one after the other.
pub open spec fn is_left_run<S: JoinAggregateSpec, K, W>(
    run: Seq<Seq<Partition<S, K, W>>>,
    spec: S,
    bounds: IntervalBounds,
    windows: Seq<W>,
    timestamp: i64,
    element: S::L,
    results: Seq<JoinAggregateResult<K, W, S::V>>,
) -> bool {
    &&& run.len() == windows.len() + 1
    &&& results.len() == windows.len()
    &&& forall|i: int|
        0 <= i < results.len() ==> left_step(
            run[i],
            run[i + 1],
            spec,
            bounds,
            windows[i],
            timestamp,
            element,
            #[trigger] results[i],
        )
}

/// A right element goes to its windows one after the other.
pub open spec fn is_right_run<S: JoinAggregateSpec, K, W>(
    run: Seq<Seq<Partition<S, K, W>>>,
    spec: S,
    bounds: IntervalBounds,
    windows: Seq<W>,
    timestamp: i64,
    element: S::R,
    results: Seq<JoinAggregateResult<K, W, S::V>>,
) -> bool {
    &&& run.len() == windows.len() + 1
    &&& results.len() == windows.len()
    &&& forall|i: int|
        0 <= i < results.len() ==> right_step(
            run[i],
            run[i + 1],
            spec,
            bounds,
            windows[i],
            timestamp,
            element,
            #[trigger] results[i],
        )
}

impl<S: JoinAggregateSpec, K, W, A, FL, FR> WindowedJoinAggregateOperator<S, K, W, A, FL, FR> {
    pub closed spec fn ring(&self) -> S {
        self.spec
    }

    pub closed spec fn interval(&self) -> IntervalBounds {
        self.bounds
    }

    pub closed spec fn window_source(&self) -> A {
        self.assigner
    }

    pub closed spec fn left_keys(&self) -> FL {
        self.left_extractor
    }

    pub closed spec fn right_keys(&self) -> FR {
        self.right_extractor
    }

    /// The join states, in the order in which their keys and windows came up.
    pub closed spec fn parts(&self) -> Seq<Partition<S, K, W>> {
        self.partitions@
    }

    /// A sound state for each key and window.
    pub open spec fn wf(&self) -> bool {
        &&& self.interval().lower <= self.interval().upper
        &&& forall|i: int, j: int|
            0 <= i < j < self.parts().len() ==> !((#[trigger] self.parts()[i]).key == (#[trigger] self.parts()[j]).key
                && self.parts()[i].window == self.parts()[j].window)
        &&& forall|i: int| 0 <= i < self.parts().len() ==> self.part_ok(#[trigger] self.parts()[i])
    }

    pub open spec fn part_ok(&self, p: Partition<S, K, W>) -> bool {
        &&& p.state.sound()
        &&& p.state.ring() == self.ring()
        &&& p.state.interval() == self.interval()
        &&& !p.state.key_mode()
    }

    pub open spec fn same_setup(&self, other: &Self) -> bool {
        &&& self.ring() == other.ring()
        &&& self.interval() == other.interval()
        &&& self.window_source() == other.window_source()
        &&& self.left_keys() == other.left_keys()
        &&& self.right_keys() == other.right_keys()
    }

    pub fn new(spec: S, bounds: IntervalBounds, assigner: A, left_extractor: FL, right_extractor: FR) -> (r: Self)
        requires
            bounds.lower <= bounds.upper,
        ensures
            r.wf(),
            r.ring() == spec,
            r.interval() == bounds,
            r.window_source() == assigner,
            r.left_keys() == left_extractor,
            r.right_keys() == right_extractor,
            r.parts().len() == 0,
    {
        WindowedJoinAggregateOperator {
            spec,
            bounds,
            assigner,
            left_extractor,
            right_extractor,
            partitions: Vec::new(),
        }
    }

    /// Number of keys and windows with a state.
    pub fn partition_count(&self) -> (r: usize)
        ensures
            r == self.parts().len(),
    {
        self.partitions.len()
    }

    /// Drops every state.
    pub fn clear(&mut self)
        requires
            old(self).wf(),
        ensures
            final(self).wf(),
            final(self).same_setup(old(self)),
            final(self).parts().len() == 0,
    {
        self.partitions.clear();
    }
}

impl<S: JoinAggregateSpec, K: Eq + Clone, W: Eq + Clone, A, FL, FR> WindowedJoinAggregateOperator<S, K, W, A, FL, FR> {
    fn locate(&self, key: &K, window: &W) -> (r: Option<usize>)
        requires
            lawful::<K>(),
            lawful::<W>(),
        ensures
            r matches Some(i) ==> i < self.parts().len() && self.parts()[i as int].key == *key
                && self.parts()[i as int].window == *window,
            r is None ==> no_partition(self.parts(), *key, *window),
    {
        let mut i: usize = 0;
        while i < self.partitions.len()
            invariant
                lawful::<K>(),
                lawful::<W>(),
                i <= self.parts().len(),
                forall|j: int|
                    0 <= j < i ==> !((#[trigger] self.parts()[j]).key == *key && self.parts()[j].window == *window),
            decreases self.parts().len() - i,
        {
            if same(&self.partitions[i].key, key) && same(&self.partitions[i].window, window) {
                return Some(i);
            }
            i += 1;
        }
        None
    }

    /// The aggregate of a key and a window: zero if nothing came.
    pub fn fire_window(&self, key: &K, window: &W) -> (r: S::V)
        requires
            lawful::<K>(),
            lawful::<W>(),
            self.wf(),
        ensures
            forall|i: int|
                0 <= i < self.parts().len() && (#[trigger] self.parts()[i]).key == *key && self.parts()[i].window
                    == *window ==> cloned(self.parts()[i].state.value(), r),
            no_partition(self.parts(), *key, *window) ==> r == self.ring().spec_zero(),
    {
        match self.locate(key, window) {
            Some(i) => {
                let r = self.partitions[i].state.aggregate();
                proof {
                    assert forall|j: int|
                        0 <= j < self.parts().len() && (#[trigger] self.parts()[j]).key == *key
                            && self.parts()[j].window == *window implies cloned(self.parts()[j].state.value(), r) by {
                        if j < i {
                            assert(!(self.parts()[j].key == self.parts()[i as int].key && self.parts()[j].window
                                == self.parts()[i as int].window));
                        }
                        if i < j {
                            assert(!(self.parts()[i as int].key == self.parts()[j].key && self.parts()[i as int].window
                                == self.parts()[j].window));
                        }
                    }
                }
                r
            },
            None => self.spec.zero(),
        }
    }

    /// Drops the state of a key and a window.
    pub fn purge_window(&mut self, key: &K, window: &W)
        requires
            lawful::<K>(),
            lawful::<W>(),
            old(self).wf(),
        ensures
            final(self).wf(),
            final(self).same_setup(old(self)),
            no_partition(final(self).parts(), *key, *window),
            no_partition(old(self).parts(), *key, *window) ==> final(self).parts() == old(self).parts(),
            forall|i: int|
                0 <= i < old(self).parts().len() && (#[trigger] old(self).parts()[i]).key == *key && old(
                    self,
                ).parts()[i].window == *window ==> final(self).parts() == old(self).parts().remove(i),
    {
        let ghost before = self.parts();
        match self.locate(key, window) {
            Some(i) => {
                self.partitions.remove(i);
                proof {
                    let after = self.parts();
                    assert(after == before.remove(i as int));
                    assert forall|a: int| 0 <= a < after.len() implies #[trigger] after[a] == before[if a < i {
                        a
                    } else {
                        a + 1
                    }] by {}
                    assert forall|a: int, b: int| 0 <= a < b < after.len() implies !((#[trigger] after[a]).key == (
                    #[trigger] after[b]).key && after[a].window == after[b].window) by {
                        let a2 = if a < i { a } else { a + 1 };
                        let b2 = if b < i { b } else { b + 1 };
                        assert(!(before[a2].key == before[b2].key && before[a2].window == before[b2].window));
                    }
                    assert forall|a: int| 0 <= a < after.len() implies !((#[trigger] after[a]).key == *key
                        && after[a].window == *window) by {
                        let a2 = if a < i { a } else { a + 1 };
                        if a2 < i {
                            assert(!(before[a2].key == before[i as int].key && before[a2].window
                                == before[i as int].window));
                        } else {
                            assert(!(before[i as int].key == before[a2].key && before[i as int].window
                                == before[a2].window));
                        }
                    }
                    assert forall|a: int| 0 <= a < after.len() implies self.part_ok(#[trigger] after[a]) by {
                        let a2 = if a < i { a } else { a + 1 };
                        assert(old(self).part_ok(before[a2]));
                    }
                    assert forall|j: int|
                        0 <= j < before.len() && (#[trigger] before[j]).key == *key && before[j].window
                            == *window implies after == before.remove(j) by {
                        if j < i {
                            assert(!(before[j].key == before[i as int].key && before[j].window == before[i as int].window));
                        }
                        if i < j {
                            assert(!(before[i as int].key == before[j].key && before[i as int].window == before[j].window));
                        }
                    }
                }
            },
            None => {},
        }
    }

    /// Where the state of a key and a window stands; a fresh one is added if
    /// there is none.
    fn locate_or_add(&mut self, key: &K, window: &W) -> (r: (usize, Ghost<bool>))
        where S: Clone
        requires
            lawful::<K>(),
            lawful::<W>(),
            forall|a: S, b: S| #[trigger] cloned(a, b) ==> a == b,
            old(self).wf(),
        ensures
            final(self).wf(),
            final(self).same_setup(old(self)),
            r.0 < final(self).parts().len(),
            final(self).parts()[r.0 as int].key == *key,
            final(self).parts()[r.0 as int].window == *window,
            !r.1@ ==> final(self).parts() == old(self).parts(),
            r.1@ ==> {
                &&& no_partition(old(self).parts(), *key, *window)
                &&& r.0 == old(self).parts().len()
                &&& final(self).parts() == old(self).parts().push(final(self).parts().last())
                &&& is_fresh(&final(self).parts().last().state, old(self).ring(), old(self).interval())
            },
    {
        let ghost before = self.parts();
        match self.locate(key, window) {
            Some(i) => (i, Ghost(false)),
            None => {
                let spec = self.spec.clone();
                assert(cloned(self.spec, spec));
                let state = WindowJoinState::new(spec, self.bounds);
                let n: usize = self.partitions.len();
                self.partitions.push(Partition { key: dup(key), window: dup(window), state });
                proof {
                    assert(self.parts() =~= before.push(self.parts().last()));
                    assert forall|a: int| 0 <= a < self.parts().len() implies self.part_ok(
                        #[trigger] self.parts()[a],
                    ) by {
                        if a < n {
                            assert(old(self).part_ok(before[a]));
                        }
                    }
                }
                (n, Ghost(true))
            },
        }
    }

    /// Inserts a left element. Returns what it did, window by window.
    #[verifier::rlimit(40)]
    pub fn process_left(&mut self, timestamp: i64, element: S::L) -> (r: Vec<JoinAggregateResult<K, W, S::V>>)
        where S: Clone, S::L: Clone, A: WindowAssigner<W>, FL: Fn(&S::L) -> K
        requires
            lawful::<K>(),
            lawful::<W>(),
            lawful::<S::PL>(),
            lawful::<S::PR>(),
            forall|a: S, b: S| #[trigger] cloned(a, b) ==> a == b,
            forall|a: S::L, b: S::L| #[trigger] cloned(a, b) ==> a == b,
            old(self).wf(),
            call_requires(old(self).left_keys(), (&element,)),
            i64::MIN <= timestamp + old(self).interval().lower,
            timestamp + old(self).interval().upper <= i64::MAX,
            old(self).window_source().windows(timestamp).len() < u64::MAX,
            forall|i: int|
                0 <= i < old(self).parts().len() ==> (#[trigger] old(self).parts()[i]).state.left_items().len() + old(
                    self,
                ).window_source().windows(timestamp).len() < u64::MAX,
        ensures
            final(self).wf(),
            final(self).same_setup(old(self)),
            exists|key: K, run: Seq<Seq<Partition<S, K, W>>>| #[trigger]
                call_ensures(old(self).left_keys(), (&element,), key) && #[trigger] is_left_run(
                    run,
                    old(self).ring(),
                    old(self).interval(),
                    old(self).window_source().windows(timestamp),
                    timestamp,
                    element,
                    r@,
                ) && run[0] == old(self).parts() && run[run.len() - 1] == final(self).parts() && forall|i: int|
                    0 <= i < r@.len() ==> (#[trigger] r@[i]).key == key,
    {
        let ghost spec = self.ring();
        let ghost bounds = self.interval();
        let key = (self.left_extractor)(&element);
        let windows = self.assigner.assign(timestamp);
        let ghost ws = windows@;
        let ghost mut run: Seq<Seq<Partition<S, K, W>>> = seq![self.parts()];
        let mut out: Vec<JoinAggregateResult<K, W, S::V>> = Vec::new();
        let mut i: usize = 0;
        while i < windows.len()
            invariant
                lawful::<K>(),
                lawful::<W>(),
                lawful::<S::PL>(),
                lawful::<S::PR>(),
                forall|a: S, b: S| #[trigger] cloned(a, b) ==> a == b,
                forall|a: S::L, b: S::L| #[trigger] cloned(a, b) ==> a == b,
                self.wf(),
                self.same_setup(old(self)),
                spec == self.ring(),
                bounds == self.interval(),
                ws == windows@,
                ws == old(self).window_source().windows(timestamp),
                ws.len() < u64::MAX,
                i64::MIN <= timestamp + bounds.lower,
                timestamp + bounds.upper <= i64::MAX,
                i <= ws.len(),
                out@.len() == i,
                run.len() == i + 1,
                run[0] == old(self).parts(),
                run[run.len() - 1] == self.parts(),
                forall|j: int| 0 <= j < i ==> (#[trigger] out@[j]).key == key,
                forall|j: int|
                    0 <= j < i ==> left_step(
                        run[j],
                        run[j + 1],
                        spec,
                        bounds,
                        ws[j],
                        timestamp,
                        element,
                        #[trigger] out@[j],
                    ),
                forall|j: int|
                    0 <= j < self.parts().len() ==> (#[trigger] self.parts()[j]).state.left_items().len() + (ws.len()
                        - i) < u64::MAX,
            decreases ws.len() - i,
        {
            let ghost before = self.parts();
            let window = &windows[i];
            let (at, Ghost(added)) = self.locate_or_add(&key, window);
            let ghost mid = self.parts();
            let ghost state = mid[at as int].state;
            let copy = element.clone();
            assert(cloned(element, copy));
            proof {
                assert(self.part_ok(mid[at as int]));
                if !added {
                    assert(before[at as int].state.left_items().len() + (ws.len() - i) < u64::MAX);
                }
            }
            proof {
                lemma_no_key_lawful();
            }
            let delta = self.partitions[at].state.insert_left(timestamp, copy);
            let aggregate = self.partitions[at].state.aggregate();
            let ghost next = self.parts()[at as int].state;
            let result = JoinAggregateResult {
                key: dup(&key),
                window: dup(window),
                aggregate,
                delta,
                side: Side::Left,
            };
            proof {
                let after = self.parts();
                assert(after =~= mid.update(at as int, Partition { key, window: *window, state: next }));
                lemma_changed(before, mid, after, at as int, added, key, *window, state, next, spec, bounds);
                assert(partition_changed(before, after, result.key, ws[i as int], state, next, spec, bounds));
                assert(copy == element);
                assert(left_inserted(&state, &next, timestamp, element, result.delta));
                assert(cloned(next.value(), result.aggregate));
                assert(result.window == ws[i as int]);
                assert(left_step(before, after, spec, bounds, ws[i as int], timestamp, element, result));
                let longer = run.push(after);
                assert forall|j: int| 0 <= j < i implies left_step(
                    longer[j],
                    longer[j + 1],
                    spec,
                    bounds,
                    ws[j],
                    timestamp,
                    element,
                    #[trigger] out@[j],
                ) by {
                    assert(longer[j] == run[j] && longer[j + 1] == run[j + 1]);
                }
                assert(longer[i as int] == before && longer[i + 1] == after);
                run = longer;
                assert forall|j: int| 0 <= j < after.len() implies self.part_ok(#[trigger] after[j]) by {
                    if j != at {
                        assert(after[j] == mid[j]);
                    }
                }
                assert forall|a: int, b: int| 0 <= a < b < after.len() implies !((#[trigger] after[a]).key == (
                #[trigger] after[b]).key && after[a].window == after[b].window) by {
                    assert(!(mid[a].key == mid[b].key && mid[a].window == mid[b].window));
                }
                assert forall|j: int| 0 <= j < after.len() implies (#[trigger] after[j]).state.left_items().len() + (
                ws.len() - (i + 1)) < u64::MAX by {
                    if j != at {
                        assert(after[j] == mid[j]);
                        assert(before[j].state.left_items().len() + (ws.len() - i) < u64::MAX);
                    } else {
                        lemma_left_grows(&state, &next, timestamp, copy, delta);
                    }
                }
            }
            out.push(result);
            i += 1;
        }
        proof {
            assert(is_left_run(run, spec, bounds, ws, timestamp, element, out@));
        }
        out
    }

    /// Inserts a right element. Returns what it did, window by window.
    #[verifier::rlimit(40)]
    pub fn process_right(&mut self, timestamp: i64, element: S::R) -> (r: Vec<JoinAggregateResult<K, W, S::V>>)
        where S: Clone, S::R: Clone, A: WindowAssigner<W>, FR: Fn(&S::R) -> K
        requires
            lawful::<K>(),
            lawful::<W>(),
            lawful::<S::PL>(),
            lawful::<S::PR>(),
            forall|a: S, b: S| #[trigger] cloned(a, b) ==> a == b,
            forall|a: S::R, b: S::R| #[trigger] cloned(a, b) ==> a == b,
            old(self).wf(),
            call_requires(old(self).right_keys(), (&element,)),
            i64::MIN <= timestamp - old(self).interval().upper,
            timestamp - old(self).interval().lower <= i64::MAX,
            old(self).window_source().windows(timestamp).len() < u64::MAX,
            forall|i: int|
                0 <= i < old(self).parts().len() ==> (#[trigger] old(self).parts()[i]).state.right_items().len() + old(
                    self,
                ).window_source().windows(timestamp).len() < u64::MAX,
        ensures
            final(self).wf(),
            final(self).same_setup(old(self)),
            exists|key: K, run: Seq<Seq<Partition<S, K, W>>>| #[trigger]
                call_ensures(old(self).right_keys(), (&element,), key) && #[trigger] is_right_run(
                    run,
                    old(self).ring(),
                    old(self).interval(),
                    old(self).window_source().windows(timestamp),
                    timestamp,
                    element,
                    r@,
                ) && run[0] == old(self).parts() && run[run.len() - 1] == final(self).parts() && forall|i: int|
                    0 <= i < r@.len() ==> (#[trigger] r@[i]).key == key,
    {
        let ghost spec = self.ring();
        let ghost bounds = self.interval();
        let key = (self.right_extractor)(&element);
        let windows = self.assigner.assign(timestamp);
        let ghost ws = windows@;
        let ghost mut run: Seq<Seq<Partition<S, K, W>>> = seq![self.parts()];
        let mut out: Vec<JoinAggregateResult<K, W, S::V>> = Vec::new();
        let mut i: usize = 0;
        while i < windows.len()
            invariant
                lawful::<K>(),
                lawful::<W>(),
                lawful::<S::PL>(),
                lawful::<S::PR>(),
                forall|a: S, b: S| #[trigger] cloned(a, b) ==> a == b,
                forall|a: S::R, b: S::R| #[trigger] cloned(a, b) ==> a == b,
                self.wf(),
                self.same_setup(old(self)),
                spec == self.ring(),
                bounds == self.interval(),
                ws == windows@,
                ws == old(self).window_source().windows(timestamp),
                ws.len() < u64::MAX,
                i64::MIN <= timestamp - bounds.upper,
                timestamp - bounds.lower <= i64::MAX,
                i <= ws.len(),
                out@.len() == i,
                run.len() == i + 1,
                run[0] == old(self).parts(),
                run[run.len() - 1] == self.parts(),
                forall|j: int| 0 <= j < i ==> (#[trigger] out@[j]).key == key,
                forall|j: int|
                    0 <= j < i ==> right_step(
                        run[j],
                        run[j + 1],
                        spec,
                        bounds,
                        ws[j],
                        timestamp,
                        element,
                        #[trigger] out@[j],
                    ),
                forall|j: int|
                    0 <= j < self.parts().len() ==> (#[trigger] self.parts()[j]).state.right_items().len() + (ws.len()
                        - i) < u64::MAX,
            decreases ws.len() - i,
        {
            let ghost before = self.parts();
            let window = &windows[i];
            let (at, Ghost(added)) = self.locate_or_add(&key, window);
            let ghost mid = self.parts();
            let ghost state = mid[at as int].state;
            let copy = element.clone();
            assert(cloned(element, copy));
            proof {
                assert(self.part_ok(mid[at as int]));
                if !added {
                    assert(before[at as int].state.right_items().len() + (ws.len() - i) < u64::MAX);
                }
            }
            proof {
                lemma_no_key_lawful();
            }
            let delta = self.partitions[at].state.insert_right(timestamp, copy);
            let aggregate = self.partitions[at].state.aggregate();
            let ghost next = self.parts()[at as int].state;
            let result = JoinAggregateResult {
                key: dup(&key),
                window: dup(window),
                aggregate,
                delta,
                side: Side::Right,
            };
            proof {
                let after = self.parts();
                assert(after =~= mid.update(at as int, Partition { key, window: *window, state: next }));
                lemma_changed(before, mid, after, at as int, added, key, *window, state, next, spec, bounds);
                assert(partition_changed(before, after, result.key, ws[i as int], state, next, spec, bounds));
                assert(copy == element);
                assert(right_inserted(&state, &next, timestamp, element, result.delta));
                assert(cloned(next.value(), result.aggregate));
                assert(result.window == ws[i as int]);
                assert(right_step(before, after, spec, bounds, ws[i as int], timestamp, element, result));
                let longer = run.push(after);
                assert forall|j: int| 0 <= j < i implies right_step(
                    longer[j],
                    longer[j + 1],
                    spec,
                    bounds,
                    ws[j],
                    timestamp,
                    element,
                    #[trigger] out@[j],
                ) by {
                    assert(longer[j] == run[j] && longer[j + 1] == run[j + 1]);
                }
                assert(longer[i as int] == before && longer[i + 1] == after);
                run = longer;
                assert forall|j: int| 0 <= j < after.len() implies self.part_ok(#[trigger] after[j]) by {
                    if j != at {
                        assert(after[j] == mid[j]);
                    }
                }
                assert forall|a: int, b: int| 0 <= a < b < after.len() implies !((#[trigger] after[a]).key == (
                #[trigger] after[b]).key && after[a].window == after[b].window) by {
                    assert(!(mid[a].key == mid[b].key && mid[a].window == mid[b].window));
                }
                assert forall|j: int| 0 <= j < after.len() implies (#[trigger] after[j]).state.right_items().len() + (
                ws.len() - (i + 1)) < u64::MAX by {
                    if j != at {
                        assert(after[j] == mid[j]);
                        assert(before[j].state.right_items().len() + (ws.len() - i) < u64::MAX);
                    } else {
                        lemma_right_grows(&state, &next, timestamp, copy, delta);
                    }
                }
            }
            out.push(result);
            i += 1;
        }
        proof {
            assert(is_right_run(run, spec, bounds, ws, timestamp, element, out@));
        }
        out
    }
}

proof fn lemma_changed<S: JoinAggregateSpec, K, W>(
    before: Seq<Partition<S, K, W>>,
    mid: Seq<Partition<S, K, W>>,
    after: Seq<Partition<S, K, W>>,
    at: int,
    added: bool,
    key: K,
    window: W,
    state: WindowJoinState<S>,
    next: WindowJoinState<S>,
    spec: S,
    bounds: IntervalBounds,
)
    requires
        0 <= at < mid.len(),
        mid[at] == (Partition { key, window, state }),
        after == mid.update(at, Partition { key, window, state: next }),
        !added ==> mid == before,
        added ==> no_partition(before, key, window) && at == before.len() && mid == before.push(mid.last())
            && is_fresh(&state, spec, bounds),
    ensures
        partition_changed(before, after, key, window, state, next, spec, bounds),
{
    if added {
        assert(after =~= before.push(Partition { key, window, state: next }));
    } else {
        assert(before[at] == (Partition { key, window, state }));
    }
}

proof fn lemma_left_grows<S: JoinAggregateSpec>(
    before: &WindowJoinState<S>,
    after: &WindowJoinState<S>,
    timestamp: i64,
    element: S::L,
    delta: S::V,
)
    requires
        left_inserted(before, after, timestamp, element, delta),
    ensures
        after.left_items().len() == before.left_items().len() + 1,
{
}

proof fn lemma_right_grows<S: JoinAggregateSpec>(
    before: &WindowJoinState<S>,
    after: &WindowJoinState<S>,
    timestamp: i64,
    element: S::R,
    delta: S::V,
)
    requires
        right_inserted(before, after, timestamp, element, delta),
    ensures
        after.right_items().len() == before.right_items().len() + 1,
{
}

/// The states have the operator's ring and bounds.
pub open spec fn set_up<S: JoinAggregateSpec, K, W>(
    partitions: Seq<Partition<S, K, W>>,
    spec: S,
    bounds: IntervalBounds,
) -> bool {
    forall|i: int|
        0 <= i < partitions.len() ==> (#[trigger] partitions[i]).state.ring() == spec && partitions[i].state.interval()
            == bounds && !partitions[i].state.key_mode()
}

/// The aggregate of each key and window is that of the join of what came for
/// them.
pub open spec fn all_joined<S: JoinAggregateSpec, K, W>(partitions: Seq<Partition<S, K, W>>) -> bool {
    forall|i: int| 0 <= i < partitions.len() ==> consistent(&(#[trigger] partitions[i]).state)
}

/// A left element keeps the aggregate of every key and window that of the join
/// of what came for them.
pub proof fn law_left_element_keeps_the_joins<S: JoinAggregateSpec, K, W>(
    before: Seq<Partition<S, K, W>>,
    after: Seq<Partition<S, K, W>>,
    spec: S,
    bounds: IntervalBounds,
    window: W,
    timestamp: i64,
    element: S::L,
    r: JoinAggregateResult<K, W, S::V>,
)
    requires
        is_ring(&spec),
        set_up(before, spec, bounds),
        set_up(after, spec, bounds),
        all_joined(before),
        left_step(before, after, spec, bounds, window, timestamp, element, r),
    ensures
        all_joined(after),
{
    let (state, next) = choose|state: WindowJoinState<S>, next: WindowJoinState<S>| #[trigger]
        partition_changed(before, after, r.key, window, state, next, spec, bounds) && left_inserted(
            &state,
            &next,
            timestamp,
            element,
            r.delta,
        ) && cloned(next.value(), r.aggregate) && r.window == window && r.side == Side::Left;
    let changed = Partition { key: r.key, window, state: next };
    if exists|i: int|
        0 <= i < before.len() && #[trigger] before[i] == (Partition { key: r.key, window, state }) && after
            == before.update(i, changed) {
        let i = choose|i: int|
            0 <= i < before.len() && #[trigger] before[i] == (Partition { key: r.key, window, state }) && after
                == before.update(i, changed);
        assert(after[i] == changed);
        assert(consistent(&before[i].state));
        law_insert_left(&state, &next, timestamp, element, r.delta);
        assert forall|j: int| 0 <= j < after.len() implies consistent(&(#[trigger] after[j]).state) by {
            if j != i {
                assert(after[j] == before[j]);
            }
        }
    } else {
        assert(after[before.len() as int] == changed);
        law_empty_is_consistent(&state);
        law_insert_left(&state, &next, timestamp, element, r.delta);
        assert forall|j: int| 0 <= j < after.len() implies consistent(&(#[trigger] after[j]).state) by {
            if j < before.len() {
                assert(after[j] == before[j]);
            }
        }
    }
}

/// A right element keeps the aggregate of every key and window that of the join
/// of what came for them.
pub proof fn law_right_element_keeps_the_joins<S: JoinAggregateSpec, K, W>(
    before: Seq<Partition<S, K, W>>,
    after: Seq<Partition<S, K, W>>,
    spec: S,
    bounds: IntervalBounds,
    window: W,
    timestamp: i64,
    element: S::R,
    r: JoinAggregateResult<K, W, S::V>,
)
    requires
        is_ring(&spec),
        set_up(before, spec, bounds),
        set_up(after, spec, bounds),
        all_joined(before),
        right_step(before, after, spec, bounds, window, timestamp, element, r),
    ensures
        all_joined(after),
{
    let (state, next) = choose|state: WindowJoinState<S>, next: WindowJoinState<S>| #[trigger]
        partition_changed(before, after, r.key, window, state, next, spec, bounds) && right_inserted(
            &state,
            &next,
            timestamp,
            element,
            r.delta,
        ) && cloned(next.value(), r.aggregate) && r.window == window && r.side == Side::Right;
    let changed = Partition { key: r.key, window, state: next };
    if exists|i: int|
        0 <= i < before.len() && #[trigger] before[i] == (Partition { key: r.key, window, state }) && after
            == before.update(i, changed) {
        let i = choose|i: int|
            0 <= i < before.len() && #[trigger] before[i] == (Partition { key: r.key, window, state }) && after
                == before.update(i, changed);
        assert(after[i] == changed);
        assert(consistent(&before[i].state));
        law_insert_right(&state, &next, timestamp, element, r.delta);
        assert forall|j: int| 0 <= j < after.len() implies consistent(&(#[trigger] after[j]).state) by {
            if j != i {
                assert(after[j] == before[j]);
            }
        }
    } else {
        assert(after[before.len() as int] == changed);
        law_empty_is_consistent(&state);
        law_insert_right(&state, &next, timestamp, element, r.delta);
        assert forall|j: int| 0 <= j < after.len() implies consistent(&(#[trigger] after[j]).state) by {
            if j < before.len() {
                assert(after[j] == before[j]);
            }
        }
    }
}

} // verus!
