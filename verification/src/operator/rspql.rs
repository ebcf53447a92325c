//! RSP-QL's relation-to-stream operators on window updates.
use vstd::prelude::*;

use crate::listing::{concat, dup, lawful, lemma_concat_take, same};

verus! {

/// What entered and what left a window.
#[derive(Clone, Debug)]
pub struct WindowUpdate<T> {
    pub added: Vec<T>,
    pub removed: Vec<T>,
    pub window_start: i64,
    pub window_end: i64,
    pub timestamp: i64,
}

impl<T> WindowUpdate<T> {
    pub fn new(added: Vec<T>, removed: Vec<T>, window_start: i64, window_end: i64, timestamp: i64) -> (r: Self)
        ensures
            r == (WindowUpdate { added, removed, window_start, window_end, timestamp }),
    {
        WindowUpdate { added, removed, window_start, window_end, timestamp }
    }
}

/// All that a window holds.
#[derive(Clone, Debug)]
pub struct WindowSnapshot<T> {
    pub contents: Vec<T>,
    pub window_start: i64,
    pub window_end: i64,
    pub timestamp: i64,
}

pub open spec fn additions<T>() -> spec_fn(WindowUpdate<T>) -> Seq<T> {
    |u: WindowUpdate<T>| u.added@
}

pub open spec fn removals<T>() -> spec_fn(WindowUpdate<T>) -> Seq<T> {
    |u: WindowUpdate<T>| u.removed@
}

/// ISTREAM: what enters the window.
pub struct IStreamOperator;

/// Puts `tail` behind `head`.
fn extend<T>(head: &mut Vec<T>, tail: Vec<T>)
    ensures
        final(head)@ == old(head)@ + tail@,
{
    let mut tail = tail;
    head.append(&mut tail);
}

impl IStreamOperator {
    /// What entered with each update, in the order of the updates.
    pub fn apply<T: Clone>(updates: Vec<WindowUpdate<T>>) -> (r: Vec<T>)
        ensures
            r@ == concat(updates@, additions()),
    {
        let ghost given = updates@;
        let ghost mut k: int = 0;
        let mut r: Vec<T> = Vec::new();
        let rest = updates;
        for u in iter: rest
            invariant
                0 <= k <= given.len(),
                iter.seq() == given,
                iter.index() == k,
                r@ == concat(given.take(k), additions()),
        {
            extend(&mut r, u.added);
            proof {
                lemma_concat_take(given, k, additions());
                k = k + 1;
            }
        }
        assert(given.take(k) =~= given);
        r
    }
}

/// DSTREAM: what leaves the window.
pub struct DStreamOperator;

impl DStreamOperator {
    /// What left with each update, in the order of the updates.
    pub fn apply<T: Clone>(updates: Vec<WindowUpdate<T>>) -> (r: Vec<T>)
        ensures
            r@ == concat(updates@, removals()),
    {
        let ghost given = updates@;
        let ghost mut k: int = 0;
        let mut r: Vec<T> = Vec::new();
        let rest = updates;
        for u in iter: rest
            invariant
                0 <= k <= given.len(),
                iter.seq() == given,
                iter.index() == k,
                r@ == concat(given.take(k), removals()),
        {
            extend(&mut r, u.removed);
            proof {
                lemma_concat_take(given, k, removals());
                k = k + 1;
            }
        }
        assert(given.take(k) =~= given);
        r
    }
}

/// What the window holds after some updates: each adds elements, and then
/// removes elements.
pub open spec fn window_after<T>(updates: Seq<WindowUpdate<T>>) -> Set<T>
    decreases updates.len(),
{
    if updates.len() == 0 {
        Set::empty()
    } else {
        held_after(window_after(updates.drop_last()), updates.last())
    }
}

/// What a window holds after one update: what it held and what came, but for
/// what left.
pub open spec fn held_after<T>(held: Set<T>, update: WindowUpdate<T>) -> Set<T> {
    held.union(update.added@.to_set()).difference(update.removed@.to_set())
}

/// A listing holds each element of the set once and nothing else.
pub open spec fn lists<T>(s: Seq<T>, contents: Set<T>) -> bool {
    &&& s.no_duplicates()
    &&& forall|x: T| #[trigger] s.contains(x) <==> contents.contains(x)
}

/// The snapshot holds what the window holds after some updates, with the
/// bounds and the time of the last of them.
pub open spec fn snapshot_after<T>(updates: Seq<WindowUpdate<T>>, s: WindowSnapshot<T>) -> bool {
    &&& lists(s.contents@, window_after(updates))
    &&& s.window_start == updates.last().window_start
    &&& s.window_end == updates.last().window_end
    &&& s.timestamp == updates.last().timestamp
}

fn position<T: Eq + Clone>(s: &Vec<T>, x: &T) -> (r: Option<usize>)
    requires
        lawful::<T>(),
    ensures
        match r {
            Some(i) => i < s@.len() && s@[i as int] == *x,
            None => !s@.contains(*x),
        },
{
    let mut i: usize = 0;
    while i < s.len()
        invariant
            lawful::<T>(),
            i <= s@.len(),
            forall|j: int| 0 <= j < i ==> s@[j] != *x,
        decreases s@.len() - i,
    {
        if same(&s[i], x) {
            return Some(i);
        }
        i += 1;
    }
    None
}

fn enter<T: Eq + Clone>(state: &mut Vec<T>, x: &T, Ghost(contents): Ghost<Set<T>>)
    requires
        lawful::<T>(),
        lists(old(state)@, contents),
    ensures
        lists(final(state)@, contents.insert(*x)),
{
    let ghost before = state@;
    match position(state, x) {
        Some(i) => {
            assert(before.contains(*x));
        },
        None => {
            state.push(dup(x));
            proof {
                let after = state@;
                assert(after == before.push(*x));
                assert forall|y: T| #[trigger] after.contains(y) <==> contents.insert(*x).contains(y) by {
                    if contents.insert(*x).contains(y) {
                        if y == *x {
                            assert(after[before.len() as int] == y);
                        } else {
                            assert(before.contains(y));
                            let j = choose|j: int| 0 <= j < before.len() && before[j] == y;
                            assert(after[j] == y);
                        }
                    }
                    if after.contains(y) && y != *x {
                        let j = choose|j: int| 0 <= j < after.len() && after[j] == y;
                        assert(before[j] == y);
                        assert(before.contains(y));
                    }
                }
                assert(after.no_duplicates()) by {
                    assert forall|i: int, j: int| 0 <= i < after.len() && 0 <= j < after.len() && i != j implies after[i]
                        != after[j] by {
                        if i < before.len() {
                            assert(before.contains(before[i]));
                        }
                        if j < before.len() {
                            assert(before.contains(before[j]));
                        }
                    }
                }
            }
        },
    }
}

fn leave<T: Eq + Clone>(state: &mut Vec<T>, x: &T, Ghost(contents): Ghost<Set<T>>)
    requires
        lawful::<T>(),
        lists(old(state)@, contents),
    ensures
        lists(final(state)@, contents.remove(*x)),
{
    let ghost before = state@;
    match position(state, x) {
        Some(i) => {
            state.remove(i);
            proof {
                let after = state@;
                let at = i as int;
                assert(after == before.remove(at));
                assert forall|y: T| #[trigger] after.contains(y) <==> contents.remove(*x).contains(y) by {
                    if contents.remove(*x).contains(y) {
                        assert(before.contains(y));
                        let j = choose|j: int| 0 <= j < before.len() && before[j] == y;
                        if j < at {
                            assert(after[j] == y);
                        } else {
                            assert(after[j - 1] == y);
                        }
                    }
                    if after.contains(y) {
                        let j = choose|j: int| 0 <= j < after.len() && after[j] == y;
                        if j < at {
                            assert(before[j] == y);
                        } else {
                            assert(before[j + 1] == y);
                        }
                        assert(before.contains(y));
                    }
                }
                assert(after.no_duplicates());
            }
        },
        None => {
            assert(!before.contains(*x));
        },
    }
}

/// RSTREAM: all that the window holds, at each update.
pub struct RStreamOperator;

impl RStreamOperator {
    /// Takes one update into the window's contents.
    fn advance<T: Eq + Clone>(state: &mut Vec<T>, update: &WindowUpdate<T>)
        requires
            lawful::<T>(),
            old(state)@.no_duplicates(),
        ensures
            lists(final(state)@, held_after(old(state)@.to_set(), *update)),
    {
        let ghost start = state@.to_set();
        let mut i: usize = 0;
        assert(start.union(update.added@.take(0).to_set()) =~= start);
        while i < update.added.len()
            invariant
                lawful::<T>(),
                i <= update.added@.len(),
                lists(state@, start.union(update.added@.take(i as int).to_set())),
            decreases update.added@.len() - i,
        {
            let ghost held = start.union(update.added@.take(i as int).to_set());
            enter(state, &update.added[i], Ghost(held));
            proof {
                lemma_take_set(update.added@, i as int);
                assert(held.insert(update.added@[i as int]) =~= start.union(update.added@.take(i + 1).to_set()));
            }
            i += 1;
        }
        assert(update.added@.take(i as int) =~= update.added@);
        let ghost full = start.union(update.added@.to_set());
        let mut j: usize = 0;
        assert(full.difference(update.removed@.take(0).to_set()) =~= full);
        while j < update.removed.len()
            invariant
                lawful::<T>(),
                j <= update.removed@.len(),
                lists(state@, full.difference(update.removed@.take(j as int).to_set())),
            decreases update.removed@.len() - j,
        {
            let ghost held = full.difference(update.removed@.take(j as int).to_set());
            leave(state, &update.removed[j], Ghost(held));
            proof {
                lemma_take_set(update.removed@, j as int);
                assert(held.remove(update.removed@[j as int]) =~= full.difference(
                    update.removed@.take(j + 1).to_set(),
                ));
            }
            j += 1;
        }
        assert(update.removed@.take(j as int) =~= update.removed@);
    }

    /// Takes one update into the window's contents, and gives the snapshot
    /// after it.
    pub fn step<T: Eq + Clone>(state: &mut Vec<T>, update: &WindowUpdate<T>) -> (r: WindowSnapshot<T>)
        requires
            lawful::<T>(),
            old(state)@.no_duplicates(),
        ensures
            lists(final(state)@, held_after(old(state)@.to_set(), *update)),
            r.contents@ == final(state)@,
            r.window_start == update.window_start,
            r.window_end == update.window_end,
            r.timestamp == update.timestamp,
    {
        Self::advance(state, update);
        WindowSnapshot {
            contents: copy(state),
            window_start: update.window_start,
            window_end: update.window_end,
            timestamp: update.timestamp,
        }
    }

    /// The snapshot after each update.
    pub fn apply<T: Eq + Clone>(updates: &Vec<WindowUpdate<T>>) -> (r: Vec<WindowSnapshot<T>>)
        requires
            lawful::<T>(),
        ensures
            r@.len() == updates@.len(),
            forall|i: int| 0 <= i < r@.len() ==> snapshot_after(updates@.take(i + 1), #[trigger] r@[i]),
    {
        let mut state: Vec<T> = Vec::new();
        let mut r: Vec<WindowSnapshot<T>> = Vec::new();
        let mut i: usize = 0;
        while i < updates.len()
            invariant
                lawful::<T>(),
                i <= updates@.len(),
                r@.len() == i,
                lists(state@, window_after(updates@.take(i as int))),
                forall|j: int| 0 <= j < i ==> snapshot_after(updates@.take(j + 1), #[trigger] r@[j]),
            decreases updates@.len() - i,
        {
            let u = &updates[i];
            assert(state@.to_set() =~= window_after(updates@.take(i as int)));
            assert(updates@.take(i + 1).drop_last() =~= updates@.take(i as int));
            assert(updates@.take(i + 1).last() == *u);
            let snapshot = Self::step(&mut state, u);
            r.push(snapshot);
            i += 1;
        }
        r
    }
}

fn copy<T: Eq + Clone>(s: &Vec<T>) -> (r: Vec<T>)
    requires
        lawful::<T>(),
    ensures
        r@ == s@,
{
    let mut r: Vec<T> = Vec::new();
    let mut i: usize = 0;
    while i < s.len()
        invariant
            lawful::<T>(),
            i <= s@.len(),
            r@ == s@.take(i as int),
        decreases s@.len() - i,
    {
        r.push(dup(&s[i]));
        i += 1;
        assert(r@ =~= s@.take(i as int));
    }
    assert(s@.take(i as int) =~= s@);
    r
}

proof fn lemma_take_set<T>(s: Seq<T>, i: int)
    requires
        0 <= i < s.len(),
    ensures
        s.take(i + 1).to_set() == s.take(i).to_set().insert(s[i]),
{
    assert forall|x: T| s.take(i + 1).to_set().contains(x) <==> s.take(i).to_set().insert(s[i]).contains(x) by {
        if s.take(i + 1).contains(x) {
            let j = s.take(i + 1).index_of(x);
            if j < i {
                assert(s.take(i)[j] == x);
            }
        }
        if s.take(i).contains(x) {
            let j = s.take(i).index_of(x);
            assert(s.take(i + 1)[j] == x);
        }
        if x == s[i] {
            assert(s.take(i + 1)[i] == x);
        }
    }
    assert(s.take(i + 1).to_set() =~= s.take(i).to_set().insert(s[i]));
}

/// An element that leaves with an update is not in the snapshot after it.
pub proof fn law_removed_are_gone<T>(updates: Seq<WindowUpdate<T>>, x: T)
    requires
        updates.len() > 0,
        updates.last().removed@.contains(x),
    ensures
        !window_after(updates).contains(x),
{
}

/// An element that enters with an update and does not leave with it is in the
/// snapshot after it.
pub proof fn law_added_are_held<T>(updates: Seq<WindowUpdate<T>>, x: T)
    requires
        updates.len() > 0,
        updates.last().added@.contains(x),
        !updates.last().removed@.contains(x),
    ensures
        window_after(updates).contains(x),
{
}

} // verus!
