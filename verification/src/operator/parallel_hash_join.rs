//! Hash join: the left side is collected by key, the right side is looked up.
use core::marker::PhantomData;
use vstd::prelude::*;

use crate::listing::{lawful, same};
use crate::operator::parallel::ParallelExecutionConfig;

verus! {

/// Elements by key.
pub struct JoinTable<K, L> {
    entries: Vec<(K, Vec<L>)>,
}

/// The elements whose key is `k`, in order.
pub open spec fn matching<K, L>(elements: Seq<L>, keys: Seq<K>, k: K) -> Seq<L>
    decreases elements.len(),
{
    if elements.len() == 0 {
        Seq::empty()
    } else {
        let before = matching(elements.drop_last(), keys.drop_last(), k);
        if keys.last() == k {
            before.push(elements.last())
        } else {
            before
        }
    }
}

impl<K, L> JoinTable<K, L> {
    /// Keys are distinct.
    pub closed spec fn wf(&self) -> bool {
        forall|i: int, j: int|
            0 <= i < j < self.entries@.len() ==> (#[trigger] self.entries@[i]).0 != (#[trigger] self.entries@[j]).0
    }

    spec fn has_entry(&self, k: K) -> bool {
        exists|i: int| 0 <= i < self.entries@.len() && (#[trigger] self.entries@[i]).0 == k
    }

    /// The elements with a key, in the order in which they came.
    pub closed spec fn rows(&self, k: K) -> Seq<L> {
        if self.has_entry(k) {
            let i = choose|i: int| 0 <= i < self.entries@.len() && (#[trigger] self.entries@[i]).0 == k;
            self.entries@[i].1@
        } else {
            Seq::empty()
        }
    }

    proof fn lemma_entry(&self, i: int)
        requires
            self.wf(),
            0 <= i < self.entries@.len(),
        ensures
            self.rows(self.entries@[i].0) == self.entries@[i].1@,
    {
        let k = self.entries@[i].0;
        assert(self.has_entry(k));
        let j = choose|j: int| 0 <= j < self.entries@.len() && (#[trigger] self.entries@[j]).0 == k;
        if i < j {
            assert(self.entries@[i].0 != self.entries@[j].0);
        } else if j < i {
            assert(self.entries@[j].0 != self.entries@[i].0);
        }
    }

    pub fn new() -> (r: Self)
        ensures
            r.wf(),
            forall|k: K| #[trigger] r.rows(k) == Seq::<L>::empty(),
    {
        JoinTable { entries: Vec::new() }
    }
}

impl<K: Eq + Clone, L> JoinTable<K, L> {
    fn locate(&self, k: &K) -> (r: usize)
        requires
            lawful::<K>(),
        ensures
            r <= self.entries@.len(),
            r < self.entries@.len() ==> self.entries@[r as int].0 == *k,
            r == self.entries@.len() ==> !self.has_entry(*k),
    {
        let mut i: usize = 0;
        while i < self.entries.len()
            invariant
                lawful::<K>(),
                i <= self.entries@.len(),
                forall|j: int| 0 <= j < i ==> (#[trigger] self.entries@[j]).0 != *k,
            decreases self.entries@.len() - i,
        {
            if same(&self.entries[i].0, k) {
                return i;
            }
            i += 1;
        }
        i
    }

    /// Adds an element behind those with its key.
    pub fn insert(&mut self, k: K, element: L)
        requires
            lawful::<K>(),
            old(self).wf(),
        ensures
            final(self).wf(),
            forall|q: K| #[trigger]
                final(self).rows(q) == if q == k {
                    old(self).rows(q).push(element)
                } else {
                    old(self).rows(q)
                },
    {
        let ghost before = *self;
        let at: usize = self.locate(&k);
        if at < self.entries.len() {
            let (key, mut list) = self.entries.remove(at);
            list.push(element);
            self.entries.insert(at, (key, list));
            proof {
                let after = *self;
                assert forall|i: int| 0 <= i < before.entries@.len() implies (#[trigger] after.entries@[i]).0
                    == before.entries@[i].0 && (i != at ==> after.entries@[i] == before.entries@[i]) by {}
                assert(after.wf()) by {
                    assert forall|i: int, j: int| 0 <= i < j < after.entries@.len() implies (
                    #[trigger] after.entries@[i]).0 != (#[trigger] after.entries@[j]).0 by {
                        assert(before.entries@[i].0 != before.entries@[j].0);
                    }
                }
                assert forall|q: K| #[trigger] after.rows(q) == if q == k {
                    before.rows(q).push(element)
                } else {
                    before.rows(q)
                } by {
                    if before.has_entry(q) {
                        let i = choose|i: int|
                            0 <= i < before.entries@.len() && (#[trigger] before.entries@[i]).0 == q;
                        before.lemma_entry(i);
                        assert(after.entries@[i].0 == q);
                        after.lemma_entry(i);
                        if q == k {
                            if i < at {
                                assert(before.entries@[i].0 != before.entries@[at as int].0);
                            } else if at < i {
                                assert(before.entries@[at as int].0 != before.entries@[i].0);
                            }
                        }
                    } else {
                        if after.has_entry(q) {
                            let i = choose|i: int|
                                0 <= i < after.entries@.len() && (#[trigger] after.entries@[i]).0 == q;
                            assert(before.entries@[i].0 == q);
                        }
                        if q == k {
                            assert(before.entries@[at as int].0 == q);
                        }
                    }
                }
            }
        } else {
            let mut list: Vec<L> = Vec::new();
            list.push(element);
            self.entries.push((k, list));
            proof {
                let after = *self;
                let n = before.entries@.len() as int;
                assert(after.entries@ == before.entries@.push((k, list)));
                assert(after.wf()) by {
                    assert forall|i: int, j: int| 0 <= i < j < after.entries@.len() implies (
                    #[trigger] after.entries@[i]).0 != (#[trigger] after.entries@[j]).0 by {
                        assert(after.entries@[i] == before.entries@[i]);
                        if j < n {
                            assert(before.entries@[i].0 != before.entries@[j].0);
                        }
                    }
                }
                assert forall|q: K| #[trigger] after.rows(q) == if q == k {
                    before.rows(q).push(element)
                } else {
                    before.rows(q)
                } by {
                    if before.has_entry(q) {
                        let i = choose|i: int|
                            0 <= i < before.entries@.len() && (#[trigger] before.entries@[i]).0 == q;
                        before.lemma_entry(i);
                        assert(after.entries@[i] == before.entries@[i]);
                        after.lemma_entry(i);
                    } else if q == k {
                        assert(after.entries@[n].0 == k);
                        after.lemma_entry(n);
                        assert(list@ =~= Seq::<L>::empty().push(element));
                    } else if after.has_entry(q) {
                        let i = choose|i: int|
                            0 <= i < after.entries@.len() && (#[trigger] after.entries@[i]).0 == q;
                        assert(before.entries@[i].0 == q);
                    }
                }
            }
        }
    }

    /// The elements with a key.
    pub fn get(&self, k: &K) -> (r: Option<&Vec<L>>)
        requires
            lawful::<K>(),
            self.wf(),
        ensures
            match r {
                Some(list) => list@ == self.rows(*k),
                None => self.rows(*k) == Seq::<L>::empty(),
            },
    {
        let at: usize = self.locate(k);
        if at < self.entries.len() {
            proof {
                self.lemma_entry(at as int);
            }
            Some(&self.entries[at].1)
        } else {
            None
        }
    }
}

/// Joins a small left side with a large right side by key.
#[verifier::reject_recursive_types(L)]
#[verifier::reject_recursive_types(R)]
#[verifier::reject_recursive_types(K)]
#[verifier::reject_recursive_types(Out)]
pub struct ParallelHashJoinOperator<L, R, K, Out, FL, FR, FJ> where
    FL: Fn(&L) -> K,
    FR: Fn(&R) -> K,
    FJ: Fn(&L, &R) -> Out,
 {
    left_key: FL,
    right_key: FR,
    join_fn: FJ,
    parallelism: usize,
    kinds: PhantomData<(L, R, K, Out)>,
}

/// A function may give these keys to the elements.
pub open spec fn keyed<L, K, FL: Fn(&L) -> K>(f: FL, elements: Seq<L>, keys: Seq<K>) -> bool {
    &&& keys.len() == elements.len()
    &&& forall|i: int| 0 <= i < keys.len() ==> call_ensures(f, (&elements[i],), #[trigger] keys[i])
}

/// A join function may give these results for the rows and a right element.
pub open spec fn joined_rows<L, R, Out, FJ: Fn(&L, &R) -> Out>(f: FJ, rows: Seq<L>, right: R, out: Seq<Out>) -> bool {
    &&& out.len() == rows.len()
    &&& forall|i: int| 0 <= i < out.len() ==> call_ensures(f, (&rows[i], &right), #[trigger] out[i])
}

/// The results of one right element.
pub open spec fn probed<L, R, K, Out, FR: Fn(&R) -> K, FJ: Fn(&L, &R) -> Out>(
    right_key: FR,
    join_fn: FJ,
    table: JoinTable<K, L>,
    right: R,
    out: Seq<Out>,
) -> bool {
    exists|k: K| #[trigger]
        call_ensures(right_key, (&right,), k) && joined_rows(join_fn, table.rows(k), right, out)
}

impl<L, R, K: Eq + Clone, Out, FL, FR, FJ> ParallelHashJoinOperator<L, R, K, Out, FL, FR, FJ> where
    FL: Fn(&L) -> K,
    FR: Fn(&R) -> K,
    FJ: Fn(&L, &R) -> Out,
 {
    pub closed spec fn left_keys(&self) -> FL {
        self.left_key
    }

    pub closed spec fn right_keys(&self) -> FR {
        self.right_key
    }

    pub closed spec fn joins(&self) -> FJ {
        self.join_fn
    }

    pub closed spec fn workers(&self) -> usize {
        self.parallelism
    }

    /// An operator with the default settings.
    pub fn new(left_key: FL, right_key: FR, join_fn: FJ) -> (r: Self)
        ensures
            r.left_keys() == left_key,
            r.right_keys() == right_key,
            r.joins() == join_fn,
            r.workers() == crate::operator::parallel::FALLBACK_PARALLELISM,
    {
        Self::with_config(left_key, right_key, join_fn, &ParallelExecutionConfig::default())
    }

    /// An operator with as many workers as the settings say, at least one.
    pub fn with_config(left_key: FL, right_key: FR, join_fn: FJ, config: &ParallelExecutionConfig) -> (r: Self)
        ensures
            r.left_keys() == left_key,
            r.right_keys() == right_key,
            r.joins() == join_fn,
            r.workers() == if config.parallelism == 0 {
                1
            } else {
                config.parallelism
            },
    {
        let parallelism: usize = if config.parallelism == 0 {
            1
        } else {
            config.parallelism
        };
        ParallelHashJoinOperator { left_key, right_key, join_fn, parallelism, kinds: PhantomData }
    }

    /// How many right elements are looked up at a time.
    pub fn parallelism(&self) -> (r: usize)
        ensures
            r == self.workers(),
    {
        self.parallelism
    }

    /// Collects the left side by key.
    pub fn build_hash_table(&self, left: Vec<L>) -> (r: JoinTable<K, L>)
        requires
            lawful::<K>(),
            forall|i: int| 0 <= i < left@.len() ==> call_requires(self.left_keys(), (&#[trigger] left@[i],)),
        ensures
            r.wf(),
            exists|keys: Seq<K>| #[trigger]
                keyed(self.left_keys(), left@, keys) && forall|k: K| #[trigger]
                    r.rows(k) == matching(left@, keys, k),
    {
        let ghost given = left@;
        let ghost mut keys: Seq<K> = Seq::empty();
        let mut table: JoinTable<K, L> = JoinTable::new();
        let rest = left;
        assert forall|k: K| #[trigger] table.rows(k) == matching(given.take(0), keys, k) by {
            assert(matching(given.take(0), keys, k) =~= Seq::empty());
        }
        for element in iter: rest
            invariant
                lawful::<K>(),
                table.wf(),
                iter.seq() == given,
                iter.index() == keys.len() as int,
                forall|i: int| 0 <= i < given.len() ==> call_requires(self.left_keys(), (&#[trigger] given[i],)),
                forall|i: int|
                    0 <= i < keys.len() ==> call_ensures(self.left_keys(), (&given[i],), #[trigger] keys[i]),
                forall|k: K| #[trigger] table.rows(k) == matching(given.take(keys.len() as int), keys, k),
        {
            let ghost n = keys.len() as int;
            let key = (self.left_key)(&element);
            let ghost before = table;
            let ghost old_keys = keys;
            proof {
                keys = keys.push(key);
            }
            table.insert(key, element);
            proof {
                assert(keys.drop_last() =~= old_keys);
                assert(given.take(n + 1).drop_last() =~= given.take(n));
                assert forall|k: K| #[trigger] table.rows(k) == matching(given.take(n + 1), keys, k) by {
                    assert(before.rows(k) == matching(given.take(n), old_keys, k));
                }
            }
        }
        assert(given.take(keys.len() as int) =~= given);
        assert(keyed(self.left_keys(), given, keys));
        table
    }

    /// Joins one right element with the rows of its key.
    pub fn probe(&self, table: &JoinTable<K, L>, right: &R) -> (r: Vec<Out>)
        requires
            lawful::<K>(),
            table.wf(),
            call_requires(self.right_keys(), (right,)),
            forall|k: K, i: int|
                0 <= i < table.rows(k).len() ==> call_requires(self.joins(), (&#[trigger] table.rows(k)[i], right)),
        ensures
            probed(self.right_keys(), self.joins(), *table, *right, r@),
    {
        let key = (self.right_key)(right);
        let mut r: Vec<Out> = Vec::new();
        match table.get(&key) {
            None => {
                assert(joined_rows(self.joins(), table.rows(key), *right, r@));
            },
            Some(list) => {
                let mut i: usize = 0;
                while i < list.len()
                    invariant
                        list@ == table.rows(key),
                        i <= list@.len(),
                        r@.len() == i,
                        forall|k: K, i: int|
                            0 <= i < table.rows(k).len() ==> call_requires(
                                self.joins(),
                                (&#[trigger] table.rows(k)[i], right),
                            ),
                        forall|j: int|
                            0 <= j < i ==> call_ensures(self.joins(), (&list@[j], right), #[trigger] r@[j]),
                    decreases list@.len() - i,
                {
                    assert(list@[i as int] == table.rows(key)[i as int]);
                    let out = (self.join_fn)(&list[i], right);
                    r.push(out);
                    i += 1;
                }
                assert(joined_rows(self.joins(), table.rows(key), *right, r@));
            },
        }
        r
    }

    /// The results of each right element, in their order.
    pub fn join(&self, left: Vec<L>, right: &Vec<R>) -> (r: Vec<Vec<Out>>)
        requires
            lawful::<K>(),
            forall|i: int| 0 <= i < left@.len() ==> call_requires(self.left_keys(), (&#[trigger] left@[i],)),
            forall|j: int| 0 <= j < right@.len() ==> call_requires(self.right_keys(), (&#[trigger] right@[j],)),
            forall|l: L, j: int|
                0 <= j < right@.len() && left@.contains(l) ==> #[trigger] call_requires(
                    self.joins(),
                    (&l, &right@[j]),
                ),
        ensures
            r@.len() == right@.len(),
            exists|keys: Seq<K>, table: JoinTable<K, L>| #[trigger]
                self.collected(left@, keys, table) && forall|j: int|
                    0 <= j < right@.len() ==> probed(
                        self.right_keys(),
                        self.joins(),
                        table,
                        right@[j],
                        (#[trigger] r@[j])@,
                    ),
    {
        let ghost given = left@;
        let table = self.build_hash_table(left);
        let ghost keys = choose|keys: Seq<K>| #[trigger]
            keyed(self.left_keys(), given, keys) && forall|k: K| #[trigger] table.rows(k) == matching(given, keys, k);
        assert(self.collected(given, keys, table));
        let mut r: Vec<Vec<Out>> = Vec::new();
        let mut j: usize = 0;
        while j < right.len()
            invariant
                lawful::<K>(),
                table.wf(),
                self.collected(given, keys, table),
                forall|i: int| 0 <= i < right@.len() ==> call_requires(self.right_keys(), (&#[trigger] right@[i],)),
                forall|l: L, i: int|
                    0 <= i < right@.len() && given.contains(l) ==> #[trigger] call_requires(
                        self.joins(),
                        (&l, &right@[i]),
                    ),
                j <= right@.len(),
                r@.len() == j,
                forall|i: int|
                    0 <= i < j ==> probed(self.right_keys(), self.joins(), table, right@[i], (#[trigger] r@[i])@),
            decreases right@.len() - j,
        {
            assert forall|k: K, i: int| 0 <= i < table.rows(k).len() implies call_requires(
                self.joins(),
                (&#[trigger] table.rows(k)[i], &right@[j as int]),
            ) by {
                lemma_matching_member(given, keys, k, i);
                assert(given.contains(table.rows(k)[i]));
            }
            r.push(self.probe(&table, &right[j]));
            j += 1;
        }
        r
    }

    /// The table holds the left side by key.
    pub open spec fn collected(&self, left: Seq<L>, keys: Seq<K>, table: JoinTable<K, L>) -> bool {
        &&& keyed(self.left_keys(), left, keys)
        &&& forall|k: K| #[trigger] table.rows(k) == matching(left, keys, k)
    }
}

proof fn lemma_matching_member<K, L>(elements: Seq<L>, keys: Seq<K>, k: K, i: int)
    requires
        keys.len() == elements.len(),
        0 <= i < matching(elements, keys, k).len(),
    ensures
        elements.contains(matching(elements, keys, k)[i]),
    decreases elements.len(),
{
    let front = elements.drop_last();
    let before = matching(front, keys.drop_last(), k);
    if i < before.len() {
        lemma_matching_member(front, keys.drop_last(), k, i);
        let j = choose|j: int| 0 <= j < front.len() && front[j] == before[i];
        assert(elements[j] == before[i]);
    } else {
        assert(elements[elements.len() - 1] == matching(elements, keys, k)[i]);
    }
}

/// A left element is among the rows of its key.
pub proof fn law_every_element_is_found<K, L>(elements: Seq<L>, keys: Seq<K>, i: int)
    requires
        keys.len() == elements.len(),
        0 <= i < elements.len(),
    ensures
        matching(elements, keys, keys[i]).contains(elements[i]),
    decreases elements.len(),
{
    let k = keys[i];
    let front = elements.drop_last();
    let before = matching(front, keys.drop_last(), k);
    let all = matching(elements, keys, k);
    if i < elements.len() - 1 {
        law_every_element_is_found(front, keys.drop_last(), i);
        let j = choose|j: int| 0 <= j < before.len() && before[j] == elements[i];
        assert(all[j] == elements[i]);
    } else {
        assert(all[before.len() as int] == elements[i]);
    }
}

} // verus!
