//! A bounded first-in-first-out cache of range query results.
use vstd::prelude::*;

use crate::listing::{lawful, lemma_filter_keeps, lemma_filter_member, same};
use crate::names::same_name;
use crate::operator::swag_ctrie::TimeIndexEntry;
use crate::operator::swag_join::JoinRecord;

verus! {

/// What a cached range answers: which relation was asked, for which driver,
/// join key and time range.
#[derive(Clone, Debug, PartialEq, Eq, Hash)]
pub struct RangeCacheKey<K> {
    pub relation: String,
    pub driver: String,
    pub join_key: K,
    pub start: i64,
    pub end: i64,
}

impl<K> View for RangeCacheKey<K> {
    type V = (Seq<char>, Seq<char>, K, i64, i64);

    open spec fn view(&self) -> (Seq<char>, Seq<char>, K, i64, i64) {
        (self.relation@, self.driver@, self.join_key, self.start, self.end)
    }
}

impl<K> RangeCacheKey<K> {
    pub fn new(relation: &str, driver: &str, join_key: K, start: i64, end: i64) -> (r: Self)
        ensures
            r@ == (relation@, driver@, join_key, start, end),
    {
        RangeCacheKey { relation: relation.to_string(), driver: driver.to_string(), join_key, start, end }
    }
}

impl<K: Eq + Clone> RangeCacheKey<K> {
    fn is(&self, other: &Self) -> (r: bool)
        requires
            lawful::<K>(),
        ensures
            r == (self@ == other@),
    {
        self.start == other.start && self.end == other.end && same(&self.join_key, &other.join_key) && same_name(
            self.relation.as_str(),
            other.relation.as_str(),
        ) && same_name(self.driver.as_str(), other.driver.as_str())
    }

}

/// A cached answer.
pub struct CachedRange<K, E, P> {
    pub key: RangeCacheKey<K>,
    pub entries: Vec<TimeIndexEntry<JoinRecord<E, P>>>,
}

/// Keeps at most a fixed number of answers. When one more comes, the oldest
/// goes. Its view lists them, the oldest first.
pub struct RangeCache<K, E, P> {
    ranges: Vec<CachedRange<K, E, P>>,
    max_size: usize,
}

/// The answer is kept when `relation` changes.
pub open spec fn survives<K, E, P>(relation: Seq<char>) -> spec_fn(
    ((Seq<char>, Seq<char>, K, i64, i64), Seq<TimeIndexEntry<JoinRecord<E, P>>>),
) -> bool {
    |c: ((Seq<char>, Seq<char>, K, i64, i64), Seq<TimeIndexEntry<JoinRecord<E, P>>>)|
        (c.0).0 != relation && (c.0).1 != relation
}

pub open spec fn cached_view<K, E, P>() -> spec_fn(CachedRange<K, E, P>) -> (
    (Seq<char>, Seq<char>, K, i64, i64),
    Seq<TimeIndexEntry<JoinRecord<E, P>>>,
) {
    |c: CachedRange<K, E, P>| (c.key@, c.entries@)
}

impl<K, E, P> View for RangeCache<K, E, P> {
    type V = Seq<((Seq<char>, Seq<char>, K, i64, i64), Seq<TimeIndexEntry<JoinRecord<E, P>>>)>;

    closed spec fn view(&self) -> Seq<
        ((Seq<char>, Seq<char>, K, i64, i64), Seq<TimeIndexEntry<JoinRecord<E, P>>>),
    > {
        self.ranges@.map_values(cached_view())
    }
}

impl<K, E, P> RangeCache<K, E, P> {
    /// How many answers are kept.
    pub closed spec fn capacity(&self) -> nat {
        self.max_size as nat
    }

    /// One answer to a key, and no more than fit.
    pub open spec fn wf(&self) -> bool {
        &&& 0 < self.capacity()
        &&& self@.len() <= self.capacity()
        &&& forall|i: int, j: int| 0 <= i < j < self@.len() ==> (#[trigger] self@[i]).0 != (#[trigger] self@[j]).0
    }

    /// An empty cache. A capacity of 0 is taken as 1.
    pub fn new(max_size: usize) -> (r: Self)
        ensures
            r.wf(),
            r@.len() == 0,
            r.capacity() == if max_size == 0 { 1 } else { max_size as nat },
    {
        RangeCache { ranges: Vec::new(), max_size: if max_size < 1 { 1 } else { max_size } }
    }

    /// Number of cached answers.
    pub fn len(&self) -> (r: usize)
        ensures
            r == self@.len(),
    {
        self.ranges.len()
    }

    pub fn is_empty(&self) -> (r: bool)
        ensures
            r == (self@.len() == 0),
    {
        self.ranges.len() == 0
    }

    /// Drops every answer.
    pub fn clear(&mut self)
        requires
            old(self).wf(),
        ensures
            final(self).wf(),
            final(self)@.len() == 0,
            final(self).capacity() == old(self).capacity(),
    {
        self.ranges.clear();
    }
}

impl<K: Eq + Clone, E, P> RangeCache<K, E, P> {
    fn locate(&self, key: &RangeCacheKey<K>) -> (r: Option<usize>)
        requires
            lawful::<K>(),
            self.wf(),
        ensures
            r is Some <==> exists|i: int| 0 <= i < self@.len() && (#[trigger] self@[i]).0 == key@,
            r matches Some(i) ==> i < self@.len() && self@[i as int].0 == key@,
    {
        let mut i: usize = 0;
        while i < self.ranges.len()
            invariant
                lawful::<K>(),
                i <= self@.len(),
                self@.len() == self.ranges@.len(),
                forall|j: int| 0 <= j < i ==> (#[trigger] self@[j]).0 != key@,
            decreases self@.len() - i,
        {
            assert(self@[i as int].0 == self.ranges@[i as int].key@);
            if self.ranges[i].key.is(key) {
                return Some(i);
            }
            i += 1;
        }
        None
    }

    /// The cached answer to `key`.
    pub fn get(&self, key: &RangeCacheKey<K>) -> (r: Option<&Vec<TimeIndexEntry<JoinRecord<E, P>>>>)
        requires
            lawful::<K>(),
            self.wf(),
        ensures
            r is Some <==> exists|i: int| 0 <= i < self@.len() && (#[trigger] self@[i]).0 == key@,
            r is Some ==> self@.contains((key@, r->0@)),
    {
        match self.locate(key) {
            Some(i) => {
                proof {
                    assert(self@[i as int] == (key@, self.ranges@[i as int].entries@));
                }
                Some(&self.ranges[i].entries)
            },
            None => None,
        }
    }

    /// Keeps an answer. An answer to the same key is replaced where it stands.
    /// Else, if the cache is full, the oldest answer goes.
    pub fn put(&mut self, key: RangeCacheKey<K>, value: Vec<TimeIndexEntry<JoinRecord<E, P>>>)
        requires
            lawful::<K>(),
            old(self).wf(),
        ensures
            final(self).wf(),
            final(self).capacity() == old(self).capacity(),
            forall|i: int|
                0 <= i < old(self)@.len() && (#[trigger] old(self)@[i]).0 == key@ ==> final(self)@ == old(
                    self,
                )@.update(i, (key@, value@)),
            (forall|i: int| 0 <= i < old(self)@.len() ==> (#[trigger] old(self)@[i]).0 != key@) ==> final(self)@
                == if old(self)@.len() >= old(self).capacity() {
                old(self)@.skip(1).push((key@, value@))
            } else {
                old(self)@.push((key@, value@))
            },
    {
        let ghost before = self@;
        let found = self.locate(&key);
        match found {
            Some(i) => {
                let ghost old_ranges = self.ranges@;
                self.ranges[i].entries = value;
                proof {
                    assert(self.ranges@[i as int].key@ == key@);
                    assert(self@ =~= before.update(i as int, (key@, value@)));
                    assert forall|j: int| 0 <= j < before.len() && (#[trigger] before[j]).0 == key@ implies self@
                        == before.update(j, (key@, value@)) by {
                        if j < i {
                            assert(before[j].0 != before[i as int].0);
                        }
                        if i < j {
                            assert(before[i as int].0 != before[j].0);
                        }
                    }
                    assert forall|a: int, b: int| 0 <= a < b < self@.len() implies (#[trigger] self@[a]).0 != (
                    #[trigger] self@[b]).0 by {
                        assert(before[a].0 != before[b].0);
                    }
                }
            },
            None => {
                let ghost old_ranges = self.ranges@;
                if self.ranges.len() >= self.max_size {
                    self.ranges.remove(0);
                    assert(self@ =~= before.skip(1));
                }
                let ghost mid = self@;
                self.ranges.push(CachedRange { key, entries: value });
                proof {
                    assert(self@ =~= mid.push((key@, value@)));
                    assert forall|a: int, b: int| 0 <= a < b < self@.len() implies (#[trigger] self@[a]).0 != (
                    #[trigger] self@[b]).0 by {
                        let shift = before.len() - mid.len();
                        assert(mid[a] == before[a + shift]);
                        if b < mid.len() {
                            assert(mid[b] == before[b + shift]);
                        }
                    }
                }
            },
        }
    }

    /// Drops every answer whose key names `relation`.
    pub fn invalidate_relation(&mut self, relation: &str)
        requires
            old(self).wf(),
        ensures
            final(self).wf(),
            final(self).capacity() == old(self).capacity(),
            final(self)@ == old(self)@.filter(survives(relation@)),
    {
        let ghost before = self@;
        let ghost p = survives::<K, E, P>(relation@);
        let mut kept: Vec<CachedRange<K, E, P>> = Vec::new();
        let mut old_ranges: Vec<CachedRange<K, E, P>> = Vec::new();
        std::mem::swap(&mut old_ranges, &mut self.ranges);
        let ghost all = old_ranges@;
        proof {
            assert(all.map_values(cached_view()) == before);
            reveal(Seq::filter);
            assert(kept@.map_values(cached_view()) =~= before.take(0).filter(p));
        }
        for c in iter: old_ranges
            invariant
                iter.seq() == all,
                before == all.map_values(cached_view()),
                p == survives::<K, E, P>(relation@),
                kept@.map_values(cached_view()) == before.take(iter.index()).filter(p),
                kept@.len() <= iter.index(),
                iter.index() <= all.len(),
        {
            let ghost i = iter.index();
            let ghost kept0 = kept@;
            proof {
                assert(c == all[i]);
                assert(before.take(i + 1).drop_last() =~= before.take(i));
                assert(before.take(i + 1).last() == (c.key@, c.entries@));
                reveal(Seq::filter);
            }
            if !same_name(c.key.relation.as_str(), relation) && !same_name(c.key.driver.as_str(), relation) {
                kept.push(c);
                assert(kept@.map_values(cached_view()) =~= kept0.map_values(cached_view()).push((c.key@, c.entries@)));
            }
        }
        self.ranges = kept;
        proof {
            assert(before.take(all.len() as int) =~= before);
            lemma_filter_keys_distinct(before, p);
        }
    }
}

proof fn lemma_filter_keys_distinct<A, B>(s: Seq<(A, B)>, p: spec_fn((A, B)) -> bool)
    requires
        forall|i: int, j: int| 0 <= i < j < s.len() ==> (#[trigger] s[i]).0 != (#[trigger] s[j]).0,
    ensures
        forall|i: int, j: int|
            0 <= i < j < s.filter(p).len() ==> (#[trigger] s.filter(p)[i]).0 != (#[trigger] s.filter(p)[j]).0,
        s.filter(p).len() <= s.len(),
    decreases s.len(),
{
    reveal(Seq::filter);
    if s.len() > 0 {
        let d = s.drop_last();
        lemma_filter_keys_distinct(d, p);
        let f = d.filter(p);
        assert forall|i: int| 0 <= i < f.len() implies (#[trigger] f[i]).0 != s.last().0 by {
            lemma_filter_member(d, p, i);
            let k = choose|k: int| 0 <= k < d.len() && d[k] == f[i];
            assert(s[k].0 != s[s.len() - 1].0);
        }
    }
}

/// What was put last is found: the answers after [`RangeCache::put`] hold it
/// under its key.
pub proof fn law_put_is_found<K, E, P>(
    before: Seq<((Seq<char>, Seq<char>, K, i64, i64), Seq<TimeIndexEntry<JoinRecord<E, P>>>)>,
    after: Seq<((Seq<char>, Seq<char>, K, i64, i64), Seq<TimeIndexEntry<JoinRecord<E, P>>>)>,
    capacity: nat,
    key: (Seq<char>, Seq<char>, K, i64, i64),
    value: Seq<TimeIndexEntry<JoinRecord<E, P>>>,
)
    requires
        0 < capacity,
        forall|i: int| 0 <= i < before.len() && (#[trigger] before[i]).0 == key ==> after == before.update(i, (key, value)),
        (forall|i: int| 0 <= i < before.len() ==> (#[trigger] before[i]).0 != key) ==> after == if before.len()
            >= capacity {
            before.skip(1).push((key, value))
        } else {
            before.push((key, value))
        },
    ensures
        after.contains((key, value)),
{
    if exists|i: int| 0 <= i < before.len() && (#[trigger] before[i]).0 == key {
        let i = choose|i: int| 0 <= i < before.len() && (#[trigger] before[i]).0 == key;
        assert(after[i] == (key, value));
    } else {
        assert(after[after.len() - 1] == (key, value));
    }
}

/// After a relation changed, no answer that depends on it is left, and every
/// other answer is.
pub proof fn law_invalidation_drops_what_depends<K, E, P>(
    before: Seq<((Seq<char>, Seq<char>, K, i64, i64), Seq<TimeIndexEntry<JoinRecord<E, P>>>)>,
    relation: Seq<char>,
    c: ((Seq<char>, Seq<char>, K, i64, i64), Seq<TimeIndexEntry<JoinRecord<E, P>>>),
)
    ensures
        before.filter(survives(relation)).contains(c) <==> before.contains(c) && (c.0).0 != relation && (c.0).1 != relation,
{
    let p = survives::<K, E, P>(relation);
    if before.filter(p).contains(c) {
        let i = choose|i: int| 0 <= i < before.filter(p).len() && before.filter(p)[i] == c;
        lemma_filter_member(before, p, i);
    }
    if before.contains(c) && p(c) {
        lemma_filter_keeps(before, p, c);
    }
}

} // verus!
