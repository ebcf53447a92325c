//! Time-bucketed index over payloads with bag semantics.
use vstd::prelude::*;

use crate::listing::{concat, dup, inserted, lawful, repeated};
use crate::listing::{
    lemma_concat_add, lemma_concat_contains, lemma_concat_drop_empty, lemma_concat_grow,
    lemma_concat_grow_new, lemma_concat_len_ge, lemma_concat_one, lemma_concat_shrink,
    lemma_concat_take, lemma_concat_take_len, lemma_filter_all_or_none, lemma_filter_three,
    lemma_inserted_map, lemma_inserted_multiset, lemma_multiset_add,
};
use crate::operator::payload_counts::{copies, PayloadCounts};

verus! {

/// One `(timestamp, payload)` pair with its multiplicity.
#[derive(Clone, Debug, PartialEq, Eq, Hash)]
pub struct TimeIndexEntry<P> {
    pub timestamp: i64,
    pub payload: P,
    pub count: u64,
}

impl<P> TimeIndexEntry<P> {
    pub fn new(timestamp: i64, payload: P, count: u64) -> (r: Self)
        ensures
            r == (TimeIndexEntry { timestamp, payload, count }),
    {
        TimeIndexEntry { timestamp, payload, count }
    }
}

/// Lists an entry's pair as often as its count says.
pub open spec fn entry_items<P>() -> spec_fn(TimeIndexEntry<P>) -> Seq<(i64, P)> {
    |e: TimeIndexEntry<P>| repeated((e.timestamp, e.payload), e.count as nat)
}

/// Pairs a payload with a timestamp.
pub open spec fn stamped<P>(timestamp: i64) -> spec_fn(P) -> (i64, P) {
    |p: P| (timestamp, p)
}

/// The timestamp lies in `[start, end]`.
pub open spec fn in_range<P>(start: i64, end: i64) -> spec_fn((i64, P)) -> bool {
    |it: (i64, P)| start <= it.0 <= end
}

/// The timestamp lies outside `[start, end]`.
pub open spec fn out_of_range<P>(start: i64, end: i64) -> spec_fn((i64, P)) -> bool {
    |it: (i64, P)| !(start <= it.0 <= end)
}

/// The payloads of a listing.
pub open spec fn payloads<P>(items: Seq<(i64, P)>) -> Seq<P> {
    items.map_values(|it: (i64, P)| it.1)
}

/// The timestamp of a listed pair.
pub open spec fn stamp_of<P>() -> spec_fn((i64, P)) -> i64 {
    |it: (i64, P)| it.0
}

/// The distinct timestamps of a listing.
pub open spec fn timestamps<P>(items: Seq<(i64, P)>) -> Set<i64> {
    items.map_values(stamp_of()).to_set()
}

/// Answer of an aggregating range query: how many payloads matched and how
/// often each of them did.
#[derive(Clone, Debug)]
pub struct RangeResult<P> {
    pub total_count: u64,
    pub payload_counts: PayloadCounts<P>,
}

impl<P> RangeResult<P> {
    /// The result describes exactly the bag `items`.
    pub open spec fn describes(&self, items: Seq<P>) -> bool {
        &&& self.payload_counts.wf()
        &&& self.total_count == items.len()
        &&& self.payload_counts.items().len() == items.len()
        &&& self.payload_counts.items().to_multiset() == items.to_multiset()
    }

    pub fn new(total_count: u64, payload_counts: PayloadCounts<P>) -> (r: Self)
        ensures
            r.total_count == total_count,
            r.payload_counts == payload_counts,
    {
        RangeResult { total_count, payload_counts }
    }

    /// The answer that matched nothing.
    pub fn empty() -> (r: Self)
        ensures
            r.describes(Seq::empty()),
            r.payload_counts.items() == Seq::<P>::empty(),
    {
        RangeResult { total_count: 0, payload_counts: PayloadCounts::new() }
    }

    pub fn is_empty(&self) -> (r: bool)
        ensures
            r == (self.total_count == 0),
    {
        self.total_count == 0
    }
}

/// Payloads at one timestamp, with multiplicity.
#[derive(Clone, Debug)]
pub struct Bucket<P> {
    timestamp: i64,
    counts: PayloadCounts<P>,
    total_count: u64,
}

impl<P> Bucket<P> {
    spec fn wf(&self) -> bool {
        &&& self.counts.wf()
        &&& self.counts@.len() > 0
        &&& self.total_count == self.counts.items().len()
        &&& self.total_count > 0
    }

    spec fn items(&self) -> Seq<(i64, P)> {
        self.counts.items().map_values(stamped(self.timestamp))
    }
}

spec fn bucket_items<P>() -> spec_fn(Bucket<P>) -> Seq<(i64, P)> {
    |b: Bucket<P>| b.items()
}

impl<P: Eq + Clone> Bucket<P> {
    fn single(timestamp: i64, payload: P) -> (r: Self)
        requires
            lawful::<P>(),
        ensures
            r.wf(),
            r.timestamp == timestamp,
            r.items() == seq![(timestamp, payload)],
    {
        let mut counts = PayloadCounts::new();
        counts.add(payload);
        proof {
            assert(counts.items() =~= seq![payload]);
            assert(counts.items().map_values(stamped(timestamp)) =~= seq![(timestamp, payload)]);
        }
        Bucket { timestamp, counts, total_count: 1 }
    }

    fn add(&mut self, payload: P)
        requires
            lawful::<P>(),
            old(self).wf(),
            old(self).total_count < u64::MAX,
        ensures
            final(self).wf(),
            final(self).timestamp == old(self).timestamp,
            inserted(old(self).items(), final(self).items(), (old(self).timestamp, payload)),
    {
        let ghost before = self.counts.items();
        self.counts.add(payload);
        self.total_count = self.total_count + 1;
        proof {
            lemma_inserted_map(before, self.counts.items(), payload, stamped(self.timestamp));
            let i = choose|i: int|
                0 <= i <= before.len() && self.counts.items() == #[trigger] before.insert(i, payload);
            assert(self.counts.items().len() == before.len() + 1);
        }
    }

    /// Removes one occurrence; the bucket may be left empty.
    fn remove(&mut self, payload: &P) -> (r: bool)
        requires
            lawful::<P>(),
            old(self).wf(),
        ensures
            final(self).counts.wf(),
            final(self).total_count == final(self).counts.items().len(),
            final(self).timestamp == old(self).timestamp,
            r == old(self).items().contains((old(self).timestamp, *payload)),
            r ==> inserted(final(self).items(), old(self).items(), (old(self).timestamp, *payload)),
            !r ==> *final(self) == *old(self),
            final(self).total_count > 0 ==> final(self).wf(),
    {
        let ghost before = self.counts.items();
        let ghost ts = self.timestamp;
        let r = self.counts.remove(payload);
        proof {
            let listed = before.map_values(stamped::<P>(ts));
            if before.contains(*payload) {
                let k = choose|k: int| 0 <= k < before.len() && before[k] == *payload;
                assert(listed[k] == (ts, *payload));
            }
            if listed.contains((ts, *payload)) {
                let k = choose|k: int| 0 <= k < listed.len() && listed[k] == (ts, *payload);
                assert(before[k] == *payload);
            }
        }
        if r {
            proof {
                let after = self.counts.items();
                lemma_inserted_map(after, before, *payload, stamped(ts));
                let i = choose|i: int|
                    0 <= i <= after.len() && before == #[trigger] after.insert(i, *payload);
                assert(before.len() == after.len() + 1);
            }
            self.total_count = self.total_count - 1;
        }
        r
    }
}

/// Time-bucketed index over payloads with bag semantics.
///
/// Its view lists every indexed `(timestamp, payload)` pair with its
/// multiplicity, by ascending timestamp.
#[derive(Clone, Debug)]
pub struct TimeIndex<P> {
    buckets: Vec<Bucket<P>>,
}

impl<P> View for TimeIndex<P> {
    type V = Seq<(i64, P)>;

    closed spec fn view(&self) -> Seq<(i64, P)> {
        concat(self.buckets@, bucket_items())
    }
}

/// Only the bucket at a timestamp lists pairs with it.
proof fn lemma_bucket_contains<P>(buckets: Seq<Bucket<P>>, timestamp: i64, payload: P)
    ensures
        forall|i: int|
            0 <= i < buckets.len() && bucket_items()(#[trigger] buckets[i]).contains((timestamp, payload))
                ==> buckets[i].timestamp == timestamp,
{
    assert forall|i: int|
        0 <= i < buckets.len() && bucket_items()(#[trigger] buckets[i]).contains(
            (timestamp, payload),
        ) implies buckets[i].timestamp == timestamp by {
        let l = bucket_items()(buckets[i]);
        let k = choose|k: int| 0 <= k < l.len() && l[k] == (timestamp, payload);
        assert(l[k].0 == buckets[i].timestamp);
    }
}

/// All buckets sound, their timestamps strictly ascending.
spec fn buckets_wf<P>(buckets: Seq<Bucket<P>>) -> bool {
    &&& forall|i: int| 0 <= i < buckets.len() ==> (#[trigger] buckets[i]).wf()
    &&& forall|i: int, j: int|
        0 <= i < j < buckets.len() ==> (#[trigger] buckets[i]).timestamp < (#[trigger] buckets[j]).timestamp
}

/// Buckets all inside a range list nothing outside of it.
proof fn lemma_part_inside<P>(part: Seq<Bucket<P>>, start: i64, end: i64)
    requires
        forall|i: int| 0 <= i < part.len() ==> start <= (#[trigger] part[i]).timestamp <= end,
    ensures
        concat(part, bucket_items()).filter(in_range(start, end)) == concat(part, bucket_items()),
        concat(part, bucket_items()).filter(out_of_range(start, end)) == Seq::<(i64, P)>::empty(),
{
    lemma_stamps(part, |t: i64| start <= t <= end);
    lemma_filter_all_or_none(concat(part, bucket_items()), in_range(start, end));
    lemma_filter_all_or_none(concat(part, bucket_items()), out_of_range(start, end));
}

/// Buckets all outside a range list nothing inside of it.
proof fn lemma_part_outside<P>(part: Seq<Bucket<P>>, start: i64, end: i64)
    requires
        forall|i: int| 0 <= i < part.len() ==> !(start <= (#[trigger] part[i]).timestamp <= end),
    ensures
        concat(part, bucket_items()).filter(in_range(start, end)) == Seq::<(i64, P)>::empty(),
        concat(part, bucket_items()).filter(out_of_range(start, end)) == concat(part, bucket_items()),
{
    lemma_stamps(part, |t: i64| !(start <= t <= end));
    lemma_filter_all_or_none(concat(part, bucket_items()), in_range(start, end));
    lemma_filter_all_or_none(concat(part, bucket_items()), out_of_range(start, end));
}

/// What the buckets `[lo, hi)` hold is what lies in `[start, end]`.
proof fn lemma_range_split<P>(buckets: Seq<Bucket<P>>, lo: int, hi: int, start: i64, end: i64)
    requires
        0 <= lo <= hi <= buckets.len(),
        forall|i: int| 0 <= i < lo ==> (#[trigger] buckets[i]).timestamp < start,
        forall|i: int| lo <= i < hi ==> start <= (#[trigger] buckets[i]).timestamp <= end,
        forall|i: int| hi <= i < buckets.len() ==> (#[trigger] buckets[i]).timestamp > end,
    ensures
        concat(buckets, bucket_items()).filter(in_range(start, end)) == concat(
            buckets.subrange(lo, hi),
            bucket_items(),
        ),
        concat(buckets, bucket_items()).filter(out_of_range(start, end)) == concat(
            buckets.take(lo) + buckets.skip(hi),
            bucket_items(),
        ),
{
    let a = buckets.take(lo);
    let b = buckets.subrange(lo, hi);
    let c = buckets.skip(hi);
    let f = bucket_items::<P>();
    assert(buckets =~= a + b + c);
    lemma_concat_add(a + b, c, f);
    lemma_concat_add(a, b, f);
    lemma_concat_add(a, c, f);
    lemma_part_outside(a, start, end);
    lemma_part_inside(b, start, end);
    lemma_part_outside(c, start, end);
    let fa = concat(a, f);
    let fb = concat(b, f);
    let fc = concat(c, f);
    lemma_filter_three(fa, fb, fc, in_range(start, end));
    lemma_filter_three(fa, fb, fc, out_of_range(start, end));
    let none = Seq::<(i64, P)>::empty();
    assert(none + fb + none =~= fb);
    assert(fa + none + fc =~= fa + fc);
}

/// A condition on every bucket's timestamp holds of every listed pair.
proof fn lemma_stamps<P>(buckets: Seq<Bucket<P>>, c: spec_fn(i64) -> bool)
    requires
        forall|i: int| 0 <= i < buckets.len() ==> c((#[trigger] buckets[i]).timestamp),
    ensures
        forall|k: int|
            0 <= k < concat(buckets, bucket_items()).len() ==> c((#[trigger] concat(buckets, bucket_items())[k]).0),
    decreases buckets.len(),
{
    if buckets.len() > 0 {
        let rest = buckets.drop_last();
        assert forall|i: int| 0 <= i < rest.len() implies c((#[trigger] rest[i]).timestamp) by {
            assert(c(buckets[i].timestamp));
        }
        lemma_stamps(rest, c);
        let f = bucket_items::<P>();
        let last = buckets.last();
        assert(c(buckets[buckets.len() - 1].timestamp));
        assert forall|k: int| 0 <= k < concat(buckets, f).len() implies c((#[trigger] concat(buckets, f)[k]).0) by {
            let n = concat(rest, f).len();
            if k < n {
                assert(concat(buckets, f)[k] == concat(rest, f)[k]);
            } else {
                assert(concat(buckets, f)[k] == f(last)[k - n]);
            }
        }
    }
}

/// Sound buckets list pairs by ascending timestamp.
proof fn lemma_buckets_ascending<P>(buckets: Seq<Bucket<P>>)
    requires
        buckets_wf(buckets),
    ensures
        ascending(concat(buckets, bucket_items())),
    decreases buckets.len(),
{
    if buckets.len() > 0 {
        let rest = buckets.drop_last();
        let last = buckets.last();
        let f = bucket_items::<P>();
        assert forall|i: int| 0 <= i < rest.len() implies (#[trigger] rest[i]).timestamp < last.timestamp by {
            assert(buckets[i].timestamp < buckets[buckets.len() - 1].timestamp);
        }
        lemma_buckets_prefix(buckets, buckets.len() - 1);
        assert(rest =~= buckets.take(buckets.len() - 1));
        lemma_buckets_ascending(rest);
        lemma_stamps(rest, |t: i64| t < last.timestamp);
        let all = concat(buckets, f);
        let n = concat(rest, f).len();
        assert forall|i: int, j: int| 0 <= i < j < all.len() implies (#[trigger] all[i]).0 <= (#[trigger] all[j]).0 by {
            if j < n {
                assert(all[i] == concat(rest, f)[i]);
                assert(all[j] == concat(rest, f)[j]);
            } else {
                assert(all[j] == f(last)[j - n]);
                if i < n {
                    assert(all[i] == concat(rest, f)[i]);
                } else {
                    assert(all[i] == f(last)[i - n]);
                }
            }
        }
    }
}

proof fn lemma_buckets_prefix<P>(buckets: Seq<Bucket<P>>, n: int)
    requires
        buckets_wf(buckets),
        0 <= n <= buckets.len(),
    ensures
        buckets_wf(buckets.take(n)),
{
    let t = buckets.take(n);
    assert forall|i: int| 0 <= i < t.len() implies (#[trigger] t[i]).wf() by {
        assert(buckets[i].wf());
    }
    assert forall|i: int, j: int| 0 <= i < j < t.len() implies (#[trigger] t[i]).timestamp < (
    #[trigger] t[j]).timestamp by {
        assert(buckets[i].timestamp < buckets[j].timestamp);
    }
}

/// The distinct timestamps of sound buckets are the buckets' own.
proof fn lemma_bucket_stamps<P>(buckets: Seq<Bucket<P>>)
    requires
        buckets_wf(buckets),
    ensures
        timestamps(concat(buckets, bucket_items())).finite(),
        timestamps(concat(buckets, bucket_items())).len() == buckets.len(),
        forall|t: i64|
            timestamps(concat(buckets, bucket_items())).contains(t) <==> exists|i: int|
                0 <= i < buckets.len() && (#[trigger] buckets[i]).timestamp == t,
    decreases buckets.len(),
{
    let f = bucket_items::<P>();
    let all = concat(buckets, f);
    if buckets.len() == 0 {
        assert(timestamps(all) =~= Set::<i64>::empty());
    } else {
        let rest = buckets.drop_last();
        let last = buckets.last();
        assert(rest =~= buckets.take(buckets.len() - 1));
        lemma_buckets_prefix(buckets, buckets.len() - 1);
        lemma_bucket_stamps(rest);
        let g = stamp_of::<P>();
        let ra = concat(rest, f);
        assert(buckets[buckets.len() - 1].wf());
        assert(f(last).len() > 0);
        assert forall|t: i64| #[trigger] timestamps(all).contains(t) == timestamps(ra).insert(last.timestamp).contains(
            t,
        ) by {
            if timestamps(all).contains(t) {
                let k = choose|k: int| 0 <= k < all.len() && all.map_values(g)[k] == t;
                if k < ra.len() {
                    assert(ra.map_values(g)[k] == t);
                } else {
                    assert(all[k] == f(last)[k - ra.len()]);
                }
            }
            if timestamps(ra).contains(t) {
                let k = choose|k: int| 0 <= k < ra.len() && ra.map_values(g)[k] == t;
                assert(all.map_values(g)[k] == t);
            }
            if t == last.timestamp {
                assert(all[ra.len() as int] == f(last)[0]);
                assert(all.map_values(g)[ra.len() as int] == t);
            }
        }
        assert(timestamps(all) =~= timestamps(ra).insert(last.timestamp));
        if timestamps(ra).contains(last.timestamp) {
            let i = choose|i: int| 0 <= i < rest.len() && (#[trigger] rest[i]).timestamp == last.timestamp;
            assert(buckets[i].timestamp < buckets[buckets.len() - 1].timestamp);
        }
        assert forall|t: i64| timestamps(all).contains(t) <==> exists|i: int|
            0 <= i < buckets.len() && (#[trigger] buckets[i]).timestamp == t by {
            if t == last.timestamp {
                assert(buckets[buckets.len() - 1].timestamp == t);
            } else if timestamps(all).contains(t) {
                let i = choose|i: int| 0 <= i < rest.len() && (#[trigger] rest[i]).timestamp == t;
                assert(buckets[i].timestamp == t);
            } else if exists|i: int| 0 <= i < buckets.len() && (#[trigger] buckets[i]).timestamp == t {
                let i = choose|i: int| 0 <= i < buckets.len() && (#[trigger] buckets[i]).timestamp == t;
                assert(rest[i].timestamp == t);
            }
        }
    }
}

/// Listed by ascending timestamp.
pub open spec fn ascending<P>(items: Seq<(i64, P)>) -> bool {
    forall|i: int, j: int| 0 <= i < j < items.len() ==> (#[trigger] items[i]).0 <= (#[trigger] items[j]).0
}

impl<P> TimeIndex<P> {
    /// The index is sound and small enough to be counted in a `u64`.
    pub closed spec fn wf(&self) -> bool {
        &&& buckets_wf(self.buckets@)
        &&& self@.len() <= u64::MAX
    }

    /// An index lists what it holds by ascending timestamp.
    pub proof fn law_listing_ascends(&self)
        requires
            self.wf(),
        ensures
            ascending(self@),
    {
        lemma_buckets_ascending(self.buckets@);
    }

    /// Builds an empty index.
    pub fn new() -> (r: Self)
        ensures
            r.wf(),
            r@ == Seq::<(i64, P)>::empty(),
    {
        TimeIndex { buckets: Vec::new() }
    }

    /// Total payload occurrences across every bucket.
    pub fn size(&self) -> (r: u64)
        requires
            self.wf(),
        ensures
            r == self@.len(),
    {
        let mut total: u64 = 0;
        let mut i: usize = 0;
        while i < self.buckets.len()
            invariant
                self.wf(),
                i <= self.buckets@.len(),
                total == concat(self.buckets@.take(i as int), bucket_items()).len(),
            decreases self.buckets@.len() - i,
        {
            proof {
                lemma_concat_take(self.buckets@, i as int, bucket_items());
                lemma_concat_take_len(self.buckets@, i + 1, bucket_items());
                assert(self.buckets@[i as int].wf());
            }
            total = total + self.buckets[i].total_count;
            i += 1;
        }
        assert(self.buckets@.take(i as int) =~= self.buckets@);
        total
    }

    /// Number of distinct timestamps in the index.
    pub fn bucket_count(&self) -> (r: usize)
        requires
            self.wf(),
        ensures
            timestamps(self@).finite(),
            r == timestamps(self@).len(),
    {
        proof {
            lemma_bucket_stamps(self.buckets@);
        }
        self.buckets.len()
    }

    /// The distinct timestamps in the index, each once.
    pub fn times(&self) -> (r: Vec<i64>)
        requires
            self.wf(),
        ensures
            r@.no_duplicates(),
            r@.to_set() == timestamps(self@),
    {
        let ghost bs = self.buckets@;
        let mut r: Vec<i64> = Vec::new();
        let mut i: usize = 0;
        while i < self.buckets.len()
            invariant
                bs == self.buckets@,
                i <= bs.len(),
                r@.len() == i,
                forall|j: int| 0 <= j < i ==> #[trigger] r@[j] == bs[j].timestamp,
            decreases bs.len() - i,
        {
            r.push(self.buckets[i].timestamp);
            i += 1;
        }
        proof {
            lemma_bucket_stamps(bs);
            assert forall|x: int, y: int| 0 <= x < y < r@.len() implies r@[x] != r@[y] by {
                assert(bs[x].timestamp < bs[y].timestamp);
            }
            assert forall|t: i64| r@.to_set().contains(t) == timestamps(self@).contains(t) by {
                if r@.contains(t) {
                    let j = choose|j: int| 0 <= j < r@.len() && r@[j] == t;
                    assert(bs[j].timestamp == t);
                }
                if timestamps(self@).contains(t) {
                    let j = choose|j: int| 0 <= j < bs.len() && (#[trigger] bs[j]).timestamp == t;
                    assert(r@[j] == t);
                }
            }
            assert(r@.to_set() =~= timestamps(self@));
        }
        r
    }

    pub fn is_empty(&self) -> (r: bool)
        requires
            self.wf(),
        ensures
            r == (self@.len() == 0),
    {
        proof {
            if self.buckets@.len() > 0 {
                lemma_concat_len_ge(self.buckets@, 0, bucket_items());
                assert(self.buckets@[0].wf());
            }
        }
        self.buckets.len() == 0
    }

    /// Clears every bucket.
    pub fn clear(&mut self)
        ensures
            final(self).wf(),
            final(self)@ == Seq::<(i64, P)>::empty(),
    {
        self.buckets.clear();
    }

    /// Index of the first bucket at or after `t`.
    fn lower_bound(&self, t: i64) -> (r: usize)
        requires
            self.wf(),
        ensures
            r <= self.buckets@.len(),
            forall|i: int| 0 <= i < r ==> (#[trigger] self.buckets@[i]).timestamp < t,
            forall|i: int| r <= i < self.buckets@.len() ==> (#[trigger] self.buckets@[i]).timestamp >= t,
    {
        let mut lo: usize = 0;
        let mut hi: usize = self.buckets.len();
        while lo < hi
            invariant
                self.wf(),
                lo <= hi <= self.buckets@.len(),
                forall|i: int| 0 <= i < lo ==> (#[trigger] self.buckets@[i]).timestamp < t,
                forall|i: int| hi <= i < self.buckets@.len() ==> (#[trigger] self.buckets@[i]).timestamp >= t,
            decreases hi - lo,
        {
            let mid: usize = lo + (hi - lo) / 2;
            if self.buckets[mid].timestamp < t {
                lo = mid + 1;
            } else {
                hi = mid;
            }
        }
        lo
    }

    /// Index of the first bucket after `t`.
    fn upper_bound(&self, t: i64) -> (r: usize)
        requires
            self.wf(),
        ensures
            r <= self.buckets@.len(),
            forall|i: int| 0 <= i < r ==> (#[trigger] self.buckets@[i]).timestamp <= t,
            forall|i: int| r <= i < self.buckets@.len() ==> (#[trigger] self.buckets@[i]).timestamp > t,
    {
        if t == i64::MAX {
            return self.buckets.len();
        }
        self.lower_bound(t + 1)
    }
}

impl<P> Default for TimeIndex<P> {
    fn default() -> (r: Self)
        ensures
            r.wf(),
            r@ == Seq::<(i64, P)>::empty(),
    {
        Self::new()
    }
}

impl<P: Eq + Clone> TimeIndex<P> {
    /// Inserts one occurrence of `payload` at `timestamp`.
    pub fn insert(&mut self, timestamp: i64, payload: P)
        requires
            lawful::<P>(),
            old(self).wf(),
            old(self)@.len() < u64::MAX,
        ensures
            final(self).wf(),
            inserted(old(self)@, final(self)@, (timestamp, payload)),
    {
        let ghost before = self.buckets@;
        let ghost f = bucket_items::<P>();
        let i = self.lower_bound(timestamp);
        if i < self.buckets.len() && self.buckets[i].timestamp == timestamp {
            proof {
                lemma_concat_len_ge(before, i as int, f);
            }
            self.buckets[i].add(payload);
            proof {
                let b = self.buckets@[i as int];
                assert(self.buckets@ =~= before.update(i as int, b));
                lemma_concat_grow(before, i as int, b, f, (timestamp, payload));
            }
        } else {
            let b = Bucket::single(timestamp, payload);
            self.buckets.insert(i, b);
            proof {
                assert(self.buckets@ =~= before.insert(i as int, b));
                lemma_concat_grow_new(before, i as int, b, f, (timestamp, payload));
            }
        }
        proof {
            lemma_inserted_multiset(old(self)@, self@, (timestamp, payload));
        }
    }

    /// Removes one occurrence of `payload` at `timestamp`. Returns `true` if
    /// one was present.
    pub fn evict(&mut self, timestamp: i64, payload: &P) -> (r: bool)
        requires
            lawful::<P>(),
            old(self).wf(),
        ensures
            final(self).wf(),
            r == old(self)@.contains((timestamp, *payload)),
            r ==> inserted(final(self)@, old(self)@, (timestamp, *payload)),
            !r ==> final(self)@ == old(self)@,
    {
        let ghost before = self.buckets@;
        let ghost f = bucket_items::<P>();
        let ghost x = (timestamp, *payload);
        let i = self.lower_bound(timestamp);
        proof {
            lemma_concat_contains(before, f, x);
            lemma_bucket_contains(before, timestamp, *payload);
        }
        if i < self.buckets.len() && self.buckets[i].timestamp == timestamp {
            let removed = self.buckets[i].remove(payload);
            let ghost b = self.buckets@[i as int];
            assert(self.buckets@ =~= before.update(i as int, b));
            if !removed {
                assert(self.buckets@ =~= before);
                return false;
            }
            proof {
                lemma_concat_shrink(before, i as int, b, f, x);
            }
            if self.buckets[i].total_count == 0 {
                let ghost mid = self.buckets@;
                proof {
                    lemma_concat_drop_empty(mid, i as int, f);
                }
                self.buckets.remove(i);
                proof {
                    assert(self.buckets@ =~= mid.remove(i as int));
                }
            }
            proof {
                lemma_inserted_multiset(self@, old(self)@, x);
            }
            true
        } else {
            false
        }
    }
}

/// A bucket's payloads are those of its listed pairs.
proof fn lemma_bucket_payloads<P>(b: Bucket<P>)
    ensures
        payloads(b.items()) == b.counts.items(),
{
    assert(payloads(b.items()) =~= b.counts.items());
}

proof fn lemma_payloads_add<P>(a: Seq<(i64, P)>, b: Seq<(i64, P)>)
    ensures
        payloads(a + b) == payloads(a) + payloads(b),
{
    assert(payloads(a + b) =~= payloads(a) + payloads(b));
}

proof fn lemma_sum_step<P>(part: Seq<Bucket<P>>, i: int)
    requires
        0 <= i < part.len(),
    ensures
        payloads(concat(part.take(i + 1), bucket_items())).to_multiset() == payloads(
            concat(part.take(i), bucket_items()),
        ).to_multiset().add(part[i].counts.items().to_multiset()),
        concat(part.take(i + 1), bucket_items()).len() == concat(part.take(i), bucket_items()).len()
            + part[i].counts.items().len(),
        concat(part.take(i + 1), bucket_items()).len() <= concat(part, bucket_items()).len(),
{
    let f = bucket_items::<P>();
    lemma_concat_take(part, i, f);
    lemma_concat_take_len(part, i + 1, f);
    lemma_bucket_payloads(part[i]);
    lemma_payloads_add(concat(part.take(i), f), f(part[i]));
    lemma_multiset_add(payloads(concat(part.take(i), f)), part[i].counts.items());
}

impl<P: Eq + Clone> TimeIndex<P> {
    /// Aggregates the buckets `[lo, hi)`.
    #[verifier::spinoff_prover]
    fn sum_buckets(&self, lo: usize, hi: usize) -> (r: RangeResult<P>)
        requires
            lawful::<P>(),
            self.wf(),
            lo <= hi <= self.buckets@.len(),
        ensures
            r.describes(payloads(concat(self.buckets@.subrange(lo as int, hi as int), bucket_items()))),
    {
        let ghost f = bucket_items::<P>();
        let ghost bs = self.buckets@;
        let ghost part = bs.subrange(lo as int, hi as int);
        proof {
            assert(bs =~= bs.take(lo as int) + part + bs.skip(hi as int));
            lemma_concat_add(bs.take(lo as int) + part, bs.skip(hi as int), f);
            lemma_concat_add(bs.take(lo as int), part, f);
        }
        let mut total: u64 = 0;
        let mut agg: PayloadCounts<P> = PayloadCounts::new();
        let mut i: usize = lo;
        proof {
            assert(part.take(0) =~= Seq::<Bucket<P>>::empty());
            assert(payloads(concat(part.take(0), f)) =~= Seq::<P>::empty());
        }
        while i < hi
            invariant
                lawful::<P>(),
                self.wf(),
                bs == self.buckets@,
                f == bucket_items::<P>(),
                lo <= i <= hi <= bs.len(),
                part == bs.subrange(lo as int, hi as int),
                concat(part, f).len() <= u64::MAX,
                agg.wf(),
                total == concat(part.take(i - lo), f).len(),
                agg.items().len() == total,
                agg.items().to_multiset() == payloads(concat(part.take(i - lo), f)).to_multiset(),
            decreases hi - i,
        {
            proof {
                lemma_sum_step(part, i - lo);
                assert(part[i - lo] == bs[i as int]);
                assert(bs[i as int].wf());
            }
            total = total + self.buckets[i].total_count;
            agg.merge(&self.buckets[i].counts);
            i += 1;
        }
        assert(part.take(i - lo) =~= part);
        RangeResult::new(total, agg)
    }

    /// Aggregates all payloads with timestamps in `[start, end]`.
    pub fn query_range(&self, start: i64, end: i64) -> (r: RangeResult<P>)
        requires
            lawful::<P>(),
            self.wf(),
        ensures
            r.describes(payloads(self@.filter(in_range(start, end)))),
    {
        let ghost f = bucket_items::<P>();
        let ghost bs = self.buckets@;
        if start > end {
            proof {
                lemma_filter_all_or_none(self@, in_range(start, end));
                assert(payloads(Seq::<(i64, P)>::empty()) =~= Seq::<P>::empty());
            }
            return RangeResult::empty();
        }
        let lo = self.lower_bound(start);
        let hi = self.upper_bound(end);
        proof {
            if lo > hi {
                assert(bs[hi as int].timestamp > end);
                assert(bs[hi as int].timestamp < start);
            }
            lemma_range_split(bs, lo as int, hi as int, start, end);
        }
        self.sum_buckets(lo, hi)
    }

    /// One entry per `(timestamp, payload)` pair in `[start, end]`, by
    /// ascending timestamp.
    #[verifier::spinoff_prover]
    pub fn query_range_entries(&self, start: i64, end: i64) -> (r: Vec<TimeIndexEntry<P>>)
        requires
            lawful::<P>(),
            self.wf(),
        ensures
            concat(r@, entry_items()) == self@.filter(in_range(start, end)),
            entries_wf(r@),
            forall|i: int| 0 <= i < r@.len() ==> start <= (#[trigger] r@[i]).timestamp <= end,
    {
        let mut out: Vec<TimeIndexEntry<P>> = Vec::new();
        let ghost f = bucket_items::<P>();
        let ghost bs = self.buckets@;
        if start > end {
            proof {
                lemma_filter_all_or_none(self@, in_range(start, end));
            }
            return out;
        }
        let lo = self.lower_bound(start);
        let hi = self.upper_bound(end);
        proof {
            if lo > hi {
                assert(bs[hi as int].timestamp > end);
                assert(bs[hi as int].timestamp < start);
            }
            lemma_range_split(bs, lo as int, hi as int, start, end);
        }
        let ghost part = bs.subrange(lo as int, hi as int);
        let mut i: usize = lo;
        proof {
            assert(part.take(0) =~= Seq::<Bucket<P>>::empty());
        }
        while i < hi
            invariant
                lawful::<P>(),
                self.wf(),
                bs == self.buckets@,
                f == bucket_items::<P>(),
                lo <= i <= hi <= bs.len(),
                part == bs.subrange(lo as int, hi as int),
                concat(out@, entry_items()) == concat(part.take(i - lo), f),
                entries_wf(out@),
                forall|k: int|
                    0 <= k < out@.len() ==> exists|j: int|
                        lo <= j < i && (#[trigger] out@[k]).timestamp == (#[trigger] bs[j]).timestamp,
            decreases hi - i,
        {
            proof {
                lemma_concat_take(part, i - lo, f);
                assert(part[i - lo] == bs[i as int]);
                assert(bs[i as int].wf());
            }
            let ghost prior = out@;
            let b = &self.buckets[i];
            let list = b.counts.entries();
            let ghost es = b.counts@;
            let ghost ts = b.timestamp;
            let mut j: usize = 0;
            proof {
                assert(es.take(0) =~= Seq::<(P, u64)>::empty());
                assert(concat(es.take(0), copies()).map_values(stamped::<P>(ts)) =~= Seq::<(i64, P)>::empty());
                assert forall|k: int| 0 <= k < prior.len() implies (#[trigger] prior[k]).timestamp < ts by {
                    let q = choose|q: int| lo <= q < i && prior[k].timestamp == (#[trigger] bs[q]).timestamp;
                    assert(bs[q].timestamp < bs[i as int].timestamp);
                }
            }
            while j < list.len()
                invariant
                    lawful::<P>(),
                    b.wf(),
                    es == b.counts@,
                    list@ == es,
                    ts == b.timestamp,
                    j <= es.len(),
                    entries_wf(out@),
                    prior.len() <= out@.len(),
                    out@.len() == prior.len() + j,
                    forall|k: int| 0 <= k < prior.len() ==> (#[trigger] out@[k]) == prior[k],
                    forall|k: int| 0 <= k < prior.len() ==> (#[trigger] prior[k]).timestamp < ts,
                    forall|k: int|
                        prior.len() <= k < out@.len() ==> (#[trigger] out@[k]).timestamp == ts && out@[k].payload
                            == es[k - prior.len()].0,
                    concat(out@, entry_items()) == concat(prior, entry_items()) + concat(
                        es.take(j as int),
                        copies(),
                    ).map_values(stamped::<P>(ts)),
                decreases es.len() - j,
            {
                let e = TimeIndexEntry::new(b.timestamp, dup(&list[j].0), list[j].1);
                let ghost mid = out@;
                out.push(e);
                proof {
                    assert(out@ =~= mid + seq![e]);
                    lemma_concat_add(mid, seq![e], entry_items());
                    lemma_concat_one(e, entry_items());
                    lemma_concat_take(es, j as int, copies());
                    let c = copies::<P>()(es[j as int]);
                    let base = concat(es.take(j as int), copies());
                    assert(entry_items::<P>()(e) =~= c.map_values(stamped::<P>(ts)));
                    assert((base + c).map_values(stamped::<P>(ts)) =~= base.map_values(stamped::<P>(ts))
                        + c.map_values(stamped::<P>(ts)));
                    let l = concat(prior, entry_items());
                    let m = base.map_values(stamped::<P>(ts));
                    let n = c.map_values(stamped::<P>(ts));
                    assert(l + m + n =~= l + (m + n));
                    assert(es[j as int].1 > 0);
                    assert forall|x: int, y: int| 0 <= x < y < out@.len() implies (#[trigger] out@[x]).timestamp
                        != (#[trigger] out@[y]).timestamp || out@[x].payload != out@[y].payload by {
                        if y == out@.len() - 1 && x >= prior.len() {
                            assert(es[x - prior.len()].0 != es[j as int].0);
                        }
                    }
                }
                j += 1;
            }
            assert(es.take(j as int) =~= es);
            proof {
                assert forall|k: int| 0 <= k < out@.len() implies exists|q: int|
                    lo <= q < i + 1 && (#[trigger] out@[k]).timestamp == (#[trigger] bs[q]).timestamp by {
                    if k < prior.len() {
                        assert(out@[k] == prior[k]);
                        let q = choose|q: int| lo <= q < i && prior[k].timestamp == (#[trigger] bs[q]).timestamp;
                        assert(lo <= q < i + 1 && out@[k].timestamp == bs[q].timestamp);
                    } else {
                        assert(out@[k].timestamp == bs[i as int].timestamp);
                    }
                }
            }
            i += 1;
        }
        proof {
            assert(part.take(i - lo) =~= part);
            assert forall|k: int| 0 <= k < out@.len() implies start <= (#[trigger] out@[k]).timestamp <= end by {
                let q = choose|q: int| lo <= q < i && out@[k].timestamp == (#[trigger] bs[q]).timestamp;
                assert(start <= self.buckets@[q].timestamp <= end);
            }
        }
        out
    }

    /// Deletes every payload with a timestamp in `[start, end]` and returns
    /// the deleted aggregate.
    #[verifier::spinoff_prover]
    pub fn delete_range(&mut self, start: i64, end: i64) -> (r: RangeResult<P>)
        requires
            lawful::<P>(),
            old(self).wf(),
        ensures
            final(self).wf(),
            final(self)@ == old(self)@.filter(out_of_range(start, end)),
            r.describes(payloads(old(self)@.filter(in_range(start, end)))),
    {
        let ghost bs = self.buckets@;
        if start > end {
            proof {
                lemma_filter_all_or_none(self@, in_range(start, end));
                lemma_filter_all_or_none(self@, out_of_range(start, end));
                assert(payloads(Seq::<(i64, P)>::empty()) =~= Seq::<P>::empty());
            }
            return RangeResult::empty();
        }
        let result = self.query_range(start, end);
        let lo = self.lower_bound(start);
        let hi = self.upper_bound(end);
        proof {
            if lo > hi {
                assert(bs[hi as int].timestamp > end);
                assert(bs[hi as int].timestamp < start);
            }
            lemma_range_split(bs, lo as int, hi as int, start, end);
            self@.lemma_filter_len(out_of_range(start, end));
        }
        let mut i: usize = lo;
        while i < hi
            invariant
                lo <= i <= hi <= bs.len(),
                self.buckets@ == bs.take(lo as int) + bs.skip(i as int),
            decreases hi - i,
        {
            let ghost mid = self.buckets@;
            self.buckets.remove(lo);
            assert(mid.remove(lo as int) =~= bs.take(lo as int) + bs.skip(i + 1));
            i += 1;
        }
        proof {
            let rest = bs.take(lo as int) + bs.skip(hi as int);
            assert forall|k: int| 0 <= k < rest.len() implies (#[trigger] rest[k]).wf() by {
                let q = if k < lo { k } else { k - lo + hi };
                assert(bs[q].wf());
            }
            assert forall|x: int, y: int| 0 <= x < y < rest.len() implies (#[trigger] rest[x]).timestamp < (
            #[trigger] rest[y]).timestamp by {
                let p = if x < lo { x } else { x - lo + hi };
                let q = if y < lo { y } else { y - lo + hi };
                assert(bs[p].timestamp < bs[q].timestamp);
            }
        }
        result
    }
}

/// Entries carry positive counts, no pair occurs twice, timestamps ascend.
pub open spec fn entries_wf<P>(entries: Seq<TimeIndexEntry<P>>) -> bool {
    &&& forall|i: int| 0 <= i < entries.len() ==> (#[trigger] entries[i]).count > 0
    &&& forall|i: int, j: int|
        0 <= i < j < entries.len() ==> (#[trigger] entries[i]).timestamp != (#[trigger] entries[j]).timestamp
            || entries[i].payload != entries[j].payload
    &&& forall|i: int, j: int|
        0 <= i < j < entries.len() ==> (#[trigger] entries[i]).timestamp <= (#[trigger] entries[j]).timestamp
}

/// The counts of `entries` added up.
pub open spec fn count_sum<P>(entries: Seq<TimeIndexEntry<P>>) -> nat
    decreases entries.len(),
{
    if entries.len() == 0 {
        0
    } else {
        count_sum(entries.drop_last()) + entries.last().count as nat
    }
}

/// The counts of the entries for `payload` added up.
pub open spec fn payload_sum<P>(entries: Seq<TimeIndexEntry<P>>, payload: P) -> nat
    decreases entries.len(),
{
    if entries.len() == 0 {
        0
    } else {
        payload_sum(entries.drop_last(), payload) + if entries.last().payload == payload {
            entries.last().count as nat
        } else {
            0
        }
    }
}

proof fn lemma_entry_sums<P>(entries: Seq<TimeIndexEntry<P>>, payload: P)
    ensures
        payloads(concat(entries, entry_items())).len() == count_sum(entries),
        payloads(concat(entries, entry_items())).to_multiset().count(payload) == payload_sum(entries, payload),
    decreases entries.len(),
{
    let f = entry_items::<P>();
    if entries.len() == 0 {
        assert(payloads(concat(entries, f)) =~= Seq::<P>::empty());
        crate::listing::lemma_multiset_empty::<P>();
    } else {
        let e = entries.last();
        let head = concat(entries.drop_last(), f);
        lemma_entry_sums(entries.drop_last(), payload);
        lemma_payloads_add(head, f(e));
        assert(payloads(f(e)) =~= repeated(e.payload, e.count as nat));
        crate::listing::lemma_multiset_add(payloads(head), payloads(f(e)));
        crate::listing::lemma_multiset_repeated(e.payload, e.count as nat);
    }
}

/// A range query answers what its entries add up to: the counts of all
/// entries make up the total, and those for a payload its multiplicity.
pub proof fn law_entries_add_up<P>(entries: Seq<TimeIndexEntry<P>>, found: Seq<(i64, P)>, r: RangeResult<P>)
    requires
        concat(entries, entry_items()) == found,
        r.describes(payloads(found)),
    ensures
        r.total_count == count_sum(entries),
        forall|p: P| #[trigger] r.payload_counts.items().to_multiset().count(p) == payload_sum(entries, p),
{
    assert forall|p: P| #[trigger] r.payload_counts.items().to_multiset().count(p) == payload_sum(entries, p) by {
        lemma_entry_sums(entries, p);
    }
    lemma_entry_sums(entries, arbitrary());
}

} // verus!
