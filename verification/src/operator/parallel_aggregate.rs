//! Windowed aggregation spread over buckets.
//!
//! The elements are put into buckets by window and group, so that no group is
//! split; the buckets are aggregated in parallel.
use core::marker::PhantomData;
use vstd::prelude::*;

use crate::operator::aggregate::{
    aggregate_picks, aggregated, all_positions, any_tag, folded_upto, has_result, is_picked, key_of, picked, seen,
    tag_elements, tag_of, taggable, tagged, tags_of, AggregateFunction, AggregateResult, GroupKey, Tag,
};
use crate::operator::parallel::ParallelExecutionConfig;
use crate::par::par_map;
use crate::stream::Timestamped;

verus! {

/// One step of the fingerprint.
pub open spec fn mixed(h: u64, x: u64) -> u64 {
    vstd::wrapping::u64_specs::wrapping_add(vstd::wrapping::u64_specs::wrapping_mul(h, 31), x)
}

pub open spec fn mixed_text(h: u64, s: Seq<char>) -> u64
    decreases s.len(),
{
    if s.len() == 0 {
        h
    } else {
        mixed(mixed_text(h, s.drop_last()), s.last() as u64)
    }
}

/// Each text is followed by a number that no character has.
pub open spec fn mixed_texts(h: u64, texts: Seq<Seq<char>>) -> u64
    decreases texts.len(),
{
    if texts.len() == 0 {
        h
    } else {
        mixed(mixed_text(mixed_texts(h, texts.drop_last()), texts.last()), 0x11_0000)
    }
}

/// A number computed from a window and a group.
pub open spec fn fingerprint(tag: Tag) -> u64 {
    match tag.1 {
        Some(texts) => mixed_texts(mixed(1, window_number(tag.0)), texts),
        None => mixed(0, window_number(tag.0)),
    }
}

/// A window start, shifted so that it is not negative.
pub open spec fn window_number(start: i64) -> u64 {
    (start - i64::MIN) as u64
}

pub open spec fn bucket_of(tag: Tag, buckets: usize) -> int {
    fingerprint(tag) as int % buckets as int
}

/// The tags of one bucket.
pub open spec fn in_bucket(b: int, buckets: usize) -> spec_fn(Tag) -> bool {
    |tag: Tag| bucket_of(tag, buckets) == b
}

/// The tags of the buckets before one.
pub open spec fn below_bucket(b: int, buckets: usize) -> spec_fn(Tag) -> bool {
    |tag: Tag| bucket_of(tag, buckets) < b
}

fn mix(h: u64, x: u64) -> (r: u64)
    ensures
        r == mixed(h, x),
{
    h.wrapping_mul(31).wrapping_add(x)
}

fn mix_text(h: u64, s: &str) -> (r: u64)
    ensures
        r == mixed_text(h, s@),
{
    let mut r: u64 = h;
    for c in iter: s.chars()
        invariant
            iter.seq() == s@,
            r == mixed_text(h, s@.take(iter.index())),
            iter.index() <= s@.len(),
    {
        let ghost i = iter.index();
        r = mix(r, c as u64);
        assert(s@.take(i + 1).drop_last() =~= s@.take(i));
    }
    assert(s@.take(s@.len() as int) =~= s@);
    r
}

/// One bucket: its number and the positions of its elements.
struct Bucket {
    number: usize,
    picks: Vec<usize>,
}

/// Aggregates elements by time window and group, bucket by bucket.
pub struct ParallelWindowedAggregateOperator<T, ACC, R, AF, GF> where
    AF: AggregateFunction<T, ACC, R>,
    GF: Fn(&T) -> Option<GroupKey> + Send + Sync,
 {
    aggregate_fn: AF,
    group_by_fn: GF,
    window_size_ms: i64,
    parallelism: usize,
    kinds: PhantomData<(T, ACC, R)>,
}

/// The buckets with numbers from 0 on hold the positions of their tags, among
/// the first `n`.
spec fn buckets_hold(buckets: Seq<Bucket>, tags: Seq<Tag>, count: usize, n: int) -> bool {
    &&& buckets.len() == count
    &&& forall|b: int|
        0 <= b < buckets.len() ==> (#[trigger] buckets[b]).number == b && picked(
            tags,
            in_bucket(b, count),
            buckets[b].picks@,
            n,
        )
}

proof fn lemma_picked_more(tags: Seq<Tag>, chosen: spec_fn(Tag) -> bool, picks: Seq<usize>, n: int)
    requires
        0 <= n < usize::MAX,
        picked(tags, chosen, picks, n),
    ensures
        chosen(tags[n]) ==> picked(tags, chosen, picks.push(n as usize), n + 1),
        !chosen(tags[n]) ==> picked(tags, chosen, picks, n + 1),
{
    let more = picks.push(n as usize);
    assert forall|k: int| 0 <= k < n + 1 && chosen(#[trigger] tags[k]) implies is_picked(more, k) by {
        if k < n {
            assert(is_picked(picks, k));
            let j = choose|j: int| 0 <= j < picks.len() && #[trigger] picks[j] == k;
            assert(more[j] == k);
        } else {
            assert(more[picks.len() as int] == k);
        }
    }
}

/// Results of disjoint buckets together are the results of both.
proof fn lemma_aggregated_join<T, ACC, R, AF: AggregateFunction<T, ACC, R>>(
    af: AF,
    size: i64,
    elements: Seq<T>,
    tags: Seq<Tag>,
    b: int,
    count: usize,
    left: Seq<AggregateResult<R>>,
    right: Seq<AggregateResult<R>>,
)
    requires
        aggregated::<T, ACC, R, AF>(af, size, elements, tags, below_bucket(b, count), left),
        aggregated::<T, ACC, R, AF>(af, size, elements, tags, in_bucket(b, count), right),
    ensures
        aggregated::<T, ACC, R, AF>(af, size, elements, tags, below_bucket(b + 1, count), left + right),
{
    let both = left + right;
    let chosen = below_bucket(b + 1, count);
    assert forall|i: int| 0 <= i < both.len() implies {
        let tag = tag_of(#[trigger] both[i]);
        &&& chosen(tag)
        &&& seen(tags, tag, tags.len() as int)
        &&& both[i].window_end == both[i].window_start + size
        &&& both[i].timestamp == both[i].window_end
        &&& both[i].value == af.outcome(
            folded_upto::<T, ACC, R, AF>(af, elements, tags, tag, tags.len() as int),
        )
    } by {
        if i < left.len() {
            assert(both[i] == left[i]);
        } else {
            assert(both[i] == right[i - left.len()]);
        }
    }
    assert forall|i: int, j: int| 0 <= i < j < both.len() implies tag_of(#[trigger] both[i]) != tag_of(
        #[trigger] both[j],
    ) by {
        if j < left.len() {
            assert(tag_of(left[i]) != tag_of(left[j]));
        } else if i >= left.len() {
            assert(tag_of(right[i - left.len()]) != tag_of(right[j - left.len()]));
        } else {
            assert(below_bucket(b, count)(tag_of(left[i])));
            assert(in_bucket(b, count)(tag_of(right[j - left.len()])));
        }
    }
    assert forall|k: int| 0 <= k < tags.len() && chosen(#[trigger] tags[k]) implies has_result(both, tags[k]) by {
        if below_bucket(b, count)(tags[k]) {
            assert(has_result(left, tags[k]));
            let i = choose|i: int| 0 <= i < left.len() && tag_of(#[trigger] left[i]) == tags[k];
            assert(tag_of(both[i]) == tags[k]);
        } else {
            assert(in_bucket(b, count)(tags[k]));
            assert(has_result(right, tags[k]));
            let i = choose|i: int| 0 <= i < right.len() && tag_of(#[trigger] right[i]) == tags[k];
            assert(both[left.len() + i] == right[i]);
        }
    }
}

proof fn lemma_aggregated_all<T, ACC, R, AF: AggregateFunction<T, ACC, R>>(
    af: AF,
    size: i64,
    elements: Seq<T>,
    tags: Seq<Tag>,
    count: usize,
    results: Seq<AggregateResult<R>>,
)
    requires
        count > 0,
        aggregated::<T, ACC, R, AF>(af, size, elements, tags, below_bucket(count as int, count), results),
    ensures
        aggregated::<T, ACC, R, AF>(af, size, elements, tags, any_tag(), results),
{
    assert forall|k: int| 0 <= k < tags.len() && any_tag()(#[trigger] tags[k]) implies has_result(
        results,
        tags[k],
    ) by {
        let h = fingerprint(tags[k]) as int;
        assert(h % (count as int) < count) by (nonlinear_arith)
            requires
                count > 0,
                h >= 0,
        ;
        assert(below_bucket(count as int, count)(tags[k]));
    }
}

impl<T, ACC, R, AF, GF> ParallelWindowedAggregateOperator<T, ACC, R, AF, GF> where
    T: Timestamped + Sync,
    R: Send,
    AF: AggregateFunction<T, ACC, R>,
    GF: Fn(&T) -> Option<GroupKey> + Send + Sync,
 {
    pub closed spec fn function(&self) -> AF {
        self.aggregate_fn
    }

    pub closed spec fn grouping(&self) -> GF {
        self.group_by_fn
    }

    pub closed spec fn size(&self) -> i64 {
        self.window_size_ms
    }

    pub closed spec fn workers(&self) -> usize {
        self.parallelism
    }

    pub closed spec fn wf(&self) -> bool {
        self.parallelism > 0
    }

    /// An operator with the default settings.
    pub fn new(aggregate_fn: AF, group_by_fn: GF, window_size_ms: i64) -> (r: Self)
        ensures
            r.wf(),
            r.function() == aggregate_fn,
            r.grouping() == group_by_fn,
            r.size() == window_size_ms,
            r.workers() == crate::operator::parallel::FALLBACK_PARALLELISM,
    {
        Self::with_config(aggregate_fn, group_by_fn, window_size_ms, &ParallelExecutionConfig::default())
    }

    /// An operator with as many buckets as the settings have workers, at least
    /// one.
    pub fn with_config(
        aggregate_fn: AF,
        group_by_fn: GF,
        window_size_ms: i64,
        config: &ParallelExecutionConfig,
    ) -> (r: Self)
        ensures
            r.wf(),
            r.function() == aggregate_fn,
            r.grouping() == group_by_fn,
            r.size() == window_size_ms,
            r.workers() == if config.parallelism == 0 {
                1
            } else {
                config.parallelism
            },
    {
        let parallelism: usize = if config.parallelism == 0 {
            1
        } else {
            config.parallelism
        };
        ParallelWindowedAggregateOperator { aggregate_fn, group_by_fn, window_size_ms, parallelism, kinds: PhantomData }
    }

    pub fn parallelism(&self) -> (r: usize)
        ensures
            r == self.workers(),
    {
        self.parallelism
    }

    fn bucket_for(&self, start: i64, group: &Option<GroupKey>) -> (r: usize)
        requires
            self.wf(),
        ensures
            r < self.workers(),
            r == bucket_of((start, key_of(*group)), self.workers()),
    {
        let number: u64 = (start as i128 - i64::MIN as i128) as u64;
        assert(number == window_number(start));
        let h: u64 = match group {
            None => mix(0, number),
            Some(key) => {
                let mut h: u64 = mix(1, number);
                let ghost h0 = h;
                let mut i: usize = 0;
                while i < key.values.len()
                    invariant
                        i <= key.values@.len(),
                        key@.len() == key.values@.len(),
                        h == mixed_texts(h0, key@.take(i as int)),
                    decreases key.values@.len() - i,
                {
                    h = mix(mix_text(h, key.values[i].as_str()), 0x11_0000);
                    proof {
                        assert(key@[i as int] == key.values@[i as int]@);
                        assert(key@.take(i + 1).drop_last() =~= key@.take(i as int));
                    }
                    i += 1;
                }
                assert(key@.take(i as int) =~= key@);
                h
            },
        };
        (h as u128 % self.parallelism as u128) as usize
    }

    /// Puts the positions of the elements into buckets.
    fn partition(&self, keys: &Vec<(i64, Option<GroupKey>)>) -> (r: Vec<Bucket>)
        requires
            self.wf(),
        ensures
            buckets_hold(r@, tags_of(keys@), self.workers(), keys@.len() as int),
    {
        let ghost tags = tags_of(keys@);
        let count: usize = self.parallelism;
        let mut buckets: Vec<Bucket> = Vec::new();
        let mut b: usize = 0;
        while b < count
            invariant
                b <= count,
                buckets@.len() == b,
                forall|j: int|
                    0 <= j < b ==> (#[trigger] buckets@[j]).number == j && buckets@[j].picks@.len() == 0,
            decreases count - b,
        {
            buckets.push(Bucket { number: b, picks: Vec::new() });
            b += 1;
        }
        let mut i: usize = 0;
        while i < keys.len()
            invariant
                self.wf(),
                count == self.workers(),
                tags == tags_of(keys@),
                i <= keys@.len(),
                buckets_hold(buckets@, tags, count, i as int),
            decreases keys@.len() - i,
        {
            let to: usize = self.bucket_for(keys[i].0, &keys[i].1);
            assert(tags[i as int] == (keys@[i as int].0, key_of(keys@[i as int].1)));
            let ghost before = buckets@;
            let mut bucket = buckets.remove(to);
            bucket.picks.push(i);
            buckets.insert(to, bucket);
            proof {
                assert forall|j: int| 0 <= j < buckets@.len() implies (#[trigger] buckets@[j]).number == j && picked(
                    tags,
                    in_bucket(j, count),
                    buckets@[j].picks@,
                    i + 1,
                ) by {
                    assert(before[j].number == j);
                    lemma_picked_more(tags, in_bucket(j, count), before[j].picks@, i as int);
                    if j != to {
                        assert(buckets@[j] == before[j]);
                        assert(!in_bucket(j, count)(tags[i as int]));
                    } else {
                        assert(in_bucket(j, count)(tags[i as int]));
                    }
                }
            }
            i += 1;
        }
        buckets
    }

    /// One result for each window and group of the elements.
    pub fn process_batch(&self, elements: &[T]) -> (r: Vec<AggregateResult<R>>)
        requires
            self.wf(),
            taggable(self.grouping(), self.size(), elements@),
        ensures
            exists|tags: Seq<Tag>| #[trigger]
                tagged(self.grouping(), self.size(), elements@, tags) && aggregated::<T, ACC, R, AF>(
                    self.function(),
                    self.size(),
                    elements@,
                    tags,
                    any_tag(),
                    r@,
                ),
    {
        let keys = tag_elements(&self.group_by_fn, self.window_size_ms, elements);
        let ghost tags = tags_of(keys@);
        assert(tagged(self.grouping(), self.size(), elements@, tags));
        if self.parallelism <= 1 {
            let picks = all_positions(keys.len(), Ghost(tags));
            return aggregate_picks::<T, ACC, R, AF>(
                &self.aggregate_fn,
                self.window_size_ms,
                elements,
                &keys,
                &picks,
                Ghost(any_tag()),
            );
        }
        let buckets = self.partition(&keys);
        let size: i64 = self.window_size_ms;
        let count: usize = self.parallelism;
        let af = &self.aggregate_fn;
        let aggregate = |bucket: &Bucket| -> (out: Vec<AggregateResult<R>>)
            requires
                keys@.len() == elements@.len(),
                forall|k: int| 0 <= k < keys@.len() ==> i64::MIN <= (#[trigger] keys@[k]).0 + size <= i64::MAX,
                picked(
                    tags_of(keys@),
                    in_bucket(bucket.number as int, count),
                    bucket.picks@,
                    keys@.len() as int,
                ),
            ensures
                aggregated::<T, ACC, R, AF>(
                    *af,
                    size,
                    elements@,
                    tags_of(keys@),
                    in_bucket(bucket.number as int, count),
                    out@,
                ),
            {
                aggregate_picks::<T, ACC, R, AF>(
                    af,
                    size,
                    elements,
                    &keys,
                    &bucket.picks,
                    Ghost(in_bucket(bucket.number as int, count)),
                )
            };
        let parts = par_map(&buckets, aggregate);
        let mut r: Vec<AggregateResult<R>> = Vec::new();
        let ghost given = parts@;
        let ghost mut b: int = 0;
        let rest = parts;
        assert forall|j: int| 0 <= j < given.len() implies aggregated::<T, ACC, R, AF>(
            *af,
            size,
            elements@,
            tags,
            in_bucket(j, count),
            (#[trigger] given[j])@,
        ) by {
            assert(buckets@[j].number == j);
        }
        assert(aggregated::<T, ACC, R, AF>(*af, size, elements@, tags, below_bucket(0, count), r@)) by {
            assert forall|k: int| 0 <= k < tags.len() implies !below_bucket(0, count)(#[trigger] tags[k]) by {
                let h = fingerprint(tags[k]) as int;
                assert(0 <= h % (count as int)) by (nonlinear_arith)
                    requires
                        count > 0,
                        h >= 0,
                ;
            }
        }
        for results in iter: rest
            invariant
                0 <= b <= given.len(),
                given.len() == count,
                iter.seq() == given,
                iter.index() == b,
                forall|j: int|
                    0 <= j < given.len() ==> aggregated::<T, ACC, R, AF>(
                        *af,
                        size,
                        elements@,
                        tags,
                        in_bucket(j, count),
                        (#[trigger] given[j])@,
                    ),
                aggregated::<T, ACC, R, AF>(*af, size, elements@, tags, below_bucket(b, count), r@),
        {
            let mut part = results;
            proof {
                lemma_aggregated_join::<T, ACC, R, AF>(*af, size, elements@, tags, b, count, r@, given[b]@);
            }
            r.append(&mut part);
            proof {
                b = b + 1;
            }
        }
        proof {
            assert(b == count);
            lemma_aggregated_all::<T, ACC, R, AF>(*af, size, elements@, tags, count, r@);
        }
        r
    }
}

} // verus!
