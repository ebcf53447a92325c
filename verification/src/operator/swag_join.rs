//! Join records, key extraction and the key-indexed time index.
use vstd::prelude::*;

use crate::listing::{concat, dup, inserted, lawful, same};
use crate::listing::{
    lemma_concat_contains, lemma_concat_drop_empty, lemma_concat_filter, lemma_concat_grow,
    lemma_concat_grow_new, lemma_concat_len_ge, lemma_concat_shrink, lemma_concat_split,
    lemma_concat_take, lemma_concat_take_len, lemma_filter_all_or_none, lemma_inserted_map,
    lemma_inserted_multiset, lemma_map_filter, lemma_multiset_add,
};
use crate::names::{text, NameMap, NameSet};
use crate::operator::payload_counts::PayloadCounts;
use crate::operator::time_index::{in_range, payloads, stamp_of, timestamps, RangeResult, TimeIndex};

verus! {

/// Pairs a stream element with its aggregation payload.
#[derive(Debug, Hash)]
pub struct JoinRecord<E, P> {
    pub element: E,
    pub payload: P,
}

impl<E, P> JoinRecord<E, P> {
    pub fn new(element: E, payload: P) -> (r: Self)
        ensures
            r == (JoinRecord { element, payload }),
    {
        JoinRecord { element, payload }
    }
}

impl<E: Clone, P: Clone> Clone for JoinRecord<E, P> {
    fn clone(&self) -> (r: Self)
        ensures
            cloned(self.element, r.element),
            cloned(self.payload, r.payload),
    {
        JoinRecord { element: self.element.clone(), payload: self.payload.clone() }
    }
}

impl<E: PartialEq, P: PartialEq> PartialEq for JoinRecord<E, P> {
    fn eq(&self, other: &Self) -> (r: bool) {
        proof {
            reveal(vstd::laws_eq::obeys_concrete_eq);
        }
        self.element == other.element && self.payload == other.payload
    }
}

impl<E: PartialEq, P: PartialEq> vstd::std_specs::cmp::PartialEqSpecImpl for JoinRecord<E, P> {
    open spec fn obeys_eq_spec() -> bool {
        vstd::laws_eq::obeys_concrete_eq::<E>() && vstd::laws_eq::obeys_concrete_eq::<P>()
    }

    open spec fn eq_spec(&self, other: &Self) -> bool {
        *self == *other
    }
}

impl<E: Eq, P: Eq> Eq for JoinRecord<E, P> {
}

/// Records of lawful parts are lawful.
pub proof fn lemma_record_lawful<E: Eq + Clone, P: Eq + Clone>()
    requires
        lawful::<E>(),
        lawful::<P>(),
    ensures
        lawful::<JoinRecord<E, P>>(),
{
    reveal(vstd::laws_eq::obeys_concrete_eq);
    assert forall|a: JoinRecord<E, P>, b: JoinRecord<E, P>| #[trigger]
        cloned::<JoinRecord<E, P>>(a, b) implies a == b by {
        if a != b {
            assert(cloned(a.element, b.element));
            assert(cloned(a.payload, b.payload));
        }
    }
}

/// A function from elements to join keys.
pub trait KeyExtractor<T, K>: Fn(&T) -> K {

}

impl<T, K, F: Fn(&T) -> K> KeyExtractor<T, K> for F {

}

/// An extractor that always returns `value`: every element joins with every other.
pub fn constant<T, K: Clone>(value: K) -> (f: impl Fn(&T) -> K)
    ensures
        forall|t: &T| #[trigger] call_requires(f, (t,)),
        forall|t: &T, k: K| #[trigger] call_ensures(f, (t,), k) ==> cloned(value, k),
{
    move |t: &T| -> (k: K)
        ensures
            cloned(value, k),
        { value.clone() }
}

/// An extractor that takes the element itself as the key.
pub fn identity<T: Clone, K: From<T>>() -> (f: impl Fn(&T) -> K)
    requires
        forall|c: T| #[trigger] call_requires(K::from, (c,)),
    ensures
        forall|t: &T| #[trigger] call_requires(f, (t,)),
        forall|t: &T, k: K| #[trigger]
            call_ensures(f, (t,), k) ==> exists|c: T| cloned(*t, c) && call_ensures(K::from, (c,), k),
{
    |t: &T| -> (k: K)
        ensures
            exists|c: T| cloned(*t, c) && call_ensures(K::from, (c,), k),
        {
            let c = t.clone();
            assert(cloned(*t, c));
            let k = K::from(c);
            k
        }
}

/// How a variable order was derived.
#[derive(Clone, Copy, Debug, PartialEq, Eq, Hash, Structural)]
#[non_exhaustive]
pub enum VariableOrderMethod {
    /// GYO reduction to the join tree of an acyclic query.
    GyoJoinTree,
    /// Minimum-fill heuristic for cyclic queries.
    MinFill,
}

/// The order in which variables are bound when a multi-way join is evaluated,
/// the order in which they are eliminated, and the join tree of the relations
/// if the query is acyclic.
#[derive(Clone, Debug)]
pub struct VariableOrder {
    prefix_order: Vec<String>,
    elimination_order: Vec<String>,
    acyclic: bool,
    join_tree: NameMap<NameSet>,
    method: VariableOrderMethod,
}

impl VariableOrder {
    pub closed spec fn prefix(&self) -> Seq<Seq<char>> {
        self.prefix_order@.map_values(text())
    }

    pub closed spec fn elimination(&self) -> Seq<Seq<char>> {
        self.elimination_order@.map_values(text())
    }

    pub closed spec fn acyclic(&self) -> bool {
        self.acyclic
    }

    pub closed spec fn tree(&self) -> NameMap<NameSet> {
        self.join_tree
    }

    pub closed spec fn derived_by(&self) -> VariableOrderMethod {
        self.method
    }

    pub fn new(
        prefix_order: Vec<String>,
        elimination_order: Vec<String>,
        acyclic: bool,
        join_tree: NameMap<NameSet>,
        method: VariableOrderMethod,
    ) -> (r: Self)
        ensures
            r.prefix() == prefix_order@.map_values(text()),
            r.elimination() == elimination_order@.map_values(text()),
            r.acyclic() == acyclic,
            r.tree() == join_tree,
            r.derived_by() == method,
    {
        VariableOrder { prefix_order, elimination_order, acyclic, join_tree, method }
    }

    pub fn prefix_order(&self) -> (r: &[String])
        ensures
            r@.map_values(text()) == self.prefix(),
    {
        self.prefix_order.as_slice()
    }

    pub fn elimination_order(&self) -> (r: &[String])
        ensures
            r@.map_values(text()) == self.elimination(),
    {
        self.elimination_order.as_slice()
    }

    pub fn is_acyclic(&self) -> (r: bool)
        ensures
            r == self.acyclic(),
    {
        self.acyclic
    }

    pub fn join_tree(&self) -> (r: &NameMap<NameSet>)
        ensures
            *r == self.tree(),
    {
        &self.join_tree
    }

    pub fn method(&self) -> (r: VariableOrderMethod)
        ensures
            r == self.derived_by(),
    {
        self.method
    }
}

/// Puts a listed pair under its join key.
pub open spec fn under<K, P>(k: K) -> spec_fn((i64, P)) -> (K, i64, P) {
    |it: (i64, P)| (k, it.0, it.1)
}

/// The item has join key `k` and lies in `[start, end]`.
pub open spec fn keyed_range<K, P>(k: K, start: i64, end: i64) -> spec_fn((K, i64, P)) -> bool {
    |it: (K, i64, P)| it.0 == k && start <= it.1 <= end
}

/// The item lies in `[start, end]`, whatever its key.
pub open spec fn any_key_range<K, P>(start: i64, end: i64) -> spec_fn((K, i64, P)) -> bool {
    |it: (K, i64, P)| start <= it.1 <= end
}

/// The payloads of keyed items.
pub open spec fn keyed_payloads<K, P>(items: Seq<(K, i64, P)>) -> Seq<P> {
    items.map_values(|it: (K, i64, P)| it.2)
}

/// The item has join key `k`.
pub open spec fn has_key<K, P>(k: K) -> spec_fn((K, i64, P)) -> bool {
    |it: (K, i64, P)| it.0 == k
}

/// The join key of an item.
pub open spec fn item_key<K, P>() -> spec_fn((K, i64, P)) -> K {
    |it: (K, i64, P)| it.0
}

/// The join key and timestamp of an item.
pub open spec fn item_stamp<K, P>() -> spec_fn((K, i64, P)) -> (K, i64) {
    |it: (K, i64, P)| (it.0, it.1)
}

/// The pairs listed under one key.
pub open spec fn of_key<K, P>(items: Seq<(K, i64, P)>, k: K) -> Seq<(i64, P)> {
    items.filter(has_key(k)).map_values(|it: (K, i64, P)| (it.1, it.2))
}

/// The distinct keys of a listing.
pub open spec fn key_set<K, P>(items: Seq<(K, i64, P)>) -> Set<K> {
    items.map_values(item_key()).to_set()
}

/// The distinct `(key, timestamp)` pairs of a listing.
pub open spec fn key_stamps<K, P>(items: Seq<(K, i64, P)>) -> Set<(K, i64)> {
    items.map_values(item_stamp()).to_set()
}

/// The timestamp of an item.
pub open spec fn item_time<K, P>() -> spec_fn((K, i64, P)) -> i64 {
    |it: (K, i64, P)| it.1
}

/// The distinct timestamps of a listing, whatever the keys.
pub open spec fn key_times<K, P>(items: Seq<(K, i64, P)>) -> Set<i64> {
    items.map_values(item_time()).to_set()
}

/// One join key with the time index of its payloads.
#[derive(Debug)]
pub struct KeySlot<K, P> {
    key: K,
    index: TimeIndex<P>,
}

spec fn slot_items<K, P>() -> spec_fn(KeySlot<K, P>) -> Seq<(K, i64, P)> {
    |s: KeySlot<K, P>| s.index@.map_values(under(s.key))
}

/// Keys are distinct; every slot's index is sound and not empty.
spec fn slots_wf<K, P>(slots: Seq<KeySlot<K, P>>) -> bool {
    &&& forall|i: int, j: int| 0 <= i < j < slots.len() ==> (#[trigger] slots[i]).key != (#[trigger] slots[j]).key
    &&& forall|i: int| 0 <= i < slots.len() ==> (#[trigger] slots[i]).index.wf() && slots[i].index@.len() > 0
}

proof fn lemma_slot_filter<K, P>(s: KeySlot<K, P>, k: K, start: i64, end: i64)
    ensures
        s.key == k ==> slot_items()(s).filter(keyed_range(k, start, end)) == s.index@.filter(
            in_range(start, end),
        ).map_values(under(k)),
        s.key != k ==> slot_items()(s).filter(keyed_range(k, start, end)) == Seq::<(K, i64, P)>::empty(),
        slot_items()(s).filter(any_key_range(start, end)) == s.index@.filter(in_range(start, end)).map_values(
            under(s.key),
        ),
{
    let items = s.index@;
    let g = under::<K, P>(s.key);
    lemma_map_filter(items, g, any_key_range(start, end), in_range(start, end));
    if s.key == k {
        lemma_map_filter(items, g, keyed_range(k, start, end), in_range(start, end));
    } else {
        lemma_filter_all_or_none(items.map_values(g), keyed_range(k, start, end));
    }
}

proof fn lemma_keyed_payloads<K, P>(items: Seq<(i64, P)>, k: K)
    ensures
        keyed_payloads(items.map_values(under(k))) == payloads(items),
{
    assert(keyed_payloads(items.map_values(under(k))) =~= payloads(items));
}

/// Key-indexed time index for equi-joins: one [`TimeIndex`] per join key.
///
/// Its view lists every payload with its join key and timestamp.
#[derive(Debug)]
pub struct KeyIndexedTimeIndex<K, P> {
    slots: Vec<KeySlot<K, P>>,
    total_count: u64,
}

impl<K, P> View for KeyIndexedTimeIndex<K, P> {
    type V = Seq<(K, i64, P)>;

    closed spec fn view(&self) -> Seq<(K, i64, P)> {
        concat(self.slots@, slot_items())
    }
}

impl<K, P> KeyIndexedTimeIndex<K, P> {
    pub closed spec fn wf(&self) -> bool {
        &&& slots_wf(self.slots@)
        &&& self.total_count == self@.len()
    }

    /// Builds an empty index.
    pub fn new() -> (r: Self)
        ensures
            r.wf(),
            r@ == Seq::<(K, i64, P)>::empty(),
    {
        KeyIndexedTimeIndex { slots: Vec::new(), total_count: 0 }
    }

    /// Total payload occurrences across every join key.
    pub fn size(&self) -> (r: u64)
        requires
            self.wf(),
        ensures
            r == self@.len(),
    {
        self.total_count
    }

    pub fn is_empty(&self) -> (r: bool)
        requires
            self.wf(),
        ensures
            r == (self@.len() == 0),
    {
        self.total_count == 0
    }

    /// Clears every per-key index.
    pub fn clear(&mut self)
        ensures
            final(self).wf(),
            final(self)@ == Seq::<(K, i64, P)>::empty(),
    {
        self.slots.clear();
        self.total_count = 0;
    }

    /// Number of distinct join keys currently indexed.
    pub fn key_count(&self) -> (r: usize)
        requires
            self.wf(),
        ensures
            key_set(self@).finite(),
            r == key_set(self@).len(),
    {
        proof {
            lemma_slot_keys(self.slots@);
        }
        self.slots.len()
    }

    /// The distinct timestamps of all join keys, each once.
    pub fn times(&self) -> (r: Vec<i64>)
        requires
            self.wf(),
        ensures
            r@.no_duplicates(),
            r@.to_set() == key_times(self@),
    {
        let ghost ss = self.slots@;
        let ghost f = slot_items::<K, P>();
        let mut r: Vec<i64> = Vec::new();
        let mut i: usize = 0;
        assert(r@.to_set() =~= key_times(concat(ss.take(0), f)));
        while i < self.slots.len()
            invariant
                self.wf(),
                ss == self.slots@,
                f == slot_items::<K, P>(),
                i <= ss.len(),
                r@.no_duplicates(),
                r@.to_set() == key_times(concat(ss.take(i as int), f)),
            decreases ss.len() - i,
        {
            assert(ss[i as int].index.wf());
            let more = self.slots[i].index.times();
            add_times(&mut r, &more);
            proof {
                lemma_slot_times(ss, i as int);
            }
            i += 1;
        }
        assert(ss.take(i as int) =~= ss);
        r
    }

    /// Number of distinct `(key, timestamp)` pairs.
    pub fn bucket_count(&self) -> (r: usize)
        requires
            self.wf(),
            key_stamps(self@).len() <= usize::MAX,
        ensures
            key_stamps(self@).finite(),
            r == key_stamps(self@).len(),
    {
        let ghost ss = self.slots@;
        let mut n: usize = 0;
        let mut i: usize = 0;
        proof {
            assert(ss.take(0) =~= Seq::<KeySlot<K, P>>::empty());
            lemma_slot_stamps(ss);
            assert(key_stamps(concat(ss.take(0), slot_items::<K, P>())) =~= Set::<(K, i64)>::empty());
        }
        while i < self.slots.len()
            invariant
                self.wf(),
                ss == self.slots@,
                i <= ss.len(),
                key_stamps(concat(ss, slot_items())).len() <= usize::MAX,
                n == key_stamps(concat(ss.take(i as int), slot_items())).len(),
            decreases ss.len() - i,
        {
            proof {
                lemma_slots_prefix(ss, i + 1);
                lemma_slot_stamps(ss.take(i + 1));
                assert(ss.take(i + 1).drop_last() =~= ss.take(i as int));
                lemma_stamps_mono(ss, i + 1);
                assert(ss[i as int].index.wf());
            }
            n = n + self.slots[i].index.bucket_count();
            i += 1;
        }
        assert(ss.take(i as int) =~= ss);
        n
    }
}

/// Adds the timestamps that are not there yet.
fn add_times(times: &mut Vec<i64>, more: &Vec<i64>)
    requires
        old(times)@.no_duplicates(),
    ensures
        final(times)@.no_duplicates(),
        final(times)@.to_set() == old(times)@.to_set().union(more@.to_set()),
{
    let ghost start = times@.to_set();
    let mut i: usize = 0;
    assert(times@.to_set() =~= start.union(more@.take(0).to_set()));
    while i < more.len()
        invariant
            i <= more@.len(),
            times@.no_duplicates(),
            times@.to_set() == start.union(more@.take(i as int).to_set()),
        decreases more@.len() - i,
    {
        let t: i64 = more[i];
        let ghost before = times@;
        let mut known = false;
        let mut j: usize = 0;
        while j < times.len()
            invariant
                j <= times@.len(),
                known == exists|q: int| 0 <= q < j && #[trigger] times@[q] == t,
            decreases times@.len() - j,
        {
            if times[j] == t {
                known = true;
            }
            j += 1;
        }
        assert(known == before.contains(t));
        if !known {
            times.push(t);
        }
        proof {
            assert(more@.take(i + 1) =~= more@.take(i as int).push(t));
            broadcast use vstd::seq_lib::group_seq_properties;

            assert forall|x: i64| times@.to_set().contains(x) == start.union(more@.take(i + 1).to_set()).contains(x) by {
                assert(before.to_set().contains(x) == start.union(more@.take(i as int).to_set()).contains(x));
            }
            assert(times@.to_set() =~= start.union(more@.take(i + 1).to_set()));
        }
        i += 1;
    }
    assert(more@.take(i as int) =~= more@);
}

/// The timestamps of some slots and one more.
proof fn lemma_slot_times<K, P>(slots: Seq<KeySlot<K, P>>, i: int)
    requires
        0 <= i < slots.len(),
    ensures
        key_times(concat(slots.take(i + 1), slot_items())) == key_times(concat(slots.take(i), slot_items())).union(
            timestamps(slots[i].index@),
        ),
{
    let f = slot_items::<K, P>();
    let before = concat(slots.take(i), f);
    let more = f(slots[i]);
    let all = concat(slots.take(i + 1), f);
    let g = item_time::<K, P>();
    lemma_concat_take(slots, i, f);
    assert(all == before + more);
    let stamps = slots[i].index@.map_values(crate::operator::time_index::stamp_of::<P>());
    assert(more.map_values(g) =~= stamps);
    assert(all.map_values(g) =~= before.map_values(g) + stamps);
    assert forall|t: i64| #[trigger] key_times(all).contains(t) == (key_times(before).contains(t) || stamps.to_set().contains(t)) by {
        let a = before.map_values(g);
        if a.contains(t) {
            let k = choose|k: int| 0 <= k < a.len() && a[k] == t;
            assert((a + stamps)[k] == t);
        }
        if stamps.contains(t) {
            let k = choose|k: int| 0 <= k < stamps.len() && stamps[k] == t;
            assert((a + stamps)[a.len() + k] == t);
        }
        if (a + stamps).contains(t) {
            let k = choose|k: int| 0 <= k < (a + stamps).len() && (a + stamps)[k] == t;
            if k < a.len() {
                assert(a[k] == t);
            } else {
                assert(stamps[k - a.len()] == t);
            }
        }
    }
    assert(key_times(all) =~= key_times(before).union(timestamps(slots[i].index@)));
}

proof fn lemma_slots_prefix<K, P>(slots: Seq<KeySlot<K, P>>, n: int)
    requires
        slots_wf(slots),
        0 <= n <= slots.len(),
    ensures
        slots_wf(slots.take(n)),
{
    let t = slots.take(n);
    assert forall|i: int, j: int| 0 <= i < j < t.len() implies (#[trigger] t[i]).key != (#[trigger] t[j]).key by {
        assert(slots[i].key != slots[j].key);
    }
    assert forall|i: int| 0 <= i < t.len() implies (#[trigger] t[i]).index.wf() && t[i].index@.len() > 0 by {
        assert(slots[i].index.wf());
    }
}

/// Every listed item's key is its slot's.
proof fn lemma_slot_key_of<K, P>(slots: Seq<KeySlot<K, P>>, k: int) -> (i: int)
    requires
        0 <= k < concat(slots, slot_items()).len(),
    ensures
        0 <= i < slots.len(),
        slots[i].key == concat(slots, slot_items())[k].0,
    decreases slots.len(),
{
    let f = slot_items::<K, P>();
    let rest = slots.drop_last();
    let n = concat(rest, f).len();
    if k < n {
        assert(concat(slots, f)[k] == concat(rest, f)[k]);
        let i = lemma_slot_key_of(rest, k);
        i
    } else {
        assert(concat(slots, f)[k] == f(slots.last())[k - n]);
        slots.len() - 1
    }
}

proof fn lemma_slot_keys<K, P>(slots: Seq<KeySlot<K, P>>)
    requires
        slots_wf(slots),
    ensures
        key_set(concat(slots, slot_items())).finite(),
        key_set(concat(slots, slot_items())).len() == slots.len(),
        key_set(concat(slots, slot_items())) == Set::new(
            |k: K| exists|i: int| 0 <= i < slots.len() && (#[trigger] slots[i]).key == k,
        ),
    decreases slots.len(),
{
    let f = slot_items::<K, P>();
    let all = concat(slots, f);
    let g = item_key::<K, P>();
    let want = Set::new(|k: K| exists|i: int| 0 <= i < slots.len() && (#[trigger] slots[i]).key == k);
    assert forall|k: K| key_set(all).contains(k) == want.contains(k) by {
        if key_set(all).contains(k) {
            let q = choose|q: int| 0 <= q < all.len() && all.map_values(g)[q] == k;
            let i = lemma_slot_key_of(slots, q);
            assert(slots[i].key == k);
        }
        if want.contains(k) {
            let i = choose|i: int| 0 <= i < slots.len() && (#[trigger] slots[i]).key == k;
            lemma_concat_split(slots, i, f);
            let h = concat(slots.take(i), f);
            assert(slots[i].index@.len() > 0);
            assert(all[h.len() as int] == f(slots[i])[0]);
            assert(all.map_values(g)[h.len() as int] == k);
        }
    }
    assert(key_set(all) =~= want);
    if slots.len() == 0 {
        assert(want =~= Set::<K>::empty());
    } else {
        let rest = slots.drop_last();
        assert(rest =~= slots.take(slots.len() - 1));
        lemma_slots_prefix(slots, slots.len() - 1);
        lemma_slot_keys(rest);
        let last = slots.last().key;
        let small = Set::new(|k: K| exists|i: int| 0 <= i < rest.len() && (#[trigger] rest[i]).key == k);
        assert forall|k: K| want.contains(k) == small.insert(last).contains(k) by {
            if want.contains(k) {
                let i = choose|i: int| 0 <= i < slots.len() && (#[trigger] slots[i]).key == k;
                if i < rest.len() {
                    assert(rest[i].key == k);
                }
            }
            if small.contains(k) {
                let i = choose|i: int| 0 <= i < rest.len() && (#[trigger] rest[i]).key == k;
                assert(slots[i].key == k);
            }
            if k == last {
                assert(slots[slots.len() - 1].key == k);
            }
        }
        assert(want =~= small.insert(last));
        if small.contains(last) {
            let i = choose|i: int| 0 <= i < rest.len() && (#[trigger] rest[i]).key == last;
            assert(slots[i].key != slots[slots.len() - 1].key);
        }
    }
}

/// The stamps of the last slot are new: its key is.
proof fn lemma_slot_stamps<K, P>(slots: Seq<KeySlot<K, P>>)
    requires
        slots_wf(slots),
    ensures
        key_stamps(concat(slots, slot_items())).finite(),
        slots.len() > 0 ==> key_stamps(concat(slots, slot_items())).len() == key_stamps(
            concat(slots.drop_last(), slot_items()),
        ).len() + timestamps(slots.last().index@).len(),
    decreases slots.len(),
{
    let f = slot_items::<K, P>();
    let all = concat(slots, f);
    let g = item_stamp::<K, P>();
    if slots.len() == 0 {
        assert(key_stamps(all) =~= Set::<(K, i64)>::empty());
    } else {
        let rest = slots.drop_last();
        let last = slots.last();
        let ra = concat(rest, f);
        assert(rest =~= slots.take(slots.len() - 1));
        lemma_slots_prefix(slots, slots.len() - 1);
        lemma_slot_stamps(rest);
        let tag = |t: i64| (last.key, t);
        let fresh = timestamps(last.index@).map(tag);
        vstd::seq_lib::seq_to_set_is_finite(last.index@.map_values(stamp_of()));
        assert(vstd::relations::injective_on(tag, timestamps(last.index@)));
        vstd::set_lib::lemma_map_size(timestamps(last.index@), fresh, tag);
        assert forall|p: (K, i64)| key_stamps(all).contains(p) == key_stamps(ra).union(fresh).contains(p) by {
            if key_stamps(all).contains(p) {
                let q = choose|q: int| 0 <= q < all.len() && all.map_values(g)[q] == p;
                if q < ra.len() {
                    assert(ra.map_values(g)[q] == p);
                } else {
                    assert(all[q] == f(last)[q - ra.len()]);
                    assert(last.index@.map_values(stamp_of())[q - ra.len()] == p.1);
                    assert(timestamps(last.index@).contains(p.1));
                    assert(fresh.contains(tag(p.1)));
                }
            }
            if key_stamps(ra).contains(p) {
                let q = choose|q: int| 0 <= q < ra.len() && ra.map_values(g)[q] == p;
                assert(all.map_values(g)[q] == p);
            }
            if fresh.contains(p) {
                let t = choose|t: i64| timestamps(last.index@).contains(t) && tag(t) == p;
                let ts = last.index@.map_values(stamp_of());
                let q = choose|q: int| 0 <= q < ts.len() && ts[q] == t;
                assert(all[ra.len() + q] == f(last)[q]);
                assert(all.map_values(g)[ra.len() + q] == p);
            }
        }
        assert(key_stamps(all) =~= key_stamps(ra).union(fresh));
        assert forall|p: (K, i64)| !(key_stamps(ra).contains(p) && fresh.contains(p)) by {
            if key_stamps(ra).contains(p) && fresh.contains(p) {
                let q = choose|q: int| 0 <= q < ra.len() && ra.map_values(g)[q] == p;
                let i = lemma_slot_key_of(rest, q);
                assert(slots[i].key != slots[slots.len() - 1].key);
            }
        }
        assert(key_stamps(ra).disjoint(fresh));
        vstd::set_lib::lemma_set_disjoint_lens(key_stamps(ra), fresh);
    }
}

proof fn lemma_stamps_mono<K, P>(slots: Seq<KeySlot<K, P>>, n: int)
    requires
        slots_wf(slots),
        0 <= n <= slots.len(),
    ensures
        key_stamps(concat(slots.take(n), slot_items())).len() <= key_stamps(concat(slots, slot_items())).len(),
    decreases slots.len() - n,
{
    if n < slots.len() {
        lemma_stamps_mono(slots, n + 1);
        lemma_slots_prefix(slots, n + 1);
        lemma_slot_stamps(slots.take(n + 1));
        assert(slots.take(n + 1).drop_last() =~= slots.take(n));
    } else {
        assert(slots.take(n) =~= slots);
    }
}

impl<K, P> Default for KeyIndexedTimeIndex<K, P> {
    fn default() -> (r: Self)
        ensures
            r.wf(),
            r@ == Seq::<(K, i64, P)>::empty(),
    {
        Self::new()
    }
}

impl<K: Eq + Clone, P: Eq + Clone> KeyIndexedTimeIndex<K, P> {
    fn position(&self, k: &K) -> (r: Option<usize>)
        requires
            lawful::<K>(),
        ensures
            match r {
                Some(i) => i < self.slots@.len() && self.slots@[i as int].key == *k,
                None => forall|i: int| 0 <= i < self.slots@.len() ==> (#[trigger] self.slots@[i]).key != *k,
            },
    {
        let mut i: usize = 0;
        while i < self.slots.len()
            invariant
                lawful::<K>(),
                i <= self.slots@.len(),
                forall|j: int| 0 <= j < i ==> (#[trigger] self.slots@[j]).key != *k,
            decreases self.slots@.len() - i,
        {
            if same(&self.slots[i].key, k) {
                return Some(i);
            }
            i += 1;
        }
        None
    }

    /// Inserts `payload` at `timestamp` under `join_key`.
    pub fn insert(&mut self, join_key: K, timestamp: i64, payload: P)
        requires
            lawful::<K>(),
            lawful::<P>(),
            old(self).wf(),
            old(self)@.len() < u64::MAX,
        ensures
            final(self).wf(),
            inserted(old(self)@, final(self)@, (join_key, timestamp, payload)),
    {
        let ghost ss = self.slots@;
        let ghost f = slot_items::<K, P>();
        let ghost x = (join_key, timestamp, payload);
        match self.position(&join_key) {
            Some(i) => {
                proof {
                    assert(ss[i as int].index.wf());
                    lemma_concat_len_ge(ss, i as int, f);
                }
                self.slots[i].index.insert(timestamp, payload);
                proof {
                    let s = self.slots@[i as int];
                    assert(self.slots@ =~= ss.update(i as int, s));
                    lemma_inserted_map(ss[i as int].index@, s.index@, (timestamp, payload), under(join_key));
                    lemma_inserted_multiset(ss[i as int].index@, s.index@, (timestamp, payload));
                    lemma_concat_grow(ss, i as int, s, f, x);
                }
            },
            None => {
                let mut index = TimeIndex::new();
                index.insert(timestamp, payload);
                let slot = KeySlot { key: join_key, index };
                self.slots.push(slot);
                proof {
                    assert(index@ =~= seq![(timestamp, payload)]);
                    assert(f(slot) =~= seq![x]);
                    assert(self.slots@ =~= ss.insert(ss.len() as int, slot));
                    lemma_concat_grow_new(ss, ss.len() as int, slot, f, x);
                }
            },
        }
        proof {
            lemma_inserted_multiset(old(self)@, concat(self.slots@, f), x);
        }
        self.total_count = self.total_count + 1;
    }

    /// Removes one occurrence of `payload` at `timestamp` under `join_key`.
    /// Returns `true` if one was present.
    pub fn evict(&mut self, join_key: &K, timestamp: i64, payload: &P) -> (r: bool)
        requires
            lawful::<K>(),
            lawful::<P>(),
            old(self).wf(),
        ensures
            final(self).wf(),
            r == old(self)@.contains((*join_key, timestamp, *payload)),
            r ==> inserted(final(self)@, old(self)@, (*join_key, timestamp, *payload)),
            !r ==> final(self)@ == old(self)@,
    {
        let ghost ss = self.slots@;
        let ghost f = slot_items::<K, P>();
        let ghost x = (*join_key, timestamp, *payload);
        proof {
            lemma_concat_contains(ss, f, x);
            lemma_slot_contains(ss, *join_key, timestamp, *payload);
        }
        match self.position(join_key) {
            Some(i) => {
                proof {
                    assert(ss[i as int].index.wf());
                    if exists|j: int| 0 <= j < ss.len() && f(#[trigger] ss[j]).contains(x) {
                        let j = choose|j: int| 0 <= j < ss.len() && f(#[trigger] ss[j]).contains(x);
                        assert(ss[j].key == ss[i as int].key);
                        assert(j == i);
                    }
                }
                let removed = self.slots[i].index.evict(timestamp, payload);
                let ghost s = self.slots@[i as int];
                assert(self.slots@ =~= ss.update(i as int, s));
                if removed {
                    assert(f(ss[i as int]).contains(x));
                    proof {
                        lemma_inserted_map(s.index@, ss[i as int].index@, (timestamp, *payload), under(*join_key));
                        lemma_concat_shrink(ss, i as int, s, f, x);
                        lemma_inserted_multiset(concat(self.slots@, f), old(self)@, x);
                    }
                    self.total_count = self.total_count - 1;
                    if self.slots[i].index.is_empty() {
                        let ghost mid = self.slots@;
                        proof {
                            lemma_concat_drop_empty(mid, i as int, f);
                        }
                        self.slots.remove(i);
                        assert(self.slots@ =~= mid.remove(i as int));
                    }
                } else {
                    proof {
                        lemma_concat_split(ss, i as int, f);
                        crate::listing::lemma_concat_update(ss, i as int, s, f);
                        assert(f(s) == f(ss[i as int]));
                    }
                }
                removed
            },
            None => false,
        }
    }

    /// Aggregates payloads in `[start, end]` for one join key.
    pub fn query_range_by_key(&self, join_key: &K, start: i64, end: i64) -> (r: RangeResult<P>)
        requires
            lawful::<K>(),
            lawful::<P>(),
            self.wf(),
        ensures
            r.describes(keyed_payloads(self@.filter(keyed_range(*join_key, start, end)))),
    {
        let ghost ss = self.slots@;
        let ghost f = slot_items::<K, P>();
        let ghost p = keyed_range::<K, P>(*join_key, start, end);
        let ghost g = |s: KeySlot<K, P>| f(s).filter(p);
        proof {
            lemma_concat_filter(ss, f, g, p);
            assert forall|j: int| 0 <= j < ss.len() && (#[trigger] ss[j]).key != *join_key implies g(ss[j]).len() == 0 by {
                lemma_slot_filter(ss[j], *join_key, start, end);
            }
        }
        match self.position(join_key) {
            Some(i) => {
                proof {
                    assert(ss[i as int].index.wf());
                    lemma_slot_filter(ss[i as int], *join_key, start, end);
                    assert forall|j: int| 0 <= j < ss.len() && j != i implies g(#[trigger] ss[j]).len() == 0 by {
                        if j < i {
                            assert(ss[j].key != ss[i as int].key);
                        } else {
                            assert(ss[i as int].key != ss[j].key);
                        }
                    }
                    crate::listing::lemma_concat_only(ss, i as int, g);
                    lemma_keyed_payloads(ss[i as int].index@.filter(in_range(start, end)), *join_key);
                }
                self.slots[i].index.query_range(start, end)
            },
            None => {
                proof {
                    assert forall|j: int| 0 <= j < ss.len() implies g(#[trigger] ss[j]).len() == 0 by {}
                    crate::listing::lemma_concat_none(ss, g);
                    assert(keyed_payloads(concat(ss, g)) =~= Seq::<P>::empty());
                }
                RangeResult::empty()
            },
        }
    }

    /// Aggregates payloads in `[start, end]` across every join key.
    pub fn query_range(&self, start: i64, end: i64) -> (r: RangeResult<P>)
        requires
            lawful::<K>(),
            lawful::<P>(),
            self.wf(),
        ensures
            r.describes(keyed_payloads(self@.filter(any_key_range(start, end)))),
    {
        let ghost ss = self.slots@;
        let ghost f = slot_items::<K, P>();
        let ghost p = any_key_range::<K, P>(start, end);
        let ghost g = |s: KeySlot<K, P>| f(s).filter(p);
        let mut total: u64 = 0;
        let mut agg: PayloadCounts<P> = PayloadCounts::new();
        let mut i: usize = 0;
        proof {
            lemma_concat_filter(ss, f, g, p);
            self@.lemma_filter_len(p);
            assert(keyed_payloads(concat(ss.take(0), g)) =~= Seq::<P>::empty());
        }
        while i < self.slots.len()
            invariant
                lawful::<P>(),
                self.wf(),
                ss == self.slots@,
                f == slot_items::<K, P>(),
                p == any_key_range::<K, P>(start, end),
                forall|s: KeySlot<K, P>| #[trigger] g(s) == f(s).filter(p),
                i <= ss.len(),
                concat(ss, g).len() <= u64::MAX,
                agg.wf(),
                agg.items().len() == total,
                total == concat(ss.take(i as int), g).len(),
                agg.items().to_multiset() == keyed_payloads(concat(ss.take(i as int), g)).to_multiset(),
            decreases ss.len() - i,
        {
            proof {
                lemma_slot_filter(ss[i as int], ss[i as int].key, start, end);
                lemma_keyed_step(ss, i as int, g);
                lemma_keyed_payloads(ss[i as int].index@.filter(in_range(start, end)), ss[i as int].key);
                assert(ss[i as int].index.wf());
            }
            let r = self.slots[i].index.query_range(start, end);
            total = total + r.total_count;
            agg.merge(&r.payload_counts);
            i += 1;
        }
        assert(ss.take(i as int) =~= ss);
        RangeResult::new(total, agg)
    }

    /// All currently indexed join keys, each once.
    pub fn join_keys(&self) -> (r: Vec<K>)
        requires
            lawful::<K>(),
            self.wf(),
        ensures
            r@.no_duplicates(),
            r@.to_set() == key_set(self@),
    {
        let ghost ss = self.slots@;
        let mut out: Vec<K> = Vec::new();
        let mut i: usize = 0;
        while i < self.slots.len()
            invariant
                lawful::<K>(),
                ss == self.slots@,
                i <= ss.len(),
                out@.len() == i,
                forall|j: int| 0 <= j < i ==> #[trigger] out@[j] == ss[j].key,
            decreases ss.len() - i,
        {
            out.push(dup(&self.slots[i].key));
            i += 1;
        }
        proof {
            lemma_slot_keys(ss);
            assert forall|x: int, y: int| 0 <= x < y < out@.len() implies out@[x] != out@[y] by {
                assert(ss[x].key != ss[y].key);
            }
            assert forall|k: K| out@.to_set().contains(k) == key_set(self@).contains(k) by {
                if out@.to_set().contains(k) {
                    let j = choose|j: int| 0 <= j < out@.len() && out@[j] == k;
                    assert(ss[j].key == k);
                }
                if key_set(self@).contains(k) {
                    let j = choose|j: int| 0 <= j < ss.len() && (#[trigger] ss[j]).key == k;
                    assert(out@[j] == k);
                }
            }
            assert(out@.to_set() =~= key_set(self@));
        }
        out
    }

    /// The time index of one join key, if the key is present.
    pub fn time_index_for_key(&self, join_key: &K) -> (r: Option<&TimeIndex<P>>)
        requires
            lawful::<K>(),
            self.wf(),
        ensures
            r is Some <==> key_set(self@).contains(*join_key),
            r is Some ==> r->0.wf() && r->0@ == of_key(self@, *join_key),
    {
        let ghost ss = self.slots@;
        proof {
            lemma_slot_keys(ss);
        }
        match self.position(join_key) {
            Some(i) => {
                proof {
                    assert(ss[i as int].key == *join_key);
                    assert(ss[i as int].index.wf());
                    lemma_of_key(ss, i as int);
                }
                Some(&self.slots[i].index)
            },
            None => None,
        }
    }
}

/// The pairs under a slot's key are the slot's.
proof fn lemma_of_key<K, P>(slots: Seq<KeySlot<K, P>>, i: int)
    requires
        slots_wf(slots),
        0 <= i < slots.len(),
    ensures
        of_key(concat(slots, slot_items()), slots[i].key) == slots[i].index@,
{
    let f = slot_items::<K, P>();
    let k = slots[i].key;
    let p = has_key::<K, P>(k);
    let g = |s: KeySlot<K, P>| f(s).filter(p);
    lemma_concat_filter(slots, f, g, p);
    assert forall|j: int| 0 <= j < slots.len() && j != i implies g(#[trigger] slots[j]).len() == 0 by {
        if j < i {
            assert(slots[j].key != slots[i].key);
        } else {
            assert(slots[i].key != slots[j].key);
        }
        lemma_slot_has_key(slots[j], k);
    }
    crate::listing::lemma_concat_only(slots, i, g);
    lemma_slot_has_key(slots[i], k);
    assert(f(slots[i]).map_values(|it: (K, i64, P)| (it.1, it.2)) =~= slots[i].index@);
}

proof fn lemma_slot_has_key<K, P>(s: KeySlot<K, P>, k: K)
    ensures
        s.key == k ==> slot_items()(s).filter(has_key(k)) == slot_items()(s),
        s.key != k ==> slot_items()(s).filter(has_key(k)).len() == 0,
{
    lemma_filter_all_or_none(slot_items()(s), has_key(k));
}

proof fn lemma_keyed_step<K, P>(
    slots: Seq<KeySlot<K, P>>,
    i: int,
    g: spec_fn(KeySlot<K, P>) -> Seq<(K, i64, P)>,
)
    requires
        0 <= i < slots.len(),
    ensures
        keyed_payloads(concat(slots.take(i + 1), g)).to_multiset() == keyed_payloads(
            concat(slots.take(i), g),
        ).to_multiset().add(keyed_payloads(g(slots[i])).to_multiset()),
        concat(slots.take(i + 1), g).len() == concat(slots.take(i), g).len() + g(slots[i]).len(),
        concat(slots.take(i + 1), g).len() <= concat(slots, g).len(),
{
    lemma_concat_take(slots, i, g);
    lemma_concat_take_len(slots, i + 1, g);
    let a = concat(slots.take(i), g);
    let b = g(slots[i]);
    assert(keyed_payloads(a + b) =~= keyed_payloads(a) + keyed_payloads(b));
    lemma_multiset_add(keyed_payloads(a), keyed_payloads(b));
}

/// An item is listed in a slot only under the slot's key.
proof fn lemma_slot_contains<K, P>(slots: Seq<KeySlot<K, P>>, k: K, timestamp: i64, payload: P)
    ensures
        forall|i: int|
            0 <= i < slots.len() ==> (slot_items()(#[trigger] slots[i]).contains((k, timestamp, payload))
                <==> slots[i].key == k && slots[i].index@.contains((timestamp, payload))),
{
    assert forall|i: int|
        0 <= i < slots.len() implies (slot_items()(#[trigger] slots[i]).contains((k, timestamp, payload))
        <==> slots[i].key == k && slots[i].index@.contains((timestamp, payload))) by {
        let l = slot_items()(slots[i]);
        let items = slots[i].index@;
        if l.contains((k, timestamp, payload)) {
            let q = choose|q: int| 0 <= q < l.len() && l[q] == (k, timestamp, payload);
            assert(items[q] == (timestamp, payload));
        }
        if slots[i].key == k && items.contains((timestamp, payload)) {
            let q = choose|q: int| 0 <= q < items.len() && items[q] == (timestamp, payload);
            assert(l[q] == (k, timestamp, payload));
        }
    }
}

/// Shape of a [`KeyIndexedTimeIndex`].
#[derive(Clone, Debug)]
pub struct IndexStats {
    pub key_count: usize,
    pub total_elements: u64,
    pub total_buckets: usize,
    pub min_buckets_per_key: usize,
    pub max_buckets_per_key: usize,
    pub min_elements_per_key: u64,
    pub max_elements_per_key: u64,
}

/// How many distinct timestamps a key has.
pub open spec fn key_buckets<K, P>(items: Seq<(K, i64, P)>, k: K) -> nat {
    timestamps(of_key(items, k)).len()
}

/// How many payloads a key has.
pub open spec fn key_elements<K, P>(items: Seq<(K, i64, P)>, k: K) -> nat {
    of_key(items, k).len()
}

impl IndexStats {
    /// The statistics of a listing: counts, and the least and greatest number
    /// of buckets and elements that any key has.
    pub open spec fn describes<K, P>(&self, items: Seq<(K, i64, P)>) -> bool {
        &&& self.key_count == key_set(items).len()
        &&& self.total_elements == items.len()
        &&& self.total_buckets == key_stamps(items).len()
        &&& items.len() == 0 ==> self.min_buckets_per_key == 0 && self.max_buckets_per_key == 0
            && self.min_elements_per_key == 0 && self.max_elements_per_key == 0
        &&& forall|k: K| #[trigger]
            key_set(items).contains(k) ==> self.min_buckets_per_key <= key_buckets(items, k)
                <= self.max_buckets_per_key && self.min_elements_per_key <= key_elements(items, k)
                <= self.max_elements_per_key
        &&& items.len() > 0 ==> {
            &&& exists|k: K| #[trigger]
                key_set(items).contains(k) && key_buckets(items, k) == self.min_buckets_per_key
            &&& exists|k: K| #[trigger]
                key_set(items).contains(k) && key_buckets(items, k) == self.max_buckets_per_key
            &&& exists|k: K| #[trigger]
                key_set(items).contains(k) && key_elements(items, k) == self.min_elements_per_key
            &&& exists|k: K| #[trigger]
                key_set(items).contains(k) && key_elements(items, k) == self.max_elements_per_key
        }
    }

    fn empty() -> (r: Self)
        ensures
            r == (IndexStats {
                key_count: 0,
                total_elements: 0,
                total_buckets: 0,
                min_buckets_per_key: 0,
                max_buckets_per_key: 0,
                min_elements_per_key: 0,
                max_elements_per_key: 0,
            }),
    {
        IndexStats {
            key_count: 0,
            total_elements: 0,
            total_buckets: 0,
            min_buckets_per_key: 0,
            max_buckets_per_key: 0,
            min_elements_per_key: 0,
            max_elements_per_key: 0,
        }
    }
}

/// What the slots say of a key is what the listing says of it.
proof fn lemma_slot_figures<K, P>(slots: Seq<KeySlot<K, P>>)
    requires
        slots_wf(slots),
    ensures
        forall|i: int|
            0 <= i < slots.len() ==> {
                let all = concat(slots, slot_items());
                let k = (#[trigger] slots[i]).key;
                &&& key_set(all).contains(k)
                &&& key_buckets(all, k) == timestamps(slots[i].index@).len()
                &&& key_elements(all, k) == slots[i].index@.len()
            },
        forall|k: K| #[trigger]
            key_set(concat(slots, slot_items())).contains(k) ==> exists|i: int|
                0 <= i < slots.len() && (#[trigger] slots[i]).key == k,
{
    lemma_slot_keys(slots);
    assert forall|i: int| 0 <= i < slots.len() implies {
        let all = concat(slots, slot_items());
        let k = (#[trigger] slots[i]).key;
        &&& key_set(all).contains(k)
        &&& key_buckets(all, k) == timestamps(slots[i].index@).len()
        &&& key_elements(all, k) == slots[i].index@.len()
    } by {
        lemma_of_key(slots, i);
    }
}

impl<K: Eq + Clone, P: Eq + Clone> KeyIndexedTimeIndex<K, P> {
    /// Snapshot of the index's shape.
    pub fn stats(&self) -> (r: IndexStats)
        requires
            self.wf(),
            key_stamps(self@).len() <= usize::MAX,
        ensures
            r.describes(self@),
    {
        let ghost ss = self.slots@;
        let ghost all = self@;
        proof {
            lemma_slot_figures(ss);
            lemma_slot_keys(ss);
        }
        if self.slots.len() == 0 {
            assert(all =~= Seq::<(K, i64, P)>::empty());
            assert(key_stamps(all) =~= Set::<(K, i64)>::empty());
            assert(key_set(all) =~= Set::<K>::empty());
            return IndexStats::empty();
        }
        proof {
            assert(ss[0].index.wf());
            lemma_concat_len_ge(ss, 0, slot_items());
        }
        let mut min_buckets: usize = self.slots[0].index.bucket_count();
        let mut max_buckets: usize = min_buckets;
        let mut min_elements: u64 = self.slots[0].index.size();
        let mut max_elements: u64 = min_elements;
        let mut i: usize = 1;
        let ghost mut wit = (0int, 0int, 0int, 0int);
        while i < self.slots.len()
            invariant
                self.wf(),
                ss == self.slots@,
                1 <= i <= ss.len(),
                0 <= wit.0 < i && min_buckets == timestamps(ss[wit.0].index@).len(),
                0 <= wit.1 < i && max_buckets == timestamps(ss[wit.1].index@).len(),
                0 <= wit.2 < i && min_elements == ss[wit.2].index@.len(),
                0 <= wit.3 < i && max_elements == ss[wit.3].index@.len(),
                forall|j: int|
                    0 <= j < i ==> min_buckets <= timestamps((#[trigger] ss[j]).index@).len() <= max_buckets
                        && min_elements <= ss[j].index@.len() <= max_elements,
            decreases ss.len() - i,
        {
            assert(ss[i as int].index.wf());
            let buckets: usize = self.slots[i].index.bucket_count();
            let size: u64 = self.slots[i].index.size();
            if buckets < min_buckets {
                min_buckets = buckets;
                proof {
                    wit = (i as int, wit.1, wit.2, wit.3);
                }
            }
            if buckets > max_buckets {
                max_buckets = buckets;
                proof {
                    wit = (wit.0, i as int, wit.2, wit.3);
                }
            }
            if size < min_elements {
                min_elements = size;
                proof {
                    wit = (wit.0, wit.1, i as int, wit.3);
                }
            }
            if size > max_elements {
                max_elements = size;
                proof {
                    wit = (wit.0, wit.1, wit.2, i as int);
                }
            }
            i += 1;
        }
        let r = IndexStats {
            key_count: self.slots.len(),
            total_elements: self.total_count,
            total_buckets: self.bucket_count(),
            min_buckets_per_key: min_buckets,
            max_buckets_per_key: max_buckets,
            min_elements_per_key: min_elements,
            max_elements_per_key: max_elements,
        };
        proof {
            assert(key_set(all).contains(ss[wit.0].key) && key_buckets(all, ss[wit.0].key) == min_buckets);
            assert(key_set(all).contains(ss[wit.1].key) && key_buckets(all, ss[wit.1].key) == max_buckets);
            assert(key_set(all).contains(ss[wit.2].key) && key_elements(all, ss[wit.2].key) == min_elements);
            assert(key_set(all).contains(ss[wit.3].key) && key_elements(all, ss[wit.3].key) == max_elements);
            assert forall|k: K| #[trigger] key_set(all).contains(k) implies min_buckets <= key_buckets(all, k)
                <= max_buckets && min_elements <= key_elements(all, k) <= max_elements by {
                let j = choose|j: int| 0 <= j < ss.len() && (#[trigger] ss[j]).key == k;
                assert(ss[j].index.wf());
            }
        }
        r
    }
}

/// How many items meet `c`.
spec fn tally<A>(items: Seq<A>, c: spec_fn(A) -> bool) -> nat
    decreases items.len(),
{
    if items.len() == 0 {
        0
    } else {
        tally(items.drop_last(), c) + if c(items.last()) {
            1nat
        } else {
            0
        }
    }
}

proof fn lemma_tally_filter<K, P>(items: Seq<(K, i64, P)>, c: spec_fn((K, i64, P)) -> bool, p: P)
    ensures
        items.filter(c).len() == tally(items, c),
        keyed_payloads(items.filter(c)).to_multiset().count(p) == tally(items, |it: (K, i64, P)| c(it) && it.2 == p),
    decreases items.len(),
{
    broadcast use vstd::seq_lib::group_to_multiset_ensures;

    reveal(Seq::filter);
    if items.len() == 0 {
        assert(keyed_payloads(items.filter(c)) =~= Seq::<P>::empty());
        crate::listing::lemma_multiset_empty::<P>();
    } else {
        let rest = items.drop_last();
        lemma_tally_filter(rest, c, p);
        if c(items.last()) {
            assert(keyed_payloads(items.filter(c)) =~= keyed_payloads(rest.filter(c)).push(items.last().2));
        }
    }
}

/// The items in range under each of `keys` that meet `c`, counted key by key.
spec fn tally_by_key<K, P>(
    items: Seq<(K, i64, P)>,
    keys: Seq<K>,
    start: i64,
    end: i64,
    c: spec_fn((K, i64, P)) -> bool,
) -> nat
    decreases keys.len(),
{
    if keys.len() == 0 {
        0
    } else {
        tally_by_key(items, keys.drop_last(), start, end, c) + tally(
            items,
            |it: (K, i64, P)| keyed_range(keys.last(), start, end)(it) && c(it),
        )
    }
}

proof fn lemma_tally_by_key_step<K, P>(
    items: Seq<(K, i64, P)>,
    keys: Seq<K>,
    start: i64,
    end: i64,
    c: spec_fn((K, i64, P)) -> bool,
)
    requires
        keys.no_duplicates(),
        items.len() > 0,
    ensures
        tally_by_key(items, keys, start, end, c) == tally_by_key(items.drop_last(), keys, start, end, c)
            + if keys.contains(items.last().0) && any_key_range(start, end)(items.last()) && c(items.last()) {
            1nat
        } else {
            0
        },
    decreases keys.len(),
{
    if keys.len() > 0 {
        let head = keys.drop_last();
        lemma_tally_by_key_step(items, head, start, end, c);
        let k = items.last().0;
        if k == keys.last() {
            assert(keys[keys.len() - 1] == k);
            if head.contains(k) {
                let i = choose|i: int| 0 <= i < head.len() && head[i] == k;
                assert(keys[i] == keys[keys.len() - 1]);
            }
        } else if keys.contains(k) {
            let i = choose|i: int| 0 <= i < keys.len() && keys[i] == k;
            assert(head[i] == k);
        }
    }
}

proof fn lemma_tally_by_key<K, P>(
    items: Seq<(K, i64, P)>,
    keys: Seq<K>,
    start: i64,
    end: i64,
    c: spec_fn((K, i64, P)) -> bool,
)
    requires
        keys.no_duplicates(),
        forall|i: int| 0 <= i < items.len() ==> keys.contains((#[trigger] items[i]).0),
    ensures
        tally_by_key(items, keys, start, end, c) == tally(
            items,
            |it: (K, i64, P)| any_key_range(start, end)(it) && c(it),
        ),
    decreases items.len(), keys.len(),
{
    if items.len() > 0 {
        let rest = items.drop_last();
        assert forall|i: int| 0 <= i < rest.len() implies keys.contains((#[trigger] rest[i]).0) by {
            assert(rest[i] == items[i]);
        }
        lemma_tally_by_key(rest, keys, start, end, c);
        lemma_tally_by_key_step(items, keys, start, end, c);
        assert(keys.contains(items[items.len() - 1].0));
    } else if keys.len() > 0 {
        lemma_tally_by_key(items, keys.drop_last(), start, end, c);
    }
}

proof fn lemma_tally_same<A>(items: Seq<A>, c: spec_fn(A) -> bool, d: spec_fn(A) -> bool)
    requires
        forall|a: A| #[trigger] c(a) == d(a),
    ensures
        tally(items, c) == tally(items, d),
    decreases items.len(),
{
    if items.len() > 0 {
        lemma_tally_same(items.drop_last(), c, d);
    }
}

/// The totals of range results added up.
pub open spec fn totals_of<P>(parts: Seq<RangeResult<P>>) -> nat
    decreases parts.len(),
{
    if parts.len() == 0 {
        0
    } else {
        totals_of(parts.drop_last()) + parts.last().total_count as nat
    }
}

/// The multiplicities of `payload` in range results added up.
pub open spec fn multiplicities_of<P>(parts: Seq<RangeResult<P>>, payload: P) -> nat
    decreases parts.len(),
{
    if parts.len() == 0 {
        0
    } else {
        multiplicities_of(parts.drop_last(), payload) + parts.last().payload_counts.items().to_multiset().count(payload)
    }
}

/// The part results answer the range query under each of `keys` alone.
pub open spec fn answers_by_key<K, P>(
    items: Seq<(K, i64, P)>,
    keys: Seq<K>,
    start: i64,
    end: i64,
    parts: Seq<RangeResult<P>>,
) -> bool {
    &&& parts.len() == keys.len()
    &&& forall|i: int|
        0 <= i < keys.len() ==> (#[trigger] parts[i]).describes(
            keyed_payloads(items.filter(keyed_range(keys[i], start, end))),
        )
}

proof fn lemma_parts_add_up<K, P>(
    items: Seq<(K, i64, P)>,
    keys: Seq<K>,
    start: i64,
    end: i64,
    parts: Seq<RangeResult<P>>,
    p: P,
)
    requires
        answers_by_key(items, keys, start, end, parts),
    ensures
        totals_of(parts) == tally_by_key(items, keys, start, end, |it: (K, i64, P)| true),
        multiplicities_of(parts, p) == tally_by_key(items, keys, start, end, |it: (K, i64, P)| it.2 == p),
    decreases keys.len(),
{
    if keys.len() > 0 {
        let heads = parts.drop_last();
        let head = keys.drop_last();
        assert forall|i: int| 0 <= i < head.len() implies (#[trigger] heads[i]).describes(
            keyed_payloads(items.filter(keyed_range(head[i], start, end))),
        ) by {
            assert(heads[i] == parts[i]);
        }
        lemma_parts_add_up(items, head, start, end, heads, p);
        let c = keyed_range::<K, P>(keys.last(), start, end);
        assert(parts[keys.len() - 1].describes(keyed_payloads(items.filter(c))));
        lemma_tally_filter(items, c, p);
        lemma_tally_same(items, c, |it: (K, i64, P)| c(it) && (|x: (K, i64, P)| true)(it));
        lemma_tally_same(
            items,
            |it: (K, i64, P)| c(it) && it.2 == p,
            |it: (K, i64, P)| c(it) && (|x: (K, i64, P)| x.2 == p)(it),
        );
    }
}

/// A query over all keys answers the sum of the queries key by key. Over all
/// time it counts everything, over an inverted range nothing.
pub proof fn law_range_is_sum_over_keys<K, P>(
    items: Seq<(K, i64, P)>,
    keys: Seq<K>,
    start: i64,
    end: i64,
    whole: RangeResult<P>,
    parts: Seq<RangeResult<P>>,
)
    requires
        keys.no_duplicates(),
        keys.to_set() == key_set(items),
        whole.describes(keyed_payloads(items.filter(any_key_range(start, end)))),
        answers_by_key(items, keys, start, end, parts),
    ensures
        whole.total_count == totals_of(parts),
        forall|p: P| #[trigger] whole.payload_counts.items().to_multiset().count(p) == multiplicities_of(parts, p),
        start == i64::MIN && end == i64::MAX ==> whole.total_count == items.len(),
        start > end ==> whole.total_count == 0,
{
    assert forall|i: int| 0 <= i < items.len() implies keys.contains((#[trigger] items[i]).0) by {
        assert(items.map_values(item_key())[i] == items[i].0);
        assert(keys.to_set().contains(items[i].0));
    }
    let c = any_key_range::<K, P>(start, end);
    assert forall|p: P|
        whole.total_count == totals_of(parts) && #[trigger] whole.payload_counts.items().to_multiset().count(p)
            == multiplicities_of(parts, p) by {
        lemma_parts_add_up(items, keys, start, end, parts, p);
        lemma_tally_filter(items, c, p);
        lemma_tally_by_key(items, keys, start, end, |it: (K, i64, P)| true);
        lemma_tally_by_key(items, keys, start, end, |it: (K, i64, P)| it.2 == p);
        lemma_tally_same(items, c, |it: (K, i64, P)| c(it) && (|x: (K, i64, P)| true)(it));
        lemma_tally_same(
            items,
            |it: (K, i64, P)| c(it) && it.2 == p,
            |it: (K, i64, P)| c(it) && (|x: (K, i64, P)| x.2 == p)(it),
        );
    }
    let some: P = arbitrary();
    assert(whole.payload_counts.items().to_multiset().count(some) == multiplicities_of(parts, some));
    lemma_filter_all_or_none(items, c);
}

} // verus!
