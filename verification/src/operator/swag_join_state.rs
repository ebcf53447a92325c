//! Pairwise interval join with an incrementally maintained aggregate.
//!
//! For an interval join over a ring, inserting a left element at `t` changes
//! the aggregate by its payload times the sum of the right payloads in
//! `[t + lower, t + upper]`; a right element pairs with the left payloads in
//! `[t - upper, t - lower]`; evicting an element takes the same change back.
use vstd::prelude::*;

use crate::algebra::{additive, group, monoid, total};
use crate::algebra::{
    lemma_cancel, lemma_total_additive, lemma_total_filter, lemma_total_inserted,
    lemma_total_pointwise, lemma_total_reorder,
};
use crate::listing::{dup, inserted, lawful, lemma_inserted_filter, lemma_inserted_map, lemma_map_filter};
use crate::operator::payload_counts::copies;
use crate::operator::swag_join::{
    item_key, key_set, key_times, keyed_payloads, keyed_range, KeyIndexedTimeIndex,
};
use crate::operator::time_index::{in_range, payloads, timestamps, RangeResult, TimeIndex};

verus! {

/// Which side of the join a payload aggregate belongs to.
#[derive(Clone, Copy, Debug, PartialEq, Eq, Hash, Structural)]
#[non_exhaustive]
pub enum PayloadType {
    Left,
    Right,
}

/// Ring algebra of an incrementally maintained join aggregate.
///
/// The spec functions are the mathematical operations; each executable method
/// computes the one it is named after.
///
/// An implementation in plain Rust leaves the spec functions out. Each then has
/// one unknown value for all arguments, so that the contracts over them say
/// nothing of such an implementation.
pub trait JoinAggregateSpec {
    type L;

    type R;

    type PL: Eq + Clone;

    type PR: Eq + Clone;

    type V: Clone;

    open spec fn spec_left_payload(&self, left: Self::L) -> Self::PL {
        arbitrary()
    }

    open spec fn spec_right_payload(&self, right: Self::R) -> Self::PR {
        arbitrary()
    }

    open spec fn spec_zero(&self) -> Self::V {
        arbitrary()
    }

    open spec fn spec_add(&self, a: Self::V, b: Self::V) -> Self::V {
        arbitrary()
    }

    open spec fn spec_negate(&self, v: Self::V) -> Self::V {
        arbitrary()
    }

    open spec fn spec_multiply_left(&self, left: Self::PL, right: Self::PR) -> Self::V {
        arbitrary()
    }

    open spec fn spec_multiply_right(&self, left: Self::PL, right: Self::PR) -> Self::V {
        arbitrary()
    }

    open spec fn spec_zero_left(&self) -> Self::PL {
        arbitrary()
    }

    open spec fn spec_zero_right(&self) -> Self::PR {
        arbitrary()
    }

    open spec fn spec_add_left(&self, a: Self::PL, b: Self::PL) -> Self::PL {
        arbitrary()
    }

    open spec fn spec_add_right(&self, a: Self::PR, b: Self::PR) -> Self::PR {
        arbitrary()
    }

    open spec fn spec_name(&self) -> Seq<char> {
        arbitrary()
    }

    /// Extracts the left-side ring payload from an input element.
    fn left_payload(&self, left: &Self::L) -> (r: Self::PL)
        ensures
            r == self.spec_left_payload(*left),
    ;

    /// Extracts the right-side ring payload from an input element.
    fn right_payload(&self, right: &Self::R) -> (r: Self::PR)
        ensures
            r == self.spec_right_payload(*right),
    ;

    /// Aggregate-level zero.
    fn zero(&self) -> (r: Self::V)
        ensures
            r == self.spec_zero(),
    ;

    /// Aggregate-level addition.
    fn add(&self, a: &Self::V, b: &Self::V) -> (r: Self::V)
        ensures
            r == self.spec_add(*a, *b),
    ;

    /// Aggregate-level additive inverse.
    fn negate(&self, v: &Self::V) -> (r: Self::V)
        ensures
            r == self.spec_negate(*v),
    ;

    /// Left payload times the sum of a range of right payloads.
    fn multiply_left(&self, left: &Self::PL, right: &Self::PR) -> (r: Self::V)
        ensures
            r == self.spec_multiply_left(*left, *right),
    ;

    /// The sum of a range of left payloads times a right payload.
    fn multiply_right(&self, left: &Self::PL, right: &Self::PR) -> (r: Self::V)
        ensures
            r == self.spec_multiply_right(*left, *right),
    ;

    fn zero_left(&self) -> (r: Self::PL)
        ensures
            r == self.spec_zero_left(),
    ;

    fn zero_right(&self) -> (r: Self::PR)
        ensures
            r == self.spec_zero_right(),
    ;

    fn add_left(&self, a: &Self::PL, b: &Self::PL) -> (r: Self::PL)
        ensures
            r == self.spec_add_left(*a, *b),
    ;

    fn add_right(&self, a: &Self::PR, b: &Self::PR) -> (r: Self::PR)
        ensures
            r == self.spec_add_right(*a, *b),
    ;

    /// Name used in diagnostics.
    fn name(&self) -> (r: &str)
        ensures
            r@ == self.spec_name(),
    ;
}

pub open spec fn value_plus<S: JoinAggregateSpec>(s: &S) -> spec_fn(S::V, S::V) -> S::V {
    |a: S::V, b: S::V| s.spec_add(a, b)
}

pub open spec fn value_minus<S: JoinAggregateSpec>(s: &S) -> spec_fn(S::V) -> S::V {
    |a: S::V| s.spec_negate(a)
}

pub open spec fn left_plus<S: JoinAggregateSpec>(s: &S) -> spec_fn(S::PL, S::PL) -> S::PL {
    |a: S::PL, b: S::PL| s.spec_add_left(a, b)
}

pub open spec fn right_plus<S: JoinAggregateSpec>(s: &S) -> spec_fn(S::PR, S::PR) -> S::PR {
    |a: S::PR, b: S::PR| s.spec_add_right(a, b)
}

/// A left payload as a function of right payloads.
pub open spec fn times_right<S: JoinAggregateSpec>(s: &S, p: S::PL) -> spec_fn(S::PR) -> S::V {
    |q: S::PR| s.spec_multiply_left(p, q)
}

/// A right payload as a function of left payloads.
pub open spec fn times_left<S: JoinAggregateSpec>(s: &S, q: S::PR) -> spec_fn(S::PL) -> S::V {
    |p: S::PL| s.spec_multiply_left(p, q)
}

/// What a spec owes: aggregates form an Abelian group, payloads commutative
/// monoids, and the product distributes over sums on either side.
pub open spec fn is_ring<S: JoinAggregateSpec>(s: &S) -> bool {
    &&& group(s.spec_zero(), value_plus(s), value_minus(s))
    &&& monoid(s.spec_zero_left(), left_plus(s))
    &&& monoid(s.spec_zero_right(), right_plus(s))
    &&& forall|p: S::PL| #[trigger]
        additive(times_right(s, p), s.spec_zero_right(), right_plus(s), s.spec_zero(), value_plus(s))
    &&& forall|q: S::PR| #[trigger]
        additive(times_left(s, q), s.spec_zero_left(), left_plus(s), s.spec_zero(), value_plus(s))
    &&& forall|p: S::PL, q: S::PR| #[trigger] s.spec_multiply_right(p, q) == s.spec_multiply_left(p, q)
}

pub open spec fn left_total<S: JoinAggregateSpec>(s: &S, items: Seq<S::PL>) -> S::PL {
    total(s.spec_zero_left(), left_plus(s), items)
}

pub open spec fn right_total<S: JoinAggregateSpec>(s: &S, items: Seq<S::PR>) -> S::PR {
    total(s.spec_zero_right(), right_plus(s), items)
}

/// Closed interval `[lower, upper]` of join offsets, in milliseconds.
#[derive(Clone, Copy, Debug, PartialEq, Eq, Hash, Structural)]
pub struct IntervalBounds {
    pub lower: i64,
    pub upper: i64,
}

impl IntervalBounds {
    pub fn new(lower: i64, upper: i64) -> (r: Self)
        requires
            lower <= upper,
        ensures
            r == (IntervalBounds { lower, upper }),
    {
        IntervalBounds { lower, upper }
    }
}

/// Where the join keys of elements come from.
pub trait JoinKeys<L, R, K> {
    spec fn keyed(&self) -> bool;

    spec fn left_defined(&self, left: L) -> bool;

    spec fn right_defined(&self, right: R) -> bool;

    spec fn left_gives(&self, left: L, k: K) -> bool;

    spec fn right_gives(&self, right: R, k: K) -> bool;

    fn left_key(&self, left: &L) -> (k: K)
        requires
            self.left_defined(*left),
        ensures
            self.left_gives(*left, k),
    ;

    fn right_key(&self, right: &R) -> (k: K)
        requires
            self.right_defined(*right),
        ensures
            self.right_gives(*right, k),
    ;
}

/// The key of elements that have none.
#[derive(Clone, Copy, Debug, Hash)]
pub struct NoKey;

impl PartialEq for NoKey {
    fn eq(&self, other: &Self) -> (r: bool) {
        true
    }
}

impl vstd::std_specs::cmp::PartialEqSpecImpl for NoKey {
    open spec fn obeys_eq_spec() -> bool {
        true
    }

    open spec fn eq_spec(&self, other: &Self) -> bool {
        true
    }
}

impl Eq for NoKey {

}

pub proof fn lemma_no_key_lawful()
    ensures
        lawful::<NoKey>(),
{
    reveal(vstd::laws_eq::obeys_concrete_eq);
}

/// No keys: every temporal match participates.
#[derive(Clone, Copy, Debug)]
pub struct NoKeys;

impl<L, R> JoinKeys<L, R, NoKey> for NoKeys {
    open spec fn keyed(&self) -> bool {
        false
    }

    open spec fn left_defined(&self, left: L) -> bool {
        true
    }

    open spec fn right_defined(&self, right: R) -> bool {
        true
    }

    open spec fn left_gives(&self, left: L, k: NoKey) -> bool {
        true
    }

    open spec fn right_gives(&self, right: R, k: NoKey) -> bool {
        true
    }

    fn left_key(&self, left: &L) -> (k: NoKey) {
        NoKey
    }

    fn right_key(&self, right: &R) -> (k: NoKey) {
        NoKey
    }
}

/// A key extractor for each side.
#[derive(Clone, Copy)]
pub struct KeyPair<FL, FR> {
    pub left: FL,
    pub right: FR,
}

impl<L, R, K, FL: Fn(&L) -> K, FR: Fn(&R) -> K> JoinKeys<L, R, K> for KeyPair<FL, FR> {
    open spec fn keyed(&self) -> bool {
        true
    }

    open spec fn left_defined(&self, left: L) -> bool {
        call_requires(self.left, (&left,))
    }

    open spec fn right_defined(&self, right: R) -> bool {
        call_requires(self.right, (&right,))
    }

    open spec fn left_gives(&self, left: L, k: K) -> bool {
        call_ensures(self.left, (&left,), k)
    }

    open spec fn right_gives(&self, right: R, k: K) -> bool {
        call_ensures(self.right, (&right,), k)
    }

    fn left_key(&self, left: &L) -> (k: K) {
        (self.left)(left)
    }

    fn right_key(&self, right: &R) -> (k: K) {
        (self.right)(right)
    }
}

/// An unkeyed pair as a join item.
pub open spec fn unkeyed_item<K, P>() -> spec_fn((i64, P)) -> (Option<K>, i64, P) {
    |it: (i64, P)| (None::<K>, it.0, it.1)
}

/// A keyed item as a join item.
pub open spec fn keyed_item<K, P>() -> spec_fn((K, i64, P)) -> (Option<K>, i64, P) {
    |it: (K, i64, P)| (Some(it.0), it.1, it.2)
}

/// The join items under `key` with timestamps in `[lo, hi]`.
pub open spec fn matching<K, P>(key: Option<K>, lo: int, hi: int) -> spec_fn((Option<K>, i64, P)) -> bool {
    |it: (Option<K>, i64, P)| it.0 == key && lo <= it.1 <= hi
}

/// The payload of a join item.
pub open spec fn item_payload<K, P>() -> spec_fn((Option<K>, i64, P)) -> P {
    |it: (Option<K>, i64, P)| it.2
}

/// The payloads of the items under `key` in `[lo, hi]`.
pub open spec fn matched<K, P>(items: Seq<(Option<K>, i64, P)>, key: Option<K>, lo: int, hi: int) -> Seq<P> {
    items.filter(matching(key, lo, hi)).map_values(item_payload())
}

pub proof fn lemma_matched_unkeyed<K, P>(items: Seq<(i64, P)>, lo: i64, hi: i64)
    ensures
        matched(items.map_values(unkeyed_item::<K, P>()), None::<K>, lo as int, hi as int) == payloads(
            items.filter(in_range(lo, hi)),
        ),
{
    let g = unkeyed_item::<K, P>();
    lemma_map_filter(items, g, matching(None::<K>, lo as int, hi as int), in_range(lo, hi));
    assert(items.filter(in_range(lo, hi)).map_values(g).map_values(item_payload()) =~= payloads(
        items.filter(in_range(lo, hi)),
    ));
}

proof fn lemma_matched_keyed<K, P>(items: Seq<(K, i64, P)>, k: K, lo: i64, hi: i64)
    ensures
        matched(items.map_values(keyed_item()), Some(k), lo as int, hi as int) == keyed_payloads(
            items.filter(keyed_range(k, lo, hi)),
        ),
{
    let g = keyed_item::<K, P>();
    lemma_map_filter(items, g, matching(Some(k), lo as int, hi as int), keyed_range(k, lo, hi));
    assert(items.filter(keyed_range(k, lo, hi)).map_values(g).map_values(item_payload()) =~= keyed_payloads(
        items.filter(keyed_range(k, lo, hi)),
    ));
}

/// Sums the left payloads of a range.
fn aggregate_left<S: JoinAggregateSpec>(spec: &S, range: &RangeResult<S::PL>) -> (r: S::PL)
    requires
        range.payload_counts.wf(),
        range.total_count == range.payload_counts.items().len(),
    ensures
        r == left_total(spec, range.payload_counts.items()),
{
    let list = range.payload_counts.entries();
    let ghost es = range.payload_counts@;
    let mut acc = spec.zero_left();
    if range.is_empty() {
        return acc;
    }
    let mut i: usize = 0;
    assert(es.take(0) =~= Seq::<(S::PL, u64)>::empty());
    while i < list.len()
        invariant
            list@ == es,
            i <= es.len(),
            acc == left_total(spec, crate::listing::concat(es.take(i as int), copies())),
        decreases es.len() - i,
    {
        let ghost base = crate::listing::concat(es.take(i as int), copies());
        let ghost p = es[i as int].0;
        let n: u64 = list[i].1;
        let mut j: u64 = 0;
        assert(base + crate::listing::repeated(p, 0) =~= base);
        while j < n
            invariant
                list@ == es,
                i < es.len(),
                p == es[i as int].0,
                j <= n,
                acc == left_total(spec, base + crate::listing::repeated(p, j as nat)),
            decreases n - j,
        {
            acc = spec.add_left(&acc, &list[i].0);
            proof {
                let l = base + crate::listing::repeated(p, (j + 1) as nat);
                assert(l.drop_last() =~= base + crate::listing::repeated(p, j as nat));
            }
            j += 1;
        }
        proof {
            crate::listing::lemma_concat_take(es, i as int, copies());
        }
        i += 1;
    }
    assert(es.take(i as int) =~= es);
    acc
}

/// Sums the right payloads of a range.
pub(crate) fn aggregate_right<S: JoinAggregateSpec>(spec: &S, range: &RangeResult<S::PR>) -> (r: S::PR)
    requires
        range.payload_counts.wf(),
        range.total_count == range.payload_counts.items().len(),
    ensures
        r == right_total(spec, range.payload_counts.items()),
{
    let list = range.payload_counts.entries();
    let ghost es = range.payload_counts@;
    let mut acc = spec.zero_right();
    if range.is_empty() {
        return acc;
    }
    let mut i: usize = 0;
    assert(es.take(0) =~= Seq::<(S::PR, u64)>::empty());
    while i < list.len()
        invariant
            list@ == es,
            i <= es.len(),
            acc == right_total(spec, crate::listing::concat(es.take(i as int), copies())),
        decreases es.len() - i,
    {
        let ghost base = crate::listing::concat(es.take(i as int), copies());
        let ghost p = es[i as int].0;
        let n: u64 = list[i].1;
        let mut j: u64 = 0;
        assert(base + crate::listing::repeated(p, 0) =~= base);
        while j < n
            invariant
                list@ == es,
                i < es.len(),
                p == es[i as int].0,
                j <= n,
                acc == right_total(spec, base + crate::listing::repeated(p, j as nat)),
            decreases n - j,
        {
            acc = spec.add_right(&acc, &list[i].0);
            proof {
                let l = base + crate::listing::repeated(p, (j + 1) as nat);
                assert(l.drop_last() =~= base + crate::listing::repeated(p, j as nat));
            }
            j += 1;
        }
        proof {
            crate::listing::lemma_concat_take(es, i as int, copies());
        }
        i += 1;
    }
    assert(es.take(i as int) =~= es);
    acc
}

/// The change by a left payload `p`: its product with the sum, in some order,
/// of the right payloads it matches.
pub open spec fn left_delta<S: JoinAggregateSpec>(s: &S, p: S::PL, found: Seq<S::PR>, delta: S::V) -> bool {
    exists|order: Seq<S::PR>| #[trigger]
        order.to_multiset() == found.to_multiset() && delta == s.spec_multiply_left(p, right_total(s, order))
}

/// The change by a right payload `q`: the product of the sum, in some order,
/// of the left payloads it matches with it.
pub open spec fn right_delta<S: JoinAggregateSpec>(s: &S, q: S::PR, found: Seq<S::PL>, delta: S::V) -> bool {
    exists|order: Seq<S::PL>| #[trigger]
        order.to_multiset() == found.to_multiset() && delta == s.spec_multiply_right(left_total(s, order), q)
}

#[derive(Debug)]
#[allow(inconsistent_fields)]
enum Indexes<PL, PR, K> {
    CrossProduct { left: TimeIndex<PL>, right: TimeIndex<PR> },
    KeyIndexed { left: KeyIndexedTimeIndex<K, PL>, right: KeyIndexedTimeIndex<K, PR> },
}

/// Stateful pairwise interval join.
///
/// It holds the payloads of both sides with their timestamps, in
/// cross-product mode without keys, in equi-join mode under the keys that the
/// extractors give, and a running aggregate.
pub struct WindowJoinState<S: JoinAggregateSpec, K = NoKey, X = NoKeys> {
    spec: S,
    keys: X,
    bounds: IntervalBounds,
    indexes: Indexes<S::PL, S::PR, K>,
    aggregate: S::V,
    name: String,
}

impl<S: JoinAggregateSpec, K, X> WindowJoinState<S, K, X> {
    pub closed spec fn ring(&self) -> S {
        self.spec
    }

    pub closed spec fn key_source(&self) -> X {
        self.keys
    }

    pub closed spec fn interval(&self) -> IntervalBounds {
        self.bounds
    }

    /// The running aggregate.
    pub closed spec fn value(&self) -> S::V {
        self.aggregate
    }

    pub closed spec fn label(&self) -> Seq<char> {
        self.name@
    }

    pub closed spec fn key_mode(&self) -> bool {
        self.indexes is KeyIndexed
    }

    /// The left payloads held, with their keys and timestamps.
    pub closed spec fn left_items(&self) -> Seq<(Option<K>, i64, S::PL)> {
        match self.indexes {
            Indexes::CrossProduct { left, right } => left@.map_values(unkeyed_item()),
            Indexes::KeyIndexed { left, right } => left@.map_values(keyed_item()),
        }
    }

    /// The right payloads held, with their keys and timestamps.
    pub closed spec fn right_items(&self) -> Seq<(Option<K>, i64, S::PR)> {
        match self.indexes {
            Indexes::CrossProduct { left, right } => right@.map_values(unkeyed_item()),
            Indexes::KeyIndexed { left, right } => right@.map_values(keyed_item()),
        }
    }

    /// The indexes are sound and the interval is not inverted.
    pub closed spec fn sound(&self) -> bool {
        &&& self.bounds.lower <= self.bounds.upper
        &&& match self.indexes {
            Indexes::CrossProduct { left, right } => left.wf() && right.wf(),
            Indexes::KeyIndexed { left, right } => left.wf() && right.wf(),
        }
    }

    /// Everything but the aggregate and the held payloads is as in `other`.
    pub open spec fn same_setup(&self, other: &Self) -> bool {
        &&& self.ring() == other.ring()
        &&& self.key_source() == other.key_source()
        &&& self.interval() == other.interval()
        &&& self.label() == other.label()
        &&& self.key_mode() == other.key_mode()
    }

    /// Current aggregate value.
    pub fn aggregate(&self) -> (r: S::V)
        ensures
            cloned(self.value(), r),
    {
        self.aggregate.clone()
    }

    /// Spec name for diagnostics.
    pub fn name(&self) -> (r: &str)
        ensures
            r@ == self.label(),
    {
        self.name.as_str()
    }

    /// Interval bounds.
    pub fn bounds(&self) -> (r: IntervalBounds)
        ensures
            r == self.interval(),
    {
        self.bounds
    }

    /// `true` when this state has key extractors.
    pub fn is_key_indexed(&self) -> (r: bool)
        ensures
            r == self.key_mode(),
    {
        match &self.indexes {
            Indexes::CrossProduct { left, right } => false,
            Indexes::KeyIndexed { left, right } => true,
        }
    }

    /// Total left-side payload occurrences.
    pub fn left_count(&self) -> (r: u64)
        requires
            self.sound(),
        ensures
            r == self.left_items().len(),
    {
        match &self.indexes {
            Indexes::CrossProduct { left, right } => left.size(),
            Indexes::KeyIndexed { left, right } => left.size(),
        }
    }

    /// Total right-side payload occurrences.
    pub fn right_count(&self) -> (r: u64)
        requires
            self.sound(),
        ensures
            r == self.right_items().len(),
    {
        match &self.indexes {
            Indexes::CrossProduct { left, right } => right.size(),
            Indexes::KeyIndexed { left, right } => right.size(),
        }
    }

    /// `true` when both sides are empty.
    pub fn is_empty(&self) -> (r: bool)
        requires
            self.sound(),
        ensures
            r == (self.left_items().len() == 0 && self.right_items().len() == 0),
    {
        match &self.indexes {
            Indexes::CrossProduct { left, right } => left.is_empty() && right.is_empty(),
            Indexes::KeyIndexed { left, right } => left.is_empty() && right.is_empty(),
        }
    }

    /// Drops all payloads and resets the aggregate to zero.
    pub fn clear(&mut self)
        requires
            old(self).sound(),
        ensures
            final(self).sound(),
            final(self).same_setup(old(self)),
            final(self).left_items() == Seq::<(Option<K>, i64, S::PL)>::empty(),
            final(self).right_items() == Seq::<(Option<K>, i64, S::PR)>::empty(),
            final(self).value() == old(self).ring().spec_zero(),
    {
        match &mut self.indexes {
            Indexes::CrossProduct { left, right } => {
                left.clear();
                right.clear();
            },
            Indexes::KeyIndexed { left, right } => {
                left.clear();
                right.clear();
            },
        }
        self.aggregate = self.spec.zero();
        assert(self.left_items() =~= Seq::<(Option<K>, i64, S::PL)>::empty());
        assert(self.right_items() =~= Seq::<(Option<K>, i64, S::PR)>::empty());
    }

    /// The left time index in cross-product mode.
    pub fn left_time_index(&self) -> (r: Option<&TimeIndex<S::PL>>)
        requires
            self.sound(),
        ensures
            r is Some <==> !self.key_mode(),
            r is Some ==> r->0.wf() && r->0@.map_values(unkeyed_item::<K, S::PL>()) == self.left_items(),
    {
        match &self.indexes {
            Indexes::CrossProduct { left, right } => Some(left),
            Indexes::KeyIndexed { left, right } => None,
        }
    }

    /// The right time index in cross-product mode.
    pub fn right_time_index(&self) -> (r: Option<&TimeIndex<S::PR>>)
        requires
            self.sound(),
        ensures
            r is Some <==> !self.key_mode(),
            r is Some ==> r->0.wf() && r->0@.map_values(unkeyed_item::<K, S::PR>()) == self.right_items(),
    {
        match &self.indexes {
            Indexes::CrossProduct { left, right } => Some(right),
            Indexes::KeyIndexed { left, right } => None,
        }
    }
}

impl<S: JoinAggregateSpec> WindowJoinState<S, NoKey, NoKeys> {
    /// Builds a cross-product state.
    pub fn new(spec: S, bounds: IntervalBounds) -> (r: Self)
        requires
            bounds.lower <= bounds.upper,
        ensures
            r.sound(),
            r.ring() == spec,
            r.interval() == bounds,
            !r.key_mode(),
            r.value() == spec.spec_zero(),
            r.label() == spec.spec_name(),
            r.left_items() == Seq::<(Option<NoKey>, i64, S::PL)>::empty(),
            r.right_items() == Seq::<(Option<NoKey>, i64, S::PR)>::empty(),
    {
        let aggregate = spec.zero();
        let name = spec.name().to_string();
        let r = WindowJoinState {
            spec,
            keys: NoKeys,
            bounds,
            indexes: Indexes::CrossProduct { left: TimeIndex::new(), right: TimeIndex::new() },
            aggregate,
            name,
        };
        assert(r.left_items() =~= Seq::<(Option<NoKey>, i64, S::PL)>::empty());
        assert(r.right_items() =~= Seq::<(Option<NoKey>, i64, S::PR)>::empty());
        r
    }
}

impl<S: JoinAggregateSpec, K, FL: Fn(&S::L) -> K, FR: Fn(&S::R) -> K> WindowJoinState<S, K, KeyPair<FL, FR>> {
    /// Builds an equi-join state that matches elements by extracted keys.
    pub fn with_keys(spec: S, bounds: IntervalBounds, left_extractor: FL, right_extractor: FR) -> (r: Self)
        requires
            bounds.lower <= bounds.upper,
        ensures
            r.sound(),
            r.ring() == spec,
            r.key_source() == (KeyPair { left: left_extractor, right: right_extractor }),
            r.interval() == bounds,
            r.key_mode(),
            r.value() == spec.spec_zero(),
            r.label() == spec.spec_name(),
            r.left_items() == Seq::<(Option<K>, i64, S::PL)>::empty(),
            r.right_items() == Seq::<(Option<K>, i64, S::PR)>::empty(),
    {
        let aggregate = spec.zero();
        let name = spec.name().to_string();
        let r = WindowJoinState {
            spec,
            keys: KeyPair { left: left_extractor, right: right_extractor },
            bounds,
            indexes: Indexes::KeyIndexed {
                left: KeyIndexedTimeIndex::new(),
                right: KeyIndexedTimeIndex::new(),
            },
            aggregate,
            name,
        };
        assert(r.left_items() =~= Seq::<(Option<K>, i64, S::PL)>::empty());
        assert(r.right_items() =~= Seq::<(Option<K>, i64, S::PR)>::empty());
        r
    }
}

/// What inserting a left element does: with a key of the element, the payload
/// joins the left side and the aggregate grows by the payload's change.
pub open spec fn left_inserted<S: JoinAggregateSpec, K, X: JoinKeys<S::L, S::R, K>>(
    before: &WindowJoinState<S, K, X>,
    after: &WindowJoinState<S, K, X>,
    timestamp: i64,
    elem: S::L,
    delta: S::V,
) -> bool {
    exists|key: Option<K>|
        #![trigger matched(
            before.right_items(),
            key,
            timestamp + before.interval().lower,
            timestamp + before.interval().upper,
        )]
        {
            let p = before.ring().spec_left_payload(elem);
            &&& is_left_key(before, elem, key)
            &&& inserted(before.left_items(), after.left_items(), (key, timestamp, p))
            &&& after.right_items() == before.right_items()
            &&& left_delta(
                &before.ring(),
                p,
                matched(
                    before.right_items(),
                    key,
                    timestamp + before.interval().lower,
                    timestamp + before.interval().upper,
                ),
                delta,
            )
            &&& after.value() == before.ring().spec_add(before.value(), delta)
        }
}

/// What inserting a right element does.
pub open spec fn right_inserted<S: JoinAggregateSpec, K, X: JoinKeys<S::L, S::R, K>>(
    before: &WindowJoinState<S, K, X>,
    after: &WindowJoinState<S, K, X>,
    timestamp: i64,
    elem: S::R,
    delta: S::V,
) -> bool {
    exists|key: Option<K>|
        #![trigger matched(
            before.left_items(),
            key,
            timestamp - before.interval().upper,
            timestamp - before.interval().lower,
        )]
        {
            let q = before.ring().spec_right_payload(elem);
            &&& is_right_key(before, elem, key)
            &&& inserted(before.right_items(), after.right_items(), (key, timestamp, q))
            &&& after.left_items() == before.left_items()
            &&& right_delta(
                &before.ring(),
                q,
                matched(
                    before.left_items(),
                    key,
                    timestamp - before.interval().upper,
                    timestamp - before.interval().lower,
                ),
                delta,
            )
            &&& after.value() == before.ring().spec_add(before.value(), delta)
        }
}

/// What evicting a left element does: one occurrence of its payload leaves,
/// if one is held, and the aggregate shrinks by the payload's change.
pub open spec fn left_evicted<S: JoinAggregateSpec, K, X: JoinKeys<S::L, S::R, K>>(
    before: &WindowJoinState<S, K, X>,
    after: &WindowJoinState<S, K, X>,
    timestamp: i64,
    elem: S::L,
    delta: S::V,
) -> bool {
    exists|key: Option<K>, positive: S::V|
        #![trigger is_left_key(before, elem, key), before.ring().spec_negate(positive)]
        {
            let p = before.ring().spec_left_payload(elem);
            &&& is_left_key(before, elem, key)
            &&& taken_out(before.left_items(), after.left_items(), (key, timestamp, p))
            &&& after.right_items() == before.right_items()
            &&& left_delta(
                &before.ring(),
                p,
                matched(
                    before.right_items(),
                    key,
                    timestamp + before.interval().lower,
                    timestamp + before.interval().upper,
                ),
                positive,
            )
            &&& delta == before.ring().spec_negate(positive)
            &&& after.value() == before.ring().spec_add(before.value(), delta)
        }
}

/// What evicting a right element does.
pub open spec fn right_evicted<S: JoinAggregateSpec, K, X: JoinKeys<S::L, S::R, K>>(
    before: &WindowJoinState<S, K, X>,
    after: &WindowJoinState<S, K, X>,
    timestamp: i64,
    elem: S::R,
    delta: S::V,
) -> bool {
    exists|key: Option<K>, positive: S::V|
        #![trigger is_right_key(before, elem, key), before.ring().spec_negate(positive)]
        {
            let q = before.ring().spec_right_payload(elem);
            &&& is_right_key(before, elem, key)
            &&& taken_out(before.right_items(), after.right_items(), (key, timestamp, q))
            &&& after.left_items() == before.left_items()
            &&& right_delta(
                &before.ring(),
                q,
                matched(
                    before.left_items(),
                    key,
                    timestamp - before.interval().upper,
                    timestamp - before.interval().lower,
                ),
                positive,
            )
            &&& delta == before.ring().spec_negate(positive)
            &&& after.value() == before.ring().spec_add(before.value(), delta)
        }
}

/// One occurrence of `x` is gone if there was one, else nothing changed.
pub open spec fn taken_out<A>(before: Seq<A>, after: Seq<A>, x: A) -> bool {
    if before.contains(x) {
        inserted(after, before, x)
    } else {
        after == before
    }
}

/// `key` is a join key of the left element: none without extractors.
pub open spec fn is_left_key<S: JoinAggregateSpec, K, X: JoinKeys<S::L, S::R, K>>(
    state: &WindowJoinState<S, K, X>,
    elem: S::L,
    key: Option<K>,
) -> bool {
    if state.key_mode() {
        key is Some && state.key_source().left_gives(elem, key->0)
    } else {
        key is None
    }
}

/// `key` is a join key of the right element: none without extractors.
pub open spec fn is_right_key<S: JoinAggregateSpec, K, X: JoinKeys<S::L, S::R, K>>(
    state: &WindowJoinState<S, K, X>,
    elem: S::R,
    key: Option<K>,
) -> bool {
    if state.key_mode() {
        key is Some && state.key_source().right_gives(elem, key->0)
    } else {
        key is None
    }
}

proof fn lemma_unkeyed_has<K, P>(items: Seq<(i64, P)>, timestamp: i64, p: P)
    ensures
        items.map_values(unkeyed_item::<K, P>()).contains((None::<K>, timestamp, p)) == items.contains(
            (timestamp, p),
        ),
{
    let l = items.map_values(unkeyed_item::<K, P>());
    if l.contains((None::<K>, timestamp, p)) {
        let i = choose|i: int| 0 <= i < l.len() && l[i] == (None::<K>, timestamp, p);
        assert(items[i] == (timestamp, p));
    }
    if items.contains((timestamp, p)) {
        let i = choose|i: int| 0 <= i < items.len() && items[i] == (timestamp, p);
        assert(l[i] == (None::<K>, timestamp, p));
    }
}

proof fn lemma_keyed_has<K, P>(items: Seq<(K, i64, P)>, k: K, timestamp: i64, p: P)
    ensures
        items.map_values(keyed_item()).contains((Some(k), timestamp, p)) == items.contains((k, timestamp, p)),
{
    let l = items.map_values(keyed_item::<K, P>());
    if l.contains((Some(k), timestamp, p)) {
        let i = choose|i: int| 0 <= i < l.len() && l[i] == (Some(k), timestamp, p);
        assert(items[i] == (k, timestamp, p));
    }
    if items.contains((k, timestamp, p)) {
        let i = choose|i: int| 0 <= i < items.len() && items[i] == (k, timestamp, p);
        assert(l[i] == (Some(k), timestamp, p));
    }
}

impl<S: JoinAggregateSpec, K: Eq + Clone, X: JoinKeys<S::L, S::R, K>> WindowJoinState<S, K, X> {
    /// Inserts a left element at `timestamp` and returns the change of the
    /// aggregate.
    pub fn insert_left(&mut self, timestamp: i64, elem: S::L) -> (delta: S::V)
        requires
            lawful::<K>(),
            lawful::<S::PL>(),
            lawful::<S::PR>(),
            old(self).sound(),
            old(self).key_mode() ==> old(self).key_source().left_defined(elem),
            old(self).left_items().len() < u64::MAX,
            i64::MIN <= timestamp + old(self).interval().lower,
            timestamp + old(self).interval().upper <= i64::MAX,
        ensures
            final(self).sound(),
            final(self).same_setup(old(self)),
            left_inserted(old(self), final(self), timestamp, elem, delta),
    {
        let payload = self.spec.left_payload(&elem);
        let ghost p = payload;
        let start: i64 = timestamp + self.bounds.lower;
        let end: i64 = timestamp + self.bounds.upper;
        let delta;
        let ghost mut key: Option<K> = None;
        match &mut self.indexes {
            Indexes::CrossProduct { left, right } => {
                let range = right.query_range(start, end);
                let sum = aggregate_right(&self.spec, &range);
                delta = self.spec.multiply_left(&payload, &sum);
                let ghost held = left@;
                left.insert(timestamp, payload);
                proof {
                    lemma_matched_unkeyed::<K, S::PR>(right@, start, end);
                    assert(range.payload_counts.items().to_multiset() == payloads(
                        right@.filter(in_range(start, end)),
                    ).to_multiset());
                    lemma_inserted_map(held, left@, (timestamp, p), unkeyed_item::<K, S::PL>());
                }
            },
            Indexes::KeyIndexed { left, right } => {
                let k = self.keys.left_key(&elem);
                proof {
                    key = Some(k);
                }
                let range = right.query_range_by_key(&k, start, end);
                let sum = aggregate_right(&self.spec, &range);
                delta = self.spec.multiply_left(&payload, &sum);
                let ghost held = left@;
                left.insert(k, timestamp, payload);
                proof {
                    lemma_matched_keyed(right@, k, start, end);
                    assert(range.payload_counts.items().to_multiset() == keyed_payloads(
                        right@.filter(keyed_range(k, start, end)),
                    ).to_multiset());
                    lemma_inserted_map(held, left@, (k, timestamp, p), keyed_item::<K, S::PL>());
                }
            },
        }
        self.aggregate = self.spec.add(&self.aggregate, &delta);
        proof {
            let found = matched(old(self).right_items(), key, start as int, end as int);
            assert(is_left_key(old(self), elem, key));
            assert(left_delta(&old(self).ring(), p, found, delta));
        }
        delta
    }

    /// Evicts a left element and returns the change of the aggregate.
    pub fn evict_left(&mut self, timestamp: i64, elem: S::L) -> (delta: S::V)
        requires
            lawful::<K>(),
            lawful::<S::PL>(),
            lawful::<S::PR>(),
            old(self).sound(),
            old(self).key_mode() ==> old(self).key_source().left_defined(elem),
            i64::MIN <= timestamp + old(self).interval().lower,
            timestamp + old(self).interval().upper <= i64::MAX,
        ensures
            final(self).sound(),
            final(self).same_setup(old(self)),
            left_evicted(old(self), final(self), timestamp, elem, delta),
    {
        let payload = self.spec.left_payload(&elem);
        let ghost p = payload;
        let start: i64 = timestamp + self.bounds.lower;
        let end: i64 = timestamp + self.bounds.upper;
        let positive;
        let ghost mut key: Option<K> = None;
        match &mut self.indexes {
            Indexes::CrossProduct { left, right } => {
                let ghost held = left@;
                let gone = left.evict(timestamp, &payload);
                let range = right.query_range(start, end);
                let sum = aggregate_right(&self.spec, &range);
                positive = self.spec.multiply_left(&payload, &sum);
                proof {
                    lemma_matched_unkeyed::<K, S::PR>(right@, start, end);
                    assert(range.payload_counts.items().to_multiset() == payloads(
                        right@.filter(in_range(start, end)),
                    ).to_multiset());
                    lemma_unkeyed_has::<K, S::PL>(held, timestamp, p);
                    if gone {
                        lemma_inserted_map(left@, held, (timestamp, p), unkeyed_item::<K, S::PL>());
                    }
                }
            },
            Indexes::KeyIndexed { left, right } => {
                let ghost held = left@;
                let k = self.keys.left_key(&elem);
                proof {
                    key = Some(k);
                }
                let gone = left.evict(&k, timestamp, &payload);
                let range = right.query_range_by_key(&k, start, end);
                let sum = aggregate_right(&self.spec, &range);
                positive = self.spec.multiply_left(&payload, &sum);
                proof {
                    lemma_matched_keyed(right@, k, start, end);
                    assert(range.payload_counts.items().to_multiset() == keyed_payloads(
                        right@.filter(keyed_range(k, start, end)),
                    ).to_multiset());
                    lemma_keyed_has(held, k, timestamp, p);
                    if gone {
                        lemma_inserted_map(left@, held, (k, timestamp, p), keyed_item::<K, S::PL>());
                    }
                }
            },
        }
        let delta = self.spec.negate(&positive);
        self.aggregate = self.spec.add(&self.aggregate, &delta);
        proof {
            let found = matched(old(self).right_items(), key, start as int, end as int);
            assert(is_left_key(old(self), elem, key));
            assert(left_delta(&old(self).ring(), p, found, positive));
            assert(old(self).ring().spec_negate(positive) == delta);
        }
        delta
    }

    /// Inserts a right element at `timestamp` and returns the change of the
    /// aggregate.
    pub fn insert_right(&mut self, timestamp: i64, elem: S::R) -> (delta: S::V)
        requires
            lawful::<K>(),
            lawful::<S::PL>(),
            lawful::<S::PR>(),
            old(self).sound(),
            old(self).key_mode() ==> old(self).key_source().right_defined(elem),
            old(self).right_items().len() < u64::MAX,
            i64::MIN <= timestamp - old(self).interval().upper,
            timestamp - old(self).interval().lower <= i64::MAX,
        ensures
            final(self).sound(),
            final(self).same_setup(old(self)),
            right_inserted(old(self), final(self), timestamp, elem, delta),
    {
        let payload = self.spec.right_payload(&elem);
        let ghost p = payload;
        let start: i64 = timestamp - self.bounds.upper;
        let end: i64 = timestamp - self.bounds.lower;
        let delta;
        let ghost mut key: Option<K> = None;
        match &mut self.indexes {
            Indexes::CrossProduct { left, right } => {
                let range = left.query_range(start, end);
                let sum = aggregate_left(&self.spec, &range);
                delta = self.spec.multiply_right(&sum, &payload);
                let ghost held = right@;
                right.insert(timestamp, payload);
                proof {
                    lemma_matched_unkeyed::<K, S::PL>(left@, start, end);
                    assert(range.payload_counts.items().to_multiset() == payloads(
                        left@.filter(in_range(start, end)),
                    ).to_multiset());
                    lemma_inserted_map(held, right@, (timestamp, p), unkeyed_item::<K, S::PR>());
                }
            },
            Indexes::KeyIndexed { left, right } => {
                let k = self.keys.right_key(&elem);
                proof {
                    key = Some(k);
                }
                let range = left.query_range_by_key(&k, start, end);
                let sum = aggregate_left(&self.spec, &range);
                delta = self.spec.multiply_right(&sum, &payload);
                let ghost held = right@;
                right.insert(k, timestamp, payload);
                proof {
                    lemma_matched_keyed(left@, k, start, end);
                    assert(range.payload_counts.items().to_multiset() == keyed_payloads(
                        left@.filter(keyed_range(k, start, end)),
                    ).to_multiset());
                    lemma_inserted_map(held, right@, (k, timestamp, p), keyed_item::<K, S::PR>());
                }
            },
        }
        self.aggregate = self.spec.add(&self.aggregate, &delta);
        proof {
            let found = matched(old(self).left_items(), key, start as int, end as int);
            assert(is_right_key(old(self), elem, key));
            assert(right_delta(&old(self).ring(), p, found, delta));
        }
        delta
    }

    /// Evicts a right element and returns the change of the aggregate.
    pub fn evict_right(&mut self, timestamp: i64, elem: S::R) -> (delta: S::V)
        requires
            lawful::<K>(),
            lawful::<S::PL>(),
            lawful::<S::PR>(),
            old(self).sound(),
            old(self).key_mode() ==> old(self).key_source().right_defined(elem),
            i64::MIN <= timestamp - old(self).interval().upper,
            timestamp - old(self).interval().lower <= i64::MAX,
        ensures
            final(self).sound(),
            final(self).same_setup(old(self)),
            right_evicted(old(self), final(self), timestamp, elem, delta),
    {
        let payload = self.spec.right_payload(&elem);
        let ghost p = payload;
        let start: i64 = timestamp - self.bounds.upper;
        let end: i64 = timestamp - self.bounds.lower;
        let positive;
        let ghost mut key: Option<K> = None;
        match &mut self.indexes {
            Indexes::CrossProduct { left, right } => {
                let ghost held = right@;
                let gone = right.evict(timestamp, &payload);
                let range = left.query_range(start, end);
                let sum = aggregate_left(&self.spec, &range);
                positive = self.spec.multiply_right(&sum, &payload);
                proof {
                    lemma_matched_unkeyed::<K, S::PL>(left@, start, end);
                    assert(range.payload_counts.items().to_multiset() == payloads(
                        left@.filter(in_range(start, end)),
                    ).to_multiset());
                    lemma_unkeyed_has::<K, S::PR>(held, timestamp, p);
                    if gone {
                        lemma_inserted_map(right@, held, (timestamp, p), unkeyed_item::<K, S::PR>());
                    }
                }
            },
            Indexes::KeyIndexed { left, right } => {
                let ghost held = right@;
                let k = self.keys.right_key(&elem);
                proof {
                    key = Some(k);
                }
                let gone = right.evict(&k, timestamp, &payload);
                let range = left.query_range_by_key(&k, start, end);
                let sum = aggregate_left(&self.spec, &range);
                positive = self.spec.multiply_right(&sum, &payload);
                proof {
                    lemma_matched_keyed(left@, k, start, end);
                    assert(range.payload_counts.items().to_multiset() == keyed_payloads(
                        left@.filter(keyed_range(k, start, end)),
                    ).to_multiset());
                    lemma_keyed_has(held, k, timestamp, p);
                    if gone {
                        lemma_inserted_map(right@, held, (k, timestamp, p), keyed_item::<K, S::PR>());
                    }
                }
            },
        }
        let delta = self.spec.negate(&positive);
        self.aggregate = self.spec.add(&self.aggregate, &delta);
        proof {
            let found = matched(old(self).left_items(), key, start as int, end as int);
            assert(is_right_key(old(self), elem, key));
            assert(right_delta(&old(self).ring(), p, found, positive));
            assert(old(self).ring().spec_negate(positive) == delta);
        }
        delta
    }
}

/// The timestamp of a join item.
pub open spec fn join_time<K, P>() -> spec_fn((Option<K>, i64, P)) -> i64 {
    |it: (Option<K>, i64, P)| it.1
}

/// The distinct timestamps of join items.
pub open spec fn item_times<K, P>(items: Seq<(Option<K>, i64, P)>) -> Set<i64> {
    items.map_values(join_time()).to_set()
}

/// The key of a join item.
pub open spec fn join_key<K, P>() -> spec_fn((Option<K>, i64, P)) -> Option<K> {
    |it: (Option<K>, i64, P)| it.0
}

/// The distinct keys of join items.
pub open spec fn item_keys<K, P>(items: Seq<(Option<K>, i64, P)>) -> Set<Option<K>> {
    items.map_values(join_key()).to_set()
}

proof fn lemma_unkeyed_times<K, P>(items: Seq<(i64, P)>)
    ensures
        item_times(items.map_values(unkeyed_item::<K, P>())) == timestamps(items),
{
    assert(items.map_values(unkeyed_item::<K, P>()).map_values(join_time()) =~= items.map_values(
        crate::operator::time_index::stamp_of::<P>(),
    ));
}

proof fn lemma_keyed_times<K, P>(items: Seq<(K, i64, P)>)
    ensures
        item_times(items.map_values(keyed_item())) == key_times(items),
        forall|k: K| item_keys(items.map_values(keyed_item())).contains(Some(k)) <==> key_set(items).contains(k),
        !item_keys(items.map_values(keyed_item::<K, P>())).contains(None),
{
    let held = items.map_values(keyed_item::<K, P>());
    let keys = held.map_values(join_key());
    let plain = items.map_values(item_key::<K, P>());
    assert(held.map_values(join_time()) =~= items.map_values(crate::operator::swag_join::item_time::<K, P>()));
    assert forall|k: K| item_keys(held).contains(Some(k)) <==> key_set(items).contains(k) by {
        if keys.contains(Some(k)) {
            let i = choose|i: int| 0 <= i < keys.len() && keys[i] == Some(k);
            assert(plain[i] == k);
        }
        if plain.contains(k) {
            let i = choose|i: int| 0 <= i < plain.len() && plain[i] == k;
            assert(keys[i] == Some(k));
        }
    }
}

/// As many keys as names of keys.
proof fn lemma_keys_counted<K>(listed: Seq<K>, keys: Set<Option<K>>)
    requires
        listed.no_duplicates(),
        forall|k: K| keys.contains(Some(k)) <==> listed.contains(k),
        !keys.contains(None),
    ensures
        keys.finite(),
        keys.len() == listed.len(),
{
    let plain = listed.to_set();
    let some = |k: K| Some(k);
    listed.unique_seq_to_set();
    vstd::seq_lib::seq_to_set_is_finite(listed);
    assert(vstd::relations::injective_on(some, plain));
    assert forall|o: Option<K>| plain.map(some).contains(o) == keys.contains(o) by {
        if keys.contains(o) {
            let k = o->0;
            assert(listed.contains(k));
            assert(plain.contains(k));
            assert(some(k) == o);
        }
        if plain.map(some).contains(o) {
            let k = choose|k: K| plain.contains(k) && some(k) == o;
            assert(listed.contains(k));
        }
    }
    assert(plain.map(some) =~= keys);
    vstd::set_lib::lemma_map_size(plain, keys, some);
    assert(keys.finite()) by {
        plain.lemma_map_finite(some);
    }
}

impl<S: JoinAggregateSpec, K, X> WindowJoinState<S, K, X> {
    /// Number of distinct left-side timestamps.
    pub fn left_bucket_count(&self) -> (r: usize)
        requires
            self.sound(),
        ensures
            r == item_times(self.left_items()).len(),
    {
        match &self.indexes {
            Indexes::CrossProduct { left, right } => {
                proof {
                    lemma_unkeyed_times::<K, S::PL>(left@);
                }
                left.bucket_count()
            },
            Indexes::KeyIndexed { left, right } => {
                let times = left.times();
                proof {
                    lemma_keyed_times(left@);
                    times@.unique_seq_to_set();
                }
                times.len()
            },
        }
    }

    /// Number of distinct right-side timestamps.
    pub fn right_bucket_count(&self) -> (r: usize)
        requires
            self.sound(),
        ensures
            r == item_times(self.right_items()).len(),
    {
        match &self.indexes {
            Indexes::CrossProduct { left, right } => {
                proof {
                    lemma_unkeyed_times::<K, S::PR>(right@);
                }
                right.bucket_count()
            },
            Indexes::KeyIndexed { left, right } => {
                let times = right.times();
                proof {
                    lemma_keyed_times(right@);
                    times@.unique_seq_to_set();
                }
                times.len()
            },
        }
    }
}

impl<S: JoinAggregateSpec, K: Eq + Clone, X> WindowJoinState<S, K, X> {
    /// Number of distinct join keys, of both sides together; 0 without keys.
    pub fn key_count(&self) -> (r: usize)
        requires
            lawful::<K>(),
            self.sound(),
        ensures
            !self.key_mode() ==> r == 0,
            self.key_mode() ==> r == item_keys(self.left_items()).union(item_keys(self.right_items())).len(),
    {
        match &self.indexes {
            Indexes::CrossProduct { left, right } => 0,
            Indexes::KeyIndexed { left, right } => {
                let mut keys = left.join_keys();
                let more = right.join_keys();
                let ghost from_left = key_set(left@);
                let mut i: usize = 0;
                while i < more.len()
                    invariant
                        lawful::<K>(),
                        left.wf(),
                        from_left == key_set(left@),
                        more@.no_duplicates(),
                        i <= more@.len(),
                        keys@.no_duplicates(),
                        forall|k: K| #[trigger]
                            keys@.contains(k) <==> from_left.contains(k) || more@.take(i as int).contains(k),
                    decreases more@.len() - i,
                {
                    let k = &more[i];
                    let ghost before = keys@;
                    let ghost taken = more@.take(i as int);
                    proof {
                        assert(more@.take(i + 1) =~= taken.push(*k));
                        assert(!taken.contains(*k)) by {
                            if taken.contains(*k) {
                                let j = choose|j: int| 0 <= j < taken.len() && taken[j] == *k;
                                assert(more@[j] == more@[i as int]);
                            }
                        }
                    }
                    if left.time_index_for_key(k).is_none() {
                        keys.push(dup(k));
                        proof {
                            assert(!before.contains(*k));
                            assert forall|x: int, y: int| 0 <= x < keys@.len() && 0 <= y < keys@.len() && x
                                != y implies keys@[x] != keys@[y] by {
                                if x < before.len() {
                                    assert(before.contains(keys@[x]));
                                }
                                if y < before.len() {
                                    assert(before.contains(keys@[y]));
                                }
                            }
                        }
                    }
                    proof {
                        broadcast use vstd::seq_lib::group_seq_properties;

                        assert forall|x: K| #[trigger]
                            keys@.contains(x) <==> from_left.contains(x) || more@.take(i + 1).contains(x) by {
                            assert(before.contains(x) <==> from_left.contains(x) || taken.contains(x));
                        }
                    }
                    i += 1;
                }
                proof {
                    assert(more@.take(i as int) =~= more@);
                    lemma_keyed_times(left@);
                    lemma_keyed_times(right@);
                    let both = item_keys(self.left_items()).union(item_keys(self.right_items()));
                    assert forall|k: K| both.contains(Some(k)) <==> keys@.contains(k) by {
                        assert(more@.to_set().contains(k) == key_set(right@).contains(k));
                    }
                    lemma_keys_counted(keys@, both);
                }
                keys.len()
            },
        }
    }
}

/// The right items that join with the left item `l`.
pub open spec fn partners<K, P, Q>(l: (Option<K>, i64, P), b: IntervalBounds) -> spec_fn(
    (Option<K>, i64, Q),
) -> bool {
    matching(l.0, l.1 + b.lower, l.1 + b.upper)
}

/// Sum of the products of `l` with all its partners.
pub open spec fn row<S: JoinAggregateSpec, K>(
    s: &S,
    right: Seq<(Option<K>, i64, S::PR)>,
    b: IntervalBounds,
) -> spec_fn((Option<K>, i64, S::PL)) -> S::V {
    |l: (Option<K>, i64, S::PL)|
        total(
            s.spec_zero(),
            value_plus(s),
            right.filter(partners(l, b)).map_values(item_payload()).map_values(times_right(s, l.2)),
        )
}

/// The aggregate of the join itself: the sum of the products of all pairs
/// with equal keys whose timestamps differ by no less than `lower` and no
/// more than `upper`.
pub open spec fn join_total<S: JoinAggregateSpec, K>(
    s: &S,
    left: Seq<(Option<K>, i64, S::PL)>,
    right: Seq<(Option<K>, i64, S::PR)>,
    b: IntervalBounds,
) -> S::V {
    total(s.spec_zero(), value_plus(s), left.map_values(row(s, right, b)))
}

/// In a ring, a left payload's change is its row.
pub proof fn lemma_left_delta_row<S: JoinAggregateSpec, K>(
    s: &S,
    l: (Option<K>, i64, S::PL),
    right: Seq<(Option<K>, i64, S::PR)>,
    b: IntervalBounds,
    delta: S::V,
)
    requires
        is_ring(s),
        left_delta(s, l.2, matched(right, l.0, l.1 + b.lower, l.1 + b.upper), delta),
    ensures
        delta == row(s, right, b)(l),
{
    let found = matched(right, l.0, l.1 + b.lower, l.1 + b.upper);
    let order = choose|order: Seq<S::PR>| #[trigger]
        order.to_multiset() == found.to_multiset() && delta == s.spec_multiply_left(l.2, right_total(s, order));
    lemma_total_reorder(s.spec_zero_right(), right_plus(s), order, found);
    assert(additive(times_right(s, l.2), s.spec_zero_right(), right_plus(s), s.spec_zero(), value_plus(s)));
    lemma_total_additive(
        times_right(s, l.2),
        s.spec_zero_right(),
        right_plus(s),
        s.spec_zero(),
        value_plus(s),
        found,
    );
}

/// A left item more: its row is added.
proof fn lemma_join_grow_left<S: JoinAggregateSpec, K>(
    s: &S,
    before: Seq<(Option<K>, i64, S::PL)>,
    after: Seq<(Option<K>, i64, S::PL)>,
    l: (Option<K>, i64, S::PL),
    right: Seq<(Option<K>, i64, S::PR)>,
    b: IntervalBounds,
)
    requires
        is_ring(s),
        inserted(before, after, l),
    ensures
        join_total(s, after, right, b) == s.spec_add(join_total(s, before, right, b), row(s, right, b)(l)),
{
    lemma_inserted_map(before, after, l, row(s, right, b));
    lemma_total_inserted(
        s.spec_zero(),
        value_plus(s),
        before.map_values(row(s, right, b)),
        after.map_values(row(s, right, b)),
        row(s, right, b)(l),
    );
}

/// The product with one right item where it is a partner, else zero.
pub open spec fn column_entry<S: JoinAggregateSpec, K>(s: &S, r: (Option<K>, i64, S::PR), b: IntervalBounds) -> spec_fn(
    (Option<K>, i64, S::PL),
) -> S::V {
    |l: (Option<K>, i64, S::PL)|
        if partners::<K, S::PL, S::PR>(l, b)(r) {
            s.spec_multiply_left(l.2, r.2)
        } else {
            s.spec_zero()
        }
}

/// A right item more: each row grows by the item's product where it matches.
proof fn lemma_row_grow<S: JoinAggregateSpec, K>(
    s: &S,
    l: (Option<K>, i64, S::PL),
    before: Seq<(Option<K>, i64, S::PR)>,
    after: Seq<(Option<K>, i64, S::PR)>,
    r: (Option<K>, i64, S::PR),
    b: IntervalBounds,
)
    requires
        is_ring(s),
        inserted(before, after, r),
    ensures
        row(s, after, b)(l) == s.spec_add(row(s, before, b)(l), column_entry(s, r, b)(l)),
{
    let p = partners::<K, S::PL, S::PR>(l, b);
    let pay = item_payload::<K, S::PR>();
    let f = times_right(s, l.2);
    lemma_inserted_filter(before, after, r, p);
    if p(r) {
        lemma_inserted_map(before.filter(p), after.filter(p), r, pay);
        lemma_inserted_map(before.filter(p).map_values(pay), after.filter(p).map_values(pay), r.2, f);
        lemma_total_inserted(
            s.spec_zero(),
            value_plus(s),
            before.filter(p).map_values(pay).map_values(f),
            after.filter(p).map_values(pay).map_values(f),
            f(r.2),
        );
    } else {
        let t = row(s, before, b)(l);
        assert(value_plus(s)(s.spec_zero(), t) == t);
        assert(value_plus(s)(t, s.spec_zero()) == value_plus(s)(s.spec_zero(), t));
    }
}

/// In a ring, a right payload's change is the sum of its column.
pub proof fn lemma_right_delta_column<S: JoinAggregateSpec, K>(
    s: &S,
    left: Seq<(Option<K>, i64, S::PL)>,
    r: (Option<K>, i64, S::PR),
    b: IntervalBounds,
    delta: S::V,
)
    requires
        is_ring(s),
        right_delta(s, r.2, matched(left, r.0, r.1 - b.upper, r.1 - b.lower), delta),
    ensures
        delta == total(s.spec_zero(), value_plus(s), left.map_values(column_entry(s, r, b))),
{
    let found = matched(left, r.0, r.1 - b.upper, r.1 - b.lower);
    let p = matching::<K, S::PL>(r.0, r.1 - b.upper, r.1 - b.lower);
    let pay = item_payload::<K, S::PL>();
    let f = times_left(s, r.2);
    let order = choose|order: Seq<S::PL>| #[trigger]
        order.to_multiset() == found.to_multiset() && delta == s.spec_multiply_right(left_total(s, order), r.2);
    lemma_total_reorder(s.spec_zero_left(), left_plus(s), order, found);
    assert(s.spec_multiply_right(left_total(s, found), r.2) == s.spec_multiply_left(left_total(s, found), r.2));
    assert(additive(f, s.spec_zero_left(), left_plus(s), s.spec_zero(), value_plus(s)));
    lemma_total_additive(f, s.spec_zero_left(), left_plus(s), s.spec_zero(), value_plus(s), found);
    let g = |l: (Option<K>, i64, S::PL)| f(l.2);
    assert(found.map_values(f) =~= left.filter(p).map_values(g));
    lemma_total_filter(s.spec_zero(), value_plus(s), left, p, g, column_entry(s, r, b));
}

proof fn lemma_join_grow_right<S: JoinAggregateSpec, K>(
    s: &S,
    left: Seq<(Option<K>, i64, S::PL)>,
    before: Seq<(Option<K>, i64, S::PR)>,
    after: Seq<(Option<K>, i64, S::PR)>,
    r: (Option<K>, i64, S::PR),
    b: IntervalBounds,
)
    requires
        is_ring(s),
        inserted(before, after, r),
    ensures
        join_total(s, left, after, b) == s.spec_add(
            join_total(s, left, before, b),
            total(s.spec_zero(), value_plus(s), left.map_values(column_entry(s, r, b))),
        ),
{
    assert forall|i: int| 0 <= i < left.len() implies row(s, after, b)(#[trigger] left[i]) == value_plus(s)(
        row(s, before, b)(left[i]),
        column_entry(s, r, b)(left[i]),
    ) by {
        lemma_row_grow(s, left[i], before, after, r, b);
    }
    lemma_total_pointwise(
        s.spec_zero(),
        value_plus(s),
        left,
        row(s, before, b),
        column_entry(s, r, b),
        row(s, after, b),
    );
}

/// The aggregate is that of the join of the payloads held.
pub open spec fn consistent<S: JoinAggregateSpec, K, X>(state: &WindowJoinState<S, K, X>) -> bool {
    state.value() == join_total(&state.ring(), state.left_items(), state.right_items(), state.interval())
}

/// An empty state's aggregate is that of the empty join.
pub proof fn law_empty_is_consistent<S: JoinAggregateSpec, K, X>(state: &WindowJoinState<S, K, X>)
    requires
        state.left_items().len() == 0,
        state.right_items().len() == 0,
        state.value() == state.ring().spec_zero(),
    ensures
        consistent(state),
{
    assert(state.left_items().map_values(row(&state.ring(), state.right_items(), state.interval())) =~= Seq::<
        S::V,
    >::empty());
}

/// Inserting a left element keeps the aggregate that of the join.
pub proof fn law_insert_left<S: JoinAggregateSpec, K, X: JoinKeys<S::L, S::R, K>>(
    before: &WindowJoinState<S, K, X>,
    after: &WindowJoinState<S, K, X>,
    timestamp: i64,
    elem: S::L,
    delta: S::V,
)
    requires
        is_ring(&before.ring()),
        consistent(before),
        after.ring() == before.ring(),
        after.interval() == before.interval(),
        left_inserted(before, after, timestamp, elem, delta),
    ensures
        consistent(after),
{
    let s = before.ring();
    let b = before.interval();
    let p = s.spec_left_payload(elem);
    let key = choose|key: Option<K>|
        #![trigger matched(before.right_items(), key, timestamp + b.lower, timestamp + b.upper)]
        {
            &&& is_left_key(before, elem, key)
            &&& inserted(before.left_items(), after.left_items(), (key, timestamp, p))
            &&& after.right_items() == before.right_items()
            &&& left_delta(
                &s,
                p,
                matched(before.right_items(), key, timestamp + b.lower, timestamp + b.upper),
                delta,
            )
            &&& after.value() == s.spec_add(before.value(), delta)
        };
    let l = (key, timestamp, p);
    lemma_left_delta_row(&s, l, before.right_items(), b, delta);
    lemma_join_grow_left(&s, before.left_items(), after.left_items(), l, before.right_items(), b);
}

/// Inserting a right element keeps the aggregate that of the join.
pub proof fn law_insert_right<S: JoinAggregateSpec, K, X: JoinKeys<S::L, S::R, K>>(
    before: &WindowJoinState<S, K, X>,
    after: &WindowJoinState<S, K, X>,
    timestamp: i64,
    elem: S::R,
    delta: S::V,
)
    requires
        is_ring(&before.ring()),
        consistent(before),
        after.ring() == before.ring(),
        after.interval() == before.interval(),
        right_inserted(before, after, timestamp, elem, delta),
    ensures
        consistent(after),
{
    let s = before.ring();
    let b = before.interval();
    let q = s.spec_right_payload(elem);
    let key = choose|key: Option<K>|
        #![trigger matched(before.left_items(), key, timestamp - b.upper, timestamp - b.lower)]
        {
            &&& is_right_key(before, elem, key)
            &&& inserted(before.right_items(), after.right_items(), (key, timestamp, q))
            &&& after.left_items() == before.left_items()
            &&& right_delta(
                &s,
                q,
                matched(before.left_items(), key, timestamp - b.upper, timestamp - b.lower),
                delta,
            )
            &&& after.value() == s.spec_add(before.value(), delta)
        };
    let r = (key, timestamp, q);
    lemma_right_delta_column(&s, before.left_items(), r, b, delta);
    lemma_join_grow_right(&s, before.left_items(), before.right_items(), after.right_items(), r, b);
}

/// Evicting a held left element keeps the aggregate that of the join.
///
/// `held` says that the element's payload is among the left items under every
/// key that the extractor may give for it.
pub proof fn law_evict_left<S: JoinAggregateSpec, K, X: JoinKeys<S::L, S::R, K>>(
    before: &WindowJoinState<S, K, X>,
    after: &WindowJoinState<S, K, X>,
    timestamp: i64,
    elem: S::L,
    delta: S::V,
)
    requires
        is_ring(&before.ring()),
        consistent(before),
        after.ring() == before.ring(),
        after.interval() == before.interval(),
        left_evicted(before, after, timestamp, elem, delta),
        forall|key: Option<K>| #[trigger]
            is_left_key(before, elem, key) ==> before.left_items().contains(
                (key, timestamp, before.ring().spec_left_payload(elem)),
            ),
    ensures
        consistent(after),
{
    let s = before.ring();
    let b = before.interval();
    let p = s.spec_left_payload(elem);
    let (key, positive) = choose|key: Option<K>, positive: S::V|
        #![trigger is_left_key(before, elem, key), s.spec_negate(positive)]
        {
            &&& is_left_key(before, elem, key)
            &&& taken_out(before.left_items(), after.left_items(), (key, timestamp, p))
            &&& after.right_items() == before.right_items()
            &&& left_delta(
                &s,
                p,
                matched(before.right_items(), key, timestamp + b.lower, timestamp + b.upper),
                positive,
            )
            &&& delta == s.spec_negate(positive)
            &&& after.value() == s.spec_add(before.value(), delta)
        };
    let l = (key, timestamp, p);
    lemma_left_delta_row(&s, l, before.right_items(), b, positive);
    lemma_join_grow_left(&s, after.left_items(), before.left_items(), l, before.right_items(), b);
    let rest = join_total(&s, after.left_items(), after.right_items(), b);
    lemma_cancel(s.spec_zero(), value_plus(&s), value_minus(&s), rest, positive);
    assert(value_plus(&s)(value_plus(&s)(rest, positive), value_minus(&s)(positive)) == rest);
}

/// Evicting a held right element keeps the aggregate that of the join.
pub proof fn law_evict_right<S: JoinAggregateSpec, K, X: JoinKeys<S::L, S::R, K>>(
    before: &WindowJoinState<S, K, X>,
    after: &WindowJoinState<S, K, X>,
    timestamp: i64,
    elem: S::R,
    delta: S::V,
)
    requires
        is_ring(&before.ring()),
        consistent(before),
        after.ring() == before.ring(),
        after.interval() == before.interval(),
        right_evicted(before, after, timestamp, elem, delta),
        forall|key: Option<K>| #[trigger]
            is_right_key(before, elem, key) ==> before.right_items().contains(
                (key, timestamp, before.ring().spec_right_payload(elem)),
            ),
    ensures
        consistent(after),
{
    let s = before.ring();
    let b = before.interval();
    let q = s.spec_right_payload(elem);
    let (key, positive) = choose|key: Option<K>, positive: S::V|
        #![trigger is_right_key(before, elem, key), s.spec_negate(positive)]
        {
            &&& is_right_key(before, elem, key)
            &&& taken_out(before.right_items(), after.right_items(), (key, timestamp, q))
            &&& after.left_items() == before.left_items()
            &&& right_delta(
                &s,
                q,
                matched(before.left_items(), key, timestamp - b.upper, timestamp - b.lower),
                positive,
            )
            &&& delta == s.spec_negate(positive)
            &&& after.value() == s.spec_add(before.value(), delta)
        };
    let r = (key, timestamp, q);
    lemma_right_delta_column(&s, before.left_items(), r, b, positive);
    lemma_join_grow_right(&s, before.left_items(), after.right_items(), before.right_items(), r, b);
    let rest = join_total(&s, after.left_items(), after.right_items(), b);
    lemma_cancel(s.spec_zero(), value_plus(&s), value_minus(&s), rest, positive);
    assert(value_plus(&s)(value_plus(&s)(rest, positive), value_minus(&s)(positive)) == rest);
}

} // verus!
