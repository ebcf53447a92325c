//! Fixed-depth trie of time indexes for composite-key range queries.
//!
//! [`CTrieIndex`] nests one [`TimeIndex`] per composite key. A query names
//! some key positions and leaves the others open; it is answered from every
//! leaf whose key agrees with the named positions.
use vstd::prelude::*;

use crate::listing::{concat, dup, inserted, lawful, same};
use crate::listing::{
    lemma_concat_add, lemma_concat_contains, lemma_concat_filter, lemma_concat_grow,
    lemma_concat_grow_new, lemma_concat_len_ge, lemma_concat_none, lemma_concat_only,
    lemma_concat_shrink, lemma_concat_split, lemma_concat_take, lemma_concat_take_len, lemma_filter_all_or_none,
    lemma_filter_keeps, lemma_filter_member, lemma_inserted_map, lemma_inserted_multiset, lemma_map_filter, lemma_multiset_add,
};
pub use crate::operator::payload_counts::PayloadCounts;
pub use crate::operator::time_index::{RangeResult, TimeIndex, TimeIndexEntry};
use crate::operator::time_index::{entries_wf, entry_items, in_range, out_of_range, payloads};

verus! {

/// A trie node: children by key, and a time index once it is a leaf.
#[derive(Debug)]
pub struct TrieNode<K, P> {
    children: Vec<TrieChild<K, P>>,
    time_index: Option<TimeIndex<P>>,
}

/// A child node under its key.
#[derive(Debug)]
pub struct TrieChild<K, P> {
    key: K,
    node: TrieNode<K, P>,
}

/// Puts a key in front of a listed item's composite key.
pub open spec fn prefixed<K, P>(k: K) -> spec_fn((Seq<K>, i64, P)) -> (Seq<K>, i64, P) {
    |it: (Seq<K>, i64, P)| (seq![k] + it.0, it.1, it.2)
}

/// A listed pair under the empty key.
pub open spec fn unkeyed<K, P>() -> spec_fn((i64, P)) -> (Seq<K>, i64, P) {
    |it: (i64, P)| (Seq::<K>::empty(), it.0, it.1)
}

/// The `(timestamp, payload)` pairs of keyed items.
pub open spec fn pairs<K, P>(items: Seq<(Seq<K>, i64, P)>) -> Seq<(i64, P)> {
    items.map_values(|it: (Seq<K>, i64, P)| (it.1, it.2))
}

/// A composite key agrees with the named positions.
pub open spec fn matches_partial<K>(partial: Seq<Option<K>>, keys: Seq<K>) -> bool {
    &&& keys.len() == partial.len()
    &&& forall|i: int| 0 <= i < partial.len() && (#[trigger] partial[i]) is Some ==> keys[i] == partial[i]->0
}

/// The items that a partial-key range query selects.
pub open spec fn selects<K, P>(partial: Seq<Option<K>>, start: i64, end: i64) -> spec_fn(
    (Seq<K>, i64, P),
) -> bool {
    |it: (Seq<K>, i64, P)| matches_partial(partial, it.0) && start <= it.1 <= end
}

/// The items that a partial-key range query leaves out.
pub open spec fn leaves_out<K, P>(partial: Seq<Option<K>>, start: i64, end: i64) -> spec_fn(
    (Seq<K>, i64, P),
) -> bool {
    |it: (Seq<K>, i64, P)| !(matches_partial(partial, it.0) && start <= it.1 <= end)
}

spec fn node_items<K, P>(n: TrieNode<K, P>, d: nat) -> Seq<(Seq<K>, i64, P)>
    decreases d, 0nat,
{
    if d == 0 {
        match n.time_index {
            Some(ti) => ti@.map_values(unkeyed::<K, P>()),
            None => Seq::empty(),
        }
    } else {
        children_items(n.children@, (d - 1) as nat)
    }
}

spec fn children_items<K, P>(cs: Seq<TrieChild<K, P>>, d: nat) -> Seq<(Seq<K>, i64, P)>
    decreases d, cs.len() + 1,
{
    if cs.len() == 0 {
        Seq::empty()
    } else {
        children_items(cs.drop_last(), d) + node_items(cs.last().node, d).map_values(prefixed(cs.last().key))
    }
}

/// The query leaves no key open.
pub open spec fn all_named<K>(partial: Seq<Option<K>>) -> bool {
    forall|i: int| 0 <= i < partial.len() ==> (#[trigger] partial[i]) is Some
}

spec fn child_items<K, P>(d: nat) -> spec_fn(TrieChild<K, P>) -> Seq<(Seq<K>, i64, P)> {
    |c: TrieChild<K, P>| node_items(c.node, d).map_values(prefixed(c.key))
}

proof fn lemma_children_concat<K, P>(cs: Seq<TrieChild<K, P>>, d: nat)
    ensures
        children_items(cs, d) == concat(cs, child_items(d)),
    decreases cs.len(),
{
    if cs.len() > 0 {
        lemma_children_concat(cs.drop_last(), d);
    }
}

spec fn node_wf<K, P>(n: TrieNode<K, P>, d: nat) -> bool
    decreases d,
{
    if d == 0 {
        n.time_index is Some ==> n.time_index->0.wf()
    } else {
        &&& forall|i: int, j: int|
            0 <= i < j < n.children@.len() ==> (#[trigger] n.children@[i]).key != (#[trigger] n.children@[j]).key
        &&& forall|i: int| 0 <= i < n.children@.len() ==> node_wf((#[trigger] n.children@[i]).node, (d - 1) as nat)
    }
}

/// What a query selects below one child.
proof fn lemma_child_selected<K, P>(
    c: TrieChild<K, P>,
    d: nat,
    partial: Seq<Option<K>>,
    start: i64,
    end: i64,
)
    requires
        partial.len() > 0,
    ensures
        partial[0] is None || partial[0]->0 == c.key ==> {
            &&& child_items(d)(c).filter(selects(partial, start, end)) == node_items(c.node, d).filter(
                selects(partial.skip(1), start, end),
            ).map_values(prefixed(c.key))
            &&& child_items(d)(c).filter(leaves_out(partial, start, end)) == node_items(c.node, d).filter(
                leaves_out(partial.skip(1), start, end),
            ).map_values(prefixed(c.key))
        },
        partial[0] is Some && partial[0]->0 != c.key ==> {
            &&& child_items(d)(c).filter(selects(partial, start, end)) == Seq::<(Seq<K>, i64, P)>::empty()
            &&& child_items(d)(c).filter(leaves_out(partial, start, end)) == child_items(d)(c)
        },
{
    let rest = partial.skip(1);
    let items = node_items(c.node, d);
    let g = prefixed::<K, P>(c.key);
    assert forall|it: (Seq<K>, i64, P)| (partial[0] is None || partial[0]->0 == c.key) implies #[trigger] selects(
        rest,
        start,
        end,
    )(it) == selects(partial, start, end)(g(it)) by {
        lemma_match_step(partial, c.key, it.0);
    }
    assert forall|it: (Seq<K>, i64, P)|
        (partial[0] is None || partial[0]->0 == c.key) implies #[trigger] leaves_out(rest, start, end)(it)
        == leaves_out(partial, start, end)(g(it)) by {
        lemma_match_step(partial, c.key, it.0);
    }
    if partial[0] is None || partial[0]->0 == c.key {
        lemma_map_filter(items, g, selects(partial, start, end), selects(rest, start, end));
        lemma_map_filter(items, g, leaves_out(partial, start, end), leaves_out(rest, start, end));
    } else {
        let listed = items.map_values(g);
        assert forall|k: int| 0 <= k < listed.len() implies !selects(partial, start, end)(#[trigger] listed[k])
            && leaves_out(partial, start, end)(listed[k]) by {
            lemma_match_step(partial, c.key, items[k].0);
        }
        lemma_filter_all_or_none(listed, selects(partial, start, end));
        lemma_filter_all_or_none(listed, leaves_out(partial, start, end));
    }
}

proof fn lemma_match_step<K>(partial: Seq<Option<K>>, k: K, keys: Seq<K>)
    requires
        partial.len() > 0,
    ensures
        matches_partial(partial, seq![k] + keys) <==> (partial[0] is None || partial[0]->0 == k)
            && matches_partial(partial.skip(1), keys),
{
    let rest = partial.skip(1);
    let all = seq![k] + keys;
    if matches_partial(partial, all) {
        assert(partial[0] is Some ==> all[0] == partial[0]->0);
        assert forall|i: int| 0 <= i < rest.len() && (#[trigger] rest[i]) is Some implies keys[i] == rest[i]->0 by {
            assert(partial[i + 1] is Some);
            assert(all[i + 1] == keys[i]);
        }
    }
    if (partial[0] is None || partial[0]->0 == k) && matches_partial(rest, keys) {
        assert forall|i: int| 0 <= i < partial.len() && (#[trigger] partial[i]) is Some implies all[i]
            == partial[i]->0 by {
            if i > 0 {
                assert(rest[i - 1] is Some);
            }
        }
    }
}

/// What a query selects from a leaf.
proof fn lemma_leaf_selected<K, P>(items: Seq<(i64, P)>, start: i64, end: i64)
    ensures
        items.map_values(unkeyed::<K, P>()).filter(selects(Seq::<Option<K>>::empty(), start, end)) == items.filter(
            in_range(start, end),
        ).map_values(unkeyed::<K, P>()),
        items.map_values(unkeyed::<K, P>()).filter(leaves_out(Seq::<Option<K>>::empty(), start, end))
            == items.filter(out_of_range(start, end)).map_values(unkeyed::<K, P>()),
{
    let none = Seq::<Option<K>>::empty();
    lemma_map_filter(items, unkeyed::<K, P>(), selects(none, start, end), in_range(start, end));
    lemma_map_filter(items, unkeyed::<K, P>(), leaves_out(none, start, end), out_of_range(start, end));
}

proof fn lemma_pairs_unkeyed<K, P>(items: Seq<(i64, P)>)
    ensures
        pairs(items.map_values(unkeyed::<K, P>())) == items,
{
    assert(pairs(items.map_values(unkeyed::<K, P>())) =~= items);
}

proof fn lemma_pairs_prefixed<K, P>(items: Seq<(Seq<K>, i64, P)>, k: K)
    ensures
        pairs(items.map_values(prefixed(k))) == pairs(items),
{
    assert(pairs(items.map_values(prefixed(k))) =~= pairs(items));
}

proof fn lemma_pairs_add<K, P>(a: Seq<(Seq<K>, i64, P)>, b: Seq<(Seq<K>, i64, P)>)
    ensures
        pairs(a + b) == pairs(a) + pairs(b),
{
    assert(pairs(a + b) =~= pairs(a) + pairs(b));
}

/// Fixed-depth trie indexing payloads under composite keys.
///
/// Its view lists every indexed payload with its composite key and timestamp.
#[derive(Debug)]
pub struct CTrieIndex<K, P> {
    root: TrieNode<K, P>,
    key_count: usize,
    total_count: u64,
}

impl<K, P> View for CTrieIndex<K, P> {
    type V = Seq<(Seq<K>, i64, P)>;

    closed spec fn view(&self) -> Seq<(Seq<K>, i64, P)> {
        node_items(self.root, self.key_count as nat)
    }
}

impl<K, P> CTrieIndex<K, P> {
    pub closed spec fn wf(&self) -> bool {
        &&& self.key_count > 0
        &&& node_wf(self.root, self.key_count as nat)
        &&& self.total_count == self@.len()
    }

    /// Composite-key depth.
    pub closed spec fn depth(&self) -> nat {
        self.key_count as nat
    }

    /// Creates an index with the given composite-key depth.
    pub fn new(key_count: usize) -> (r: Self)
        requires
            key_count > 0,
        ensures
            r.wf(),
            r.depth() == key_count,
            r@ == Seq::<(Seq<K>, i64, P)>::empty(),
    {
        let root = TrieNode { children: Vec::new(), time_index: None };
        CTrieIndex { root, key_count, total_count: 0 }
    }

    /// Total payload occurrences across the whole trie.
    pub fn total_count(&self) -> (r: u64)
        requires
            self.wf(),
        ensures
            r == self@.len(),
    {
        self.total_count
    }

    /// Composite-key depth of this trie.
    pub fn key_count(&self) -> (r: usize)
        ensures
            r == self.depth(),
    {
        self.key_count
    }

    /// Clears every child and every leaf.
    pub fn clear(&mut self)
        requires
            old(self).wf(),
        ensures
            final(self).wf(),
            final(self).depth() == old(self).depth(),
            final(self)@ == Seq::<(Seq<K>, i64, P)>::empty(),
    {
        self.root.children.clear();
        self.root.time_index = None;
        self.total_count = 0;
    }
}

impl<K: Eq + Clone, P: Eq + Clone> TrieNode<K, P> {
    fn position(&self, k: &K) -> (r: Option<usize>)
        requires
            lawful::<K>(),
        ensures
            match r {
                Some(i) => i < self.children@.len() && self.children@[i as int].key == *k,
                None => forall|i: int| 0 <= i < self.children@.len() ==> (#[trigger] self.children@[i]).key != *k,
            },
    {
        let mut i: usize = 0;
        while i < self.children.len()
            invariant
                lawful::<K>(),
                i <= self.children@.len(),
                forall|j: int| 0 <= j < i ==> (#[trigger] self.children@[j]).key != *k,
            decreases self.children@.len() - i,
        {
            if same(&self.children[i].key, k) {
                return Some(i);
            }
            i += 1;
        }
        None
    }

    fn insert_at(&mut self, keys: &[K], depth: usize, timestamp: i64, payload: P)
        requires
            lawful::<K>(),
            lawful::<P>(),
            depth <= keys@.len(),
            node_wf(*old(self), (keys@.len() - depth) as nat),
            node_items(*old(self), (keys@.len() - depth) as nat).len() < u64::MAX,
        ensures
            node_wf(*final(self), (keys@.len() - depth) as nat),
            inserted(
                node_items(*old(self), (keys@.len() - depth) as nat),
                node_items(*final(self), (keys@.len() - depth) as nat),
                (keys@.skip(depth as int), timestamp, payload),
            ),
        decreases keys@.len() - depth,
    {
        let ghost d = (keys@.len() - depth) as nat;
        let ghost x = (keys@.skip(depth as int), timestamp, payload);
        if depth == keys.len() {
            if self.time_index.is_none() {
                self.time_index = Some(TimeIndex::new());
            }
            let ghost before = self.time_index->0@;
            assert(before.map_values(unkeyed::<K, P>()) =~= node_items(*old(self), d));
            if let Some(ti) = &mut self.time_index {
                ti.insert(timestamp, payload);
            }
            proof {
                lemma_inserted_map(before, self.time_index->0@, (timestamp, payload), unkeyed::<K, P>());
                assert(keys@.skip(depth as int) =~= Seq::<K>::empty());
            }
            return;
        }
        let ghost f = child_items::<K, P>((d - 1) as nat);
        let ghost cs = self.children@;
        proof {
            lemma_children_concat(cs, (d - 1) as nat);
            assert(keys@.skip(depth as int) =~= seq![keys@[depth as int]] + keys@.skip(depth + 1));
        }
        match self.position(&keys[depth]) {
            Some(i) => {
                proof {
                    assert(node_wf(cs[i as int].node, (d - 1) as nat));
                    lemma_concat_len_ge(cs, i as int, f);
                }
                self.children[i].node.insert_at(keys, depth + 1, timestamp, payload);
                proof {
                    let c = self.children@[i as int];
                    assert(self.children@ =~= cs.update(i as int, c));
                    lemma_inserted_map(
                        node_items(cs[i as int].node, (d - 1) as nat),
                        node_items(c.node, (d - 1) as nat),
                        (keys@.skip(depth + 1), timestamp, payload),
                        prefixed(c.key),
                    );
                    lemma_concat_grow(cs, i as int, c, f, x);
                    lemma_children_concat(self.children@, (d - 1) as nat);
                    lemma_wf_update(cs, self.children@, i as int, (d - 1) as nat);
                }
            },
            None => {
                let mut node: TrieNode<K, P> = TrieNode { children: Vec::new(), time_index: None };
                let ghost fresh = node;
                assert(node_items(fresh, (d - 1) as nat) =~= Seq::<(Seq<K>, i64, P)>::empty());
                node.insert_at(keys, depth + 1, timestamp, payload);
                let child = TrieChild { key: dup(&keys[depth]), node };
                self.children.push(child);
                proof {
                    let y = (keys@.skip(depth + 1), timestamp, payload);
                    assert(node_items(node, (d - 1) as nat) =~= seq![y]);
                    assert(f(child) =~= seq![x]);
                    assert(self.children@ =~= cs.insert(cs.len() as int, child));
                    lemma_concat_grow_new(cs, cs.len() as int, child, f, x);
                    lemma_children_concat(self.children@, (d - 1) as nat);
                }
            },
        }
    }

    fn delete_at(&mut self, keys: &[K], depth: usize, timestamp: i64, payload: &P) -> (r: bool)
        requires
            lawful::<K>(),
            lawful::<P>(),
            depth <= keys@.len(),
            node_wf(*old(self), (keys@.len() - depth) as nat),
        ensures
            node_wf(*final(self), (keys@.len() - depth) as nat),
            r == node_items(*old(self), (keys@.len() - depth) as nat).contains(
                (keys@.skip(depth as int), timestamp, *payload),
            ),
            r ==> inserted(
                node_items(*final(self), (keys@.len() - depth) as nat),
                node_items(*old(self), (keys@.len() - depth) as nat),
                (keys@.skip(depth as int), timestamp, *payload),
            ),
            !r ==> node_items(*final(self), (keys@.len() - depth) as nat) == node_items(
                *old(self),
                (keys@.len() - depth) as nat,
            ),
        decreases keys@.len() - depth,
    {
        let ghost d = (keys@.len() - depth) as nat;
        let ghost x = (keys@.skip(depth as int), timestamp, *payload);
        if depth == keys.len() {
            assert(keys@.skip(depth as int) =~= Seq::<K>::empty());
            let mut r = false;
            if let Some(ti) = &mut self.time_index {
                let ghost before = ti@;
                r = ti.evict(timestamp, payload);
                proof {
                    lemma_unkeyed_contains::<K, P>(before, timestamp, *payload);
                    if r {
                        lemma_inserted_map(ti@, before, (timestamp, *payload), unkeyed::<K, P>());
                    }
                }
            }
            return r;
        }
        let ghost f = child_items::<K, P>((d - 1) as nat);
        let ghost cs = self.children@;
        proof {
            lemma_children_concat(cs, (d - 1) as nat);
            assert(keys@.skip(depth as int) =~= seq![keys@[depth as int]] + keys@.skip(depth + 1));
            lemma_concat_contains(cs, f, x);
            lemma_child_contains(cs, (d - 1) as nat, keys@[depth as int], keys@.skip(depth + 1), timestamp, *payload);
        }
        match self.position(&keys[depth]) {
            Some(i) => {
                proof {
                    assert(node_wf(cs[i as int].node, (d - 1) as nat));
                }
                let r = self.children[i].node.delete_at(keys, depth + 1, timestamp, payload);
                proof {
                    let c = self.children@[i as int];
                    assert(self.children@ =~= cs.update(i as int, c));
                    lemma_children_concat(self.children@, (d - 1) as nat);
                    lemma_wf_update(cs, self.children@, i as int, (d - 1) as nat);
                    if r {
                        lemma_inserted_map(
                            node_items(c.node, (d - 1) as nat),
                            node_items(cs[i as int].node, (d - 1) as nat),
                            (keys@.skip(depth + 1), timestamp, *payload),
                            prefixed(c.key),
                        );
                        lemma_concat_shrink(cs, i as int, c, f, x);
                    } else {
                        lemma_concat_split(cs, i as int, f);
                        crate::listing::lemma_concat_update(cs, i as int, c, f);
                    }
                    if exists|j: int| 0 <= j < cs.len() && f(#[trigger] cs[j]).contains(x) {
                        let j = choose|j: int| 0 <= j < cs.len() && f(#[trigger] cs[j]).contains(x);
                        assert(cs[j].key == cs[i as int].key);
                        assert(j == i);
                    }
                    if r {
                        assert(f(cs[i as int]).contains(x));
                    }
                }
                r
            },
            None => false,
        }
    }
}

/// A leaf pair is listed under the empty key.
proof fn lemma_unkeyed_contains<K, P>(items: Seq<(i64, P)>, timestamp: i64, payload: P)
    ensures
        items.map_values(unkeyed::<K, P>()).contains((Seq::<K>::empty(), timestamp, payload)) == items.contains(
            (timestamp, payload),
        ),
{
    let l = items.map_values(unkeyed::<K, P>());
    let x = (Seq::<K>::empty(), timestamp, payload);
    if l.contains(x) {
        let k = choose|k: int| 0 <= k < l.len() && l[k] == x;
        assert(items[k] == (timestamp, payload));
    }
    if items.contains((timestamp, payload)) {
        let k = choose|k: int| 0 <= k < items.len() && items[k] == (timestamp, payload);
        assert(l[k] == x);
    }
}

/// An item is listed below a child only under the child's key.
proof fn lemma_child_contains<K, P>(
    cs: Seq<TrieChild<K, P>>,
    d: nat,
    k: K,
    rest: Seq<K>,
    timestamp: i64,
    payload: P,
)
    ensures
        forall|i: int|
            0 <= i < cs.len() ==> (child_items(d)(#[trigger] cs[i]).contains((seq![k] + rest, timestamp, payload))
                <==> cs[i].key == k && node_items(cs[i].node, d).contains((rest, timestamp, payload))),
{
    let x = (seq![k] + rest, timestamp, payload);
    assert forall|i: int| 0 <= i < cs.len() implies (child_items(d)(#[trigger] cs[i]).contains(x) <==> cs[i].key == k
        && node_items(cs[i].node, d).contains((rest, timestamp, payload))) by {
        let items = node_items(cs[i].node, d);
        let l = child_items(d)(cs[i]);
        if l.contains(x) {
            let q = choose|q: int| 0 <= q < l.len() && l[q] == x;
            assert(l[q].0 == seq![cs[i].key] + items[q].0);
            assert((seq![cs[i].key] + items[q].0)[0] == (seq![k] + rest)[0]);
            assert(items[q].0 =~= rest) by {
                assert((seq![k] + rest).skip(1) =~= rest);
                assert((seq![cs[i].key] + items[q].0).skip(1) =~= items[q].0);
            }
            assert(items[q] == (rest, timestamp, payload));
        }
        if cs[i].key == k && items.contains((rest, timestamp, payload)) {
            let q = choose|q: int| 0 <= q < items.len() && items[q] == (rest, timestamp, payload);
            assert(l[q] == x);
        }
    }
}

proof fn lemma_wf_update<K, P>(before: Seq<TrieChild<K, P>>, after: Seq<TrieChild<K, P>>, i: int, d: nat)
    requires
        0 <= i < before.len(),
        after == before.update(i, after[i]),
        after[i].key == before[i].key,
        node_wf(after[i].node, d),
        forall|x: int, y: int| 0 <= x < y < before.len() ==> (#[trigger] before[x]).key != (#[trigger] before[y]).key,
        forall|x: int| 0 <= x < before.len() ==> node_wf((#[trigger] before[x]).node, d),
    ensures
        forall|x: int, y: int| 0 <= x < y < after.len() ==> (#[trigger] after[x]).key != (#[trigger] after[y]).key,
        forall|x: int| 0 <= x < after.len() ==> node_wf((#[trigger] after[x]).node, d),
{
    assert forall|x: int, y: int| 0 <= x < y < after.len() implies (#[trigger] after[x]).key != (
    #[trigger] after[y]).key by {
        assert(before[x].key != before[y].key);
    }
    assert forall|x: int| 0 <= x < after.len() implies node_wf((#[trigger] after[x]).node, d) by {
        assert(node_wf(before[x].node, d));
    }
}

/// What a query selects from the children's listings, one child after the other.
spec fn child_selected<K, P>(d: nat, partial: Seq<Option<K>>, start: i64, end: i64) -> spec_fn(
    TrieChild<K, P>,
) -> Seq<(Seq<K>, i64, P)> {
    |c: TrieChild<K, P>| child_items(d)(c).filter(selects(partial, start, end))
}

proof fn lemma_children_selected<K, P>(
    cs: Seq<TrieChild<K, P>>,
    d: nat,
    partial: Seq<Option<K>>,
    start: i64,
    end: i64,
)
    ensures
        children_items(cs, d).filter(selects(partial, start, end)) == concat(
            cs,
            child_selected(d, partial, start, end),
        ),
{
    lemma_children_concat(cs, d);
    lemma_concat_filter(
        cs,
        child_items(d),
        child_selected(d, partial, start, end),
        selects(partial, start, end),
    );
}

/// A named key selects from its own child alone.
proof fn lemma_named_key<K, P>(
    cs: Seq<TrieChild<K, P>>,
    found: Option<int>,
    d: nat,
    partial: Seq<Option<K>>,
    start: i64,
    end: i64,
)
    requires
        partial.len() > 0,
        partial[0] is Some,
        forall|x: int, y: int| 0 <= x < y < cs.len() ==> (#[trigger] cs[x]).key != (#[trigger] cs[y]).key,
        match found {
            Some(i) => 0 <= i < cs.len() && cs[i].key == partial[0]->0,
            None => forall|i: int| 0 <= i < cs.len() ==> (#[trigger] cs[i]).key != partial[0]->0,
        },
    ensures
        pairs(children_items(cs, d).filter(selects(partial, start, end))) == match found {
            Some(i) => pairs(node_items(cs[i].node, d).filter(selects(partial.skip(1), start, end))),
            None => Seq::<(i64, P)>::empty(),
        },
        children_items(cs, d).filter(selects(partial, start, end)).len() == match found {
            Some(i) => node_items(cs[i].node, d).filter(selects(partial.skip(1), start, end)).len(),
            None => 0,
        },
{
    lemma_children_selected(cs, d, partial, start, end);
    let f = child_selected::<K, P>(d, partial, start, end);
    assert forall|j: int| 0 <= j < cs.len() && (found is None || j != found->0) implies f(
        #[trigger] cs[j],
    ).len() == 0 by {
        if found is Some {
            if j < found->0 {
                assert(cs[j].key != cs[found->0].key);
            } else {
                assert(cs[found->0].key != cs[j].key);
            }
        }
        lemma_child_selected(cs[j], d, partial, start, end);
    }
    match found {
        Some(i) => {
            lemma_concat_only(cs, i, f);
            lemma_child_selected(cs[i], d, partial, start, end);
            lemma_pairs_prefixed(
                node_items(cs[i].node, d).filter(selects(partial.skip(1), start, end)),
                cs[i].key,
            );
        },
        None => {
            lemma_concat_none(cs, f);
            assert(pairs(concat(cs, f)) =~= Seq::<(i64, P)>::empty());
        },
    }
}

/// An open position selects from every child.
proof fn lemma_open_key<K, P>(
    cs: Seq<TrieChild<K, P>>,
    i: int,
    d: nat,
    partial: Seq<Option<K>>,
    start: i64,
    end: i64,
)
    requires
        partial.len() > 0,
        partial[0] is None,
        0 <= i < cs.len(),
    ensures
        pairs(concat(cs.take(i + 1), child_selected(d, partial, start, end))) == pairs(
            concat(cs.take(i), child_selected(d, partial, start, end)),
        ) + pairs(node_items(cs[i].node, d).filter(selects(partial.skip(1), start, end))),
        concat(cs.take(i + 1), child_selected(d, partial, start, end)).len() == concat(
            cs.take(i),
            child_selected(d, partial, start, end),
        ).len() + node_items(cs[i].node, d).filter(selects(partial.skip(1), start, end)).len(),
        concat(cs.take(i + 1), child_selected(d, partial, start, end)).len() <= children_items(cs, d).len(),
{
    let f = child_selected::<K, P>(d, partial, start, end);
    lemma_concat_take(cs, i, f);
    lemma_concat_take_len(cs, i + 1, f);
    lemma_child_selected(cs[i], d, partial, start, end);
    let found = node_items(cs[i].node, d).filter(selects(partial.skip(1), start, end));
    lemma_pairs_prefixed(found, cs[i].key);
    lemma_pairs_add(concat(cs.take(i), f), f(cs[i]));
    lemma_children_selected(cs, d, partial, start, end);
    children_items(cs, d).lemma_filter_len(selects(partial, start, end));
}

proof fn lemma_payloads_plus<P>(a: Seq<(i64, P)>, b: Seq<(i64, P)>)
    ensures
        payloads(a + b).len() == a.len() + b.len(),
        payloads(a + b).to_multiset() == payloads(a).to_multiset().add(payloads(b).to_multiset()),
{
    assert(payloads(a + b) =~= payloads(a) + payloads(b));
    lemma_multiset_add(payloads(a), payloads(b));
}

impl<K: Eq + Clone, P: Eq + Clone> TrieNode<K, P> {
    fn query_range_recursive(&self, partial: &[Option<K>], depth: usize, start: i64, end: i64) -> (r: RangeResult<P>)
        requires
            lawful::<K>(),
            lawful::<P>(),
            depth <= partial@.len(),
            node_wf(*self, (partial@.len() - depth) as nat),
            node_items(*self, (partial@.len() - depth) as nat).len() <= u64::MAX,
        ensures
            r.describes(
                payloads(
                    pairs(
                        node_items(*self, (partial@.len() - depth) as nat).filter(
                            selects(partial@.skip(depth as int), start, end),
                        ),
                    ),
                ),
            ),
        decreases partial@.len() - depth, 1nat,
    {
        let ghost d = (partial@.len() - depth) as nat;
        let ghost rest = partial@.skip(depth as int);
        if depth == partial.len() {
            assert(rest =~= Seq::<Option<K>>::empty());
            return match &self.time_index {
                Some(ti) => {
                    proof {
                        lemma_leaf_selected::<K, P>(ti@, start, end);
                        lemma_pairs_unkeyed::<K, P>(ti@.filter(in_range(start, end)));
                    }
                    ti.query_range(start, end)
                },
                None => {
                    proof {
                        let none = Seq::<(Seq<K>, i64, P)>::empty();
                        lemma_filter_all_or_none(none, selects(rest, start, end));
                        assert(payloads(pairs(none)) =~= Seq::<P>::empty());
                    }
                    RangeResult::empty()
                },
            };
        }
        let ghost cs = self.children@;
        assert(rest.skip(1) =~= partial@.skip(depth + 1));
        match &partial[depth] {
            None => self.query_children(partial, depth, start, end),
            Some(k) => match self.position(k) {
                Some(i) => {
                    proof {
                        lemma_named_key(cs, Some(i as int), (d - 1) as nat, rest, start, end);
                        assert(node_wf(cs[i as int].node, (d - 1) as nat));
                        lemma_children_concat(cs, (d - 1) as nat);
                        lemma_concat_len_ge(cs, i as int, child_items((d - 1) as nat));
                    }
                    self.children[i].node.query_range_recursive(partial, depth + 1, start, end)
                },
                None => {
                    proof {
                        lemma_named_key(cs, None, (d - 1) as nat, rest, start, end);
                        assert(payloads(Seq::<(i64, P)>::empty()) =~= Seq::<P>::empty());
                    }
                    RangeResult::empty()
                },
            },
        }
    }

    /// Aggregates across all children: the key position is open.
    fn query_children(&self, partial: &[Option<K>], depth: usize, start: i64, end: i64) -> (r: RangeResult<P>)
        requires
            lawful::<K>(),
            lawful::<P>(),
            depth < partial@.len(),
            partial@[depth as int] is None,
            node_wf(*self, (partial@.len() - depth) as nat),
            node_items(*self, (partial@.len() - depth) as nat).len() <= u64::MAX,
        ensures
            r.describes(
                payloads(
                    pairs(
                        node_items(*self, (partial@.len() - depth) as nat).filter(
                            selects(partial@.skip(depth as int), start, end),
                        ),
                    ),
                ),
            ),
        decreases partial@.len() - depth, 0nat,
    {
        let ghost d = (partial@.len() - depth) as nat;
        let ghost rest = partial@.skip(depth as int);
        let ghost cs = self.children@;
        let ghost f = child_selected::<K, P>((d - 1) as nat, rest, start, end);
        let levels: usize = partial.len();
        assert(levels == partial@.len());
        let mut total: u64 = 0;
        let mut agg: PayloadCounts<P> = PayloadCounts::new();
        let mut i: usize = 0;
        proof {
            assert(rest.skip(1) =~= partial@.skip(depth + 1));
            assert(payloads(pairs(concat(cs.take(0), f))) =~= Seq::<P>::empty());
        }
        while i < self.children.len()
            invariant
                lawful::<K>(),
                lawful::<P>(),
                depth < partial@.len() <= usize::MAX,
                d == partial@.len() - depth,
                rest == partial@.skip(depth as int),
                rest[0] is None,
                rest.skip(1) == partial@.skip(depth + 1),
                node_wf(*self, d),
                node_items(*self, d).len() <= u64::MAX,
                cs == self.children@,
                f == child_selected::<K, P>((d - 1) as nat, rest, start, end),
                i <= cs.len(),
                agg.wf(),
                agg.items().len() == total,
                total == concat(cs.take(i as int), f).len(),
                agg.items().to_multiset() == payloads(pairs(concat(cs.take(i as int), f))).to_multiset(),
            decreases cs.len() - i,
        {
            proof {
                lemma_open_key(cs, i as int, (d - 1) as nat, rest, start, end);
                assert(node_wf(cs[i as int].node, (d - 1) as nat));
                lemma_children_concat(cs, (d - 1) as nat);
                lemma_concat_len_ge(cs, i as int, child_items((d - 1) as nat));
                lemma_payloads_plus(
                    pairs(concat(cs.take(i as int), f)),
                    pairs(node_items(cs[i as int].node, (d - 1) as nat).filter(selects(rest.skip(1), start, end))),
                );
            }
            let sub = self.children[i].node.query_range_recursive(partial, depth + 1, start, end);
            total = total + sub.total_count;
            agg.merge(&sub.payload_counts);
            i += 1;
        }
        proof {
            assert(cs.take(i as int) =~= cs);
            lemma_children_selected(cs, (d - 1) as nat, rest, start, end);
        }
        RangeResult::new(total, agg)
    }

    fn query_range_entries_recursive(
        &self,
        partial: &[Option<K>],
        depth: usize,
        start: i64,
        end: i64,
        out: &mut Vec<TimeIndexEntry<P>>,
    )
        requires
            lawful::<K>(),
            lawful::<P>(),
            depth <= partial@.len(),
            node_wf(*self, (partial@.len() - depth) as nat),
            forall|i: int| 0 <= i < old(out)@.len() ==> (#[trigger] old(out)@[i]).count > 0,
            forall|i: int| 0 <= i < old(out)@.len() ==> start <= (#[trigger] old(out)@[i]).timestamp <= end,
        ensures
            concat(final(out)@, entry_items()) == concat(old(out)@, entry_items()) + pairs(
                node_items(*self, (partial@.len() - depth) as nat).filter(
                    selects(partial@.skip(depth as int), start, end),
                ),
            ),
            forall|i: int| 0 <= i < final(out)@.len() ==> (#[trigger] final(out)@[i]).count > 0,
            forall|i: int| 0 <= i < final(out)@.len() ==> start <= (#[trigger] final(out)@[i]).timestamp <= end,
            old(out)@.len() == 0 && all_named(partial@.skip(depth as int)) ==> entries_wf(final(out)@),
        decreases partial@.len() - depth,
    {
        let ghost d = (partial@.len() - depth) as nat;
        let ghost rest = partial@.skip(depth as int);
        let ghost before = out@;
        if depth == partial.len() {
            assert(rest =~= Seq::<Option<K>>::empty());
            if let Some(ti) = &self.time_index {
                proof {
                    lemma_leaf_selected::<K, P>(ti@, start, end);
                    lemma_pairs_unkeyed::<K, P>(ti@.filter(in_range(start, end)));
                }
                let mut found = ti.query_range_entries(start, end);
                let ghost fs = found@;
                out.append(&mut found);
                proof {
                    lemma_concat_add(before, fs, entry_items());
                    if before.len() == 0 {
                        assert(out@ =~= fs);
                    }
                }
            } else {
                proof {
                    let none = Seq::<(Seq<K>, i64, P)>::empty();
                    lemma_filter_all_or_none(none, selects(rest, start, end));
                    assert(concat(before, entry_items()) + pairs(none) =~= concat(before, entry_items()));
                }
            }
            return;
        }
        let ghost cs = self.children@;
        proof {
            assert(rest.skip(1) =~= partial@.skip(depth + 1));
            assert(rest[0] == partial@[depth as int]);
            if all_named(rest) {
                assert forall|i: int| 0 <= i < rest.skip(1).len() implies (#[trigger] rest.skip(1)[i]) is Some by {
                    assert(rest[i + 1] is Some);
                }
            }
        }
        match &partial[depth] {
            None => {
                let ghost f = child_selected::<K, P>((d - 1) as nat, rest, start, end);
                let ghost base = concat(before, entry_items());
                let mut i: usize = 0;
                assert(base + pairs(concat(cs.take(0), f)) =~= base);
                while i < self.children.len()
                    invariant
                        lawful::<K>(),
                        lawful::<P>(),
                        depth < partial@.len() <= usize::MAX,
                        d == partial@.len() - depth,
                        rest == partial@.skip(depth as int),
                        rest[0] is None,
                        rest.skip(1) == partial@.skip(depth + 1),
                        node_wf(*self, d),
                        cs == self.children@,
                        f == child_selected::<K, P>((d - 1) as nat, rest, start, end),
                        i <= cs.len(),
                        concat(out@, entry_items()) == base + pairs(concat(cs.take(i as int), f)),
                        forall|j: int| 0 <= j < out@.len() ==> (#[trigger] out@[j]).count > 0,
                        forall|j: int| 0 <= j < out@.len() ==> start <= (#[trigger] out@[j]).timestamp <= end,
                    decreases cs.len() - i,
                {
                    proof {
                        lemma_open_key(cs, i as int, (d - 1) as nat, rest, start, end);
                        assert(node_wf(cs[i as int].node, (d - 1) as nat));
                    }
                    self.children[i].node.query_range_entries_recursive(partial, depth + 1, start, end, out);
                    proof {
                        let a = pairs(concat(cs.take(i as int), f));
                        let b = pairs(
                            node_items(cs[i as int].node, (d - 1) as nat).filter(selects(rest.skip(1), start, end)),
                        );
                        assert(base + a + b =~= base + (a + b));
                    }
                    i += 1;
                }
                proof {
                    assert(cs.take(i as int) =~= cs);
                    lemma_children_selected(cs, (d - 1) as nat, rest, start, end);
                }
            },
            Some(k) => match self.position(k) {
                Some(i) => {
                    proof {
                        lemma_named_key(cs, Some(i as int), (d - 1) as nat, rest, start, end);
                        assert(node_wf(cs[i as int].node, (d - 1) as nat));
                    }
                    self.children[i].node.query_range_entries_recursive(partial, depth + 1, start, end, out)
                },
                None => {
                    proof {
                        lemma_named_key(cs, None, (d - 1) as nat, rest, start, end);
                        assert(concat(before, entry_items()) + Seq::<(i64, P)>::empty() =~= concat(
                            before,
                            entry_items(),
                        ));
                    }
                },
            },
        }
    }
}

/// What a deletion keeps of the children's listings.
spec fn child_kept<K, P>(d: nat, partial: Seq<Option<K>>, start: i64, end: i64) -> spec_fn(
    TrieChild<K, P>,
) -> Seq<(Seq<K>, i64, P)> {
    |c: TrieChild<K, P>| child_items(d)(c).filter(leaves_out(partial, start, end))
}

proof fn lemma_children_kept<K, P>(
    cs: Seq<TrieChild<K, P>>,
    d: nat,
    partial: Seq<Option<K>>,
    start: i64,
    end: i64,
)
    ensures
        children_items(cs, d).filter(leaves_out(partial, start, end)) == concat(
            cs,
            child_kept(d, partial, start, end),
        ),
{
    lemma_children_concat(cs, d);
    lemma_concat_filter(
        cs,
        child_items(d),
        child_kept(d, partial, start, end),
        leaves_out(partial, start, end),
    );
}

/// Two sequences of the same length whose elements list the same.
proof fn lemma_concat_pointwise<A, B>(s: Seq<A>, f: spec_fn(A) -> Seq<B>, t: Seq<A>, g: spec_fn(A) -> Seq<B>)
    requires
        s.len() == t.len(),
        forall|i: int| 0 <= i < s.len() ==> f(#[trigger] s[i]) == g(t[i]),
    ensures
        concat(s, f) == concat(t, g),
    decreases s.len(),
{
    if s.len() > 0 {
        let s2 = s.drop_last();
        let t2 = t.drop_last();
        assert forall|i: int| 0 <= i < s2.len() implies f(#[trigger] s2[i]) == g(t2[i]) by {
            assert(f(s[i]) == g(t[i]));
        }
        lemma_concat_pointwise(s2, f, t2, g);
        assert(f(s[s.len() - 1]) == g(t[t.len() - 1]));
    }
}

impl<K: Eq + Clone, P: Eq + Clone> TrieNode<K, P> {
    fn delete_range_recursive(&mut self, partial: &[Option<K>], depth: usize, start: i64, end: i64) -> (r: u64)
        requires
            lawful::<K>(),
            lawful::<P>(),
            depth <= partial@.len(),
            node_wf(*old(self), (partial@.len() - depth) as nat),
            node_items(*old(self), (partial@.len() - depth) as nat).len() <= u64::MAX,
        ensures
            node_wf(*final(self), (partial@.len() - depth) as nat),
            node_items(*final(self), (partial@.len() - depth) as nat) == node_items(
                *old(self),
                (partial@.len() - depth) as nat,
            ).filter(leaves_out(partial@.skip(depth as int), start, end)),
            r == node_items(*old(self), (partial@.len() - depth) as nat).filter(
                selects(partial@.skip(depth as int), start, end),
            ).len(),
        decreases partial@.len() - depth,
    {
        let ghost d = (partial@.len() - depth) as nat;
        let ghost rest = partial@.skip(depth as int);
        if depth == partial.len() {
            assert(rest =~= Seq::<Option<K>>::empty());
            let mut r: u64 = 0;
            proof {
                let none = Seq::<(Seq<K>, i64, P)>::empty();
                lemma_filter_all_or_none(none, selects(rest, start, end));
                lemma_filter_all_or_none(none, leaves_out(rest, start, end));
            }
            if let Some(ti) = &mut self.time_index {
                proof {
                    lemma_leaf_selected::<K, P>(ti@, start, end);
                }
                r = ti.delete_range(start, end).total_count;
            }
            return r;
        }
        let ghost cs = self.children@;
        let ghost f = child_items::<K, P>((d - 1) as nat);
        let ghost g = child_kept::<K, P>((d - 1) as nat, rest, start, end);
        assert(rest.skip(1) =~= partial@.skip(depth + 1));
        proof {
            lemma_children_kept(cs, (d - 1) as nat, rest, start, end);
            lemma_children_concat(cs, (d - 1) as nat);
        }
        match &partial[depth] {
            None => {
                let ghost sel = child_selected::<K, P>((d - 1) as nat, rest, start, end);
                let mut total: u64 = 0;
                let mut i: usize = 0;
                while i < self.children.len()
                    invariant
                        lawful::<K>(),
                        lawful::<P>(),
                        depth < partial@.len() <= usize::MAX,
                        d == partial@.len() - depth,
                        rest == partial@.skip(depth as int),
                        rest[0] is None,
                        rest.skip(1) == partial@.skip(depth + 1),
                        cs.len() == self.children@.len(),
                        f == child_items::<K, P>((d - 1) as nat),
                        g == child_kept::<K, P>((d - 1) as nat, rest, start, end),
                        sel == child_selected::<K, P>((d - 1) as nat, rest, start, end),
                        i <= cs.len(),
                        total == concat(cs.take(i as int), sel).len(),
                        children_items(cs, (d - 1) as nat).len() <= u64::MAX,
                        children_items(cs, (d - 1) as nat) == concat(cs, f),
                        node_wf(*self, d),
                        forall|j: int| i <= j < cs.len() ==> (#[trigger] self.children@[j]) == cs[j],
                        forall|j: int| 0 <= j < i ==> f(#[trigger] self.children@[j]) == g(cs[j]),
                    decreases cs.len() - i,
                {
                    let ghost mid = self.children@;
                    proof {
                        assert(mid[i as int] == cs[i as int]);
                        lemma_open_key(cs, i as int, (d - 1) as nat, rest, start, end);
                        lemma_child_selected(cs[i as int], (d - 1) as nat, rest, start, end);
                        assert(node_wf(mid[i as int].node, (d - 1) as nat));
                        lemma_concat_len_ge(cs, i as int, f);
                    }
                    let n = self.children[i].node.delete_range_recursive(partial, depth + 1, start, end);
                    total = total + n;
                    proof {
                        let c = self.children@[i as int];
                        assert(self.children@ =~= mid.update(i as int, c));
                        lemma_wf_update(mid, self.children@, i as int, (d - 1) as nat);
                        assert(f(c) == g(cs[i as int]));
                        assert forall|j: int| 0 <= j < i + 1 implies f(#[trigger] self.children@[j]) == g(cs[j]) by {
                            if j < i {
                                assert(self.children@[j] == mid[j]);
                                assert(f(mid[j]) == g(cs[j]));
                            }
                        }
                    }
                    i += 1;
                }
                proof {
                    assert(cs.take(i as int) =~= cs);
                    lemma_children_selected(cs, (d - 1) as nat, rest, start, end);
                    lemma_concat_pointwise(self.children@, f, cs, g);
                    lemma_children_concat(self.children@, (d - 1) as nat);
                }
                total
            },
            Some(k) => match self.position(k) {
                Some(i) => {
                    proof {
                        lemma_named_key(cs, Some(i as int), (d - 1) as nat, rest, start, end);
                        assert(node_wf(cs[i as int].node, (d - 1) as nat));
                        lemma_concat_len_ge(cs, i as int, f);
                        lemma_child_selected(cs[i as int], (d - 1) as nat, rest, start, end);
                    }
                    let n = self.children[i].node.delete_range_recursive(partial, depth + 1, start, end);
                    proof {
                        let c = self.children@[i as int];
                        assert(self.children@ =~= cs.update(i as int, c));
                        lemma_wf_update(cs, self.children@, i as int, (d - 1) as nat);
                        assert forall|j: int| 0 <= j < cs.len() implies f(#[trigger] self.children@[j]) == g(
                            cs[j],
                        ) by {
                            if j < i {
                                assert(cs[j].key != cs[i as int].key);
                            } else if j > i {
                                assert(cs[i as int].key != cs[j].key);
                            }
                            lemma_child_selected(cs[j], (d - 1) as nat, rest, start, end);
                        }
                        lemma_concat_pointwise(self.children@, f, cs, g);
                        lemma_children_concat(self.children@, (d - 1) as nat);
                    }
                    n
                },
                None => {
                    proof {
                        lemma_named_key(cs, None, (d - 1) as nat, rest, start, end);
                        assert forall|j: int| 0 <= j < cs.len() implies f(#[trigger] cs[j]) == g(cs[j]) by {
                            lemma_child_selected(cs[j], (d - 1) as nat, rest, start, end);
                        }
                        lemma_concat_pointwise(cs, f, cs, g);
                    }
                    0
                },
            },
        }
    }
}

impl<K: Eq + Clone, P: Eq + Clone> CTrieIndex<K, P> {
    /// Inserts `payload` under the composite key `keys` at `timestamp`.
    pub fn insert(&mut self, keys: &[K], timestamp: i64, payload: P)
        requires
            lawful::<K>(),
            lawful::<P>(),
            old(self).wf(),
            keys@.len() == old(self).depth(),
            old(self)@.len() < u64::MAX,
        ensures
            final(self).wf(),
            final(self).depth() == old(self).depth(),
            inserted(old(self)@, final(self)@, (keys@, timestamp, payload)),
    {
        assert(keys@.skip(0) =~= keys@);
        self.root.insert_at(keys, 0, timestamp, payload);
        proof {
            lemma_inserted_multiset(
                old(self)@,
                node_items(self.root, self.key_count as nat),
                (keys@, timestamp, payload),
            );
        }
        self.total_count = self.total_count + 1;
    }

    /// Aggregates all payloads in `[start, end]` whose composite key agrees
    /// with `partial_keys`.
    pub fn query_range(&self, partial_keys: &[Option<K>], start: i64, end: i64) -> (r: RangeResult<P>)
        requires
            lawful::<K>(),
            lawful::<P>(),
            self.wf(),
            partial_keys@.len() == self.depth(),
        ensures
            r.describes(payloads(pairs(self@.filter(selects(partial_keys@, start, end))))),
    {
        assert(partial_keys@.skip(0) =~= partial_keys@);
        self.root.query_range_recursive(partial_keys, 0, start, end)
    }

    /// The entries behind [`query_range`](Self::query_range): written out by
    /// their counts they are the selected items, leaf by leaf. Where every key
    /// is given there is one leaf, hence one entry per `(timestamp, payload)`
    /// pair, by ascending timestamp.
    pub fn query_range_entries(
        &self,
        partial_keys: &[Option<K>],
        start: i64,
        end: i64,
    ) -> (r: Vec<TimeIndexEntry<P>>)
        requires
            lawful::<K>(),
            lawful::<P>(),
            self.wf(),
            partial_keys@.len() == self.depth(),
        ensures
            concat(r@, entry_items()) == pairs(self@.filter(selects(partial_keys@, start, end))),
            forall|i: int| 0 <= i < r@.len() ==> (#[trigger] r@[i]).count > 0,
            forall|i: int| 0 <= i < r@.len() ==> start <= (#[trigger] r@[i]).timestamp <= end,
            all_named(partial_keys@) ==> entries_wf(r@),
    {
        assert(partial_keys@.skip(0) =~= partial_keys@);
        let mut out: Vec<TimeIndexEntry<P>> = Vec::new();
        self.root.query_range_entries_recursive(partial_keys, 0, start, end, &mut out);
        proof {
            let found = pairs(self@.filter(selects(partial_keys@, start, end)));
            assert(Seq::<(i64, P)>::empty() + found =~= found);
        }
        out
    }

    /// Deletes one `(keys, timestamp, payload)` occurrence. Returns `true` if
    /// it was present.
    pub fn delete(&mut self, keys: &[K], timestamp: i64, payload: &P) -> (r: bool)
        requires
            lawful::<K>(),
            lawful::<P>(),
            old(self).wf(),
            keys@.len() == old(self).depth(),
        ensures
            final(self).wf(),
            final(self).depth() == old(self).depth(),
            r == old(self)@.contains((keys@, timestamp, *payload)),
            r ==> inserted(final(self)@, old(self)@, (keys@, timestamp, *payload)),
            !r ==> final(self)@ == old(self)@,
    {
        assert(keys@.skip(0) =~= keys@);
        let removed = self.root.delete_at(keys, 0, timestamp, payload);
        if removed {
            proof {
                lemma_inserted_multiset(
                    node_items(self.root, self.key_count as nat),
                    old(self)@,
                    (keys@, timestamp, *payload),
                );
            }
            self.total_count = self.total_count - 1;
        }
        removed
    }

    /// Deletes every payload in `[start, end]` whose key agrees with
    /// `partial_keys`. Returns the number of payloads removed.
    pub fn delete_range(&mut self, partial_keys: &[Option<K>], start: i64, end: i64) -> (r: u64)
        requires
            lawful::<K>(),
            lawful::<P>(),
            old(self).wf(),
            partial_keys@.len() == old(self).depth(),
        ensures
            final(self).wf(),
            final(self).depth() == old(self).depth(),
            final(self)@ == old(self)@.filter(leaves_out(partial_keys@, start, end)),
            r == old(self)@.filter(selects(partial_keys@, start, end)).len(),
    {
        assert(partial_keys@.skip(0) =~= partial_keys@);
        let deleted = self.root.delete_range_recursive(partial_keys, 0, start, end);
        proof {
            lemma_split_len(old(self)@, partial_keys@, start, end);
        }
        self.total_count = self.total_count - deleted;
        deleted
    }
}

/// Every item is selected or left out.
proof fn lemma_split_len<K, P>(items: Seq<(Seq<K>, i64, P)>, partial: Seq<Option<K>>, start: i64, end: i64)
    ensures
        items.filter(selects(partial, start, end)).len() + items.filter(leaves_out(partial, start, end)).len()
            == items.len(),
    decreases items.len(),
{
    reveal(Seq::filter);
    if items.len() > 0 {
        lemma_split_len(items.drop_last(), partial, start, end);
    }
}

/// Deleting what was inserted restores the items, up to their order.
pub proof fn law_delete_undoes_insert<K, P>(
    before: Seq<(Seq<K>, i64, P)>,
    with_item: Seq<(Seq<K>, i64, P)>,
    after: Seq<(Seq<K>, i64, P)>,
    item: (Seq<K>, i64, P),
)
    requires
        inserted(before, with_item, item),
        inserted(after, with_item, item),
    ensures
        after.to_multiset() == before.to_multiset(),
{
    lemma_inserted_multiset(before, with_item, item);
    lemma_inserted_multiset(after, with_item, item);
    assert(before.to_multiset().insert(item).remove(item) =~= before.to_multiset());
    assert(after.to_multiset().insert(item).remove(item) =~= after.to_multiset());
}

/// An inserted item is found by every query that selects it.
pub proof fn law_inserted_is_found<K, P>(
    before: Seq<(Seq<K>, i64, P)>,
    after: Seq<(Seq<K>, i64, P)>,
    item: (Seq<K>, i64, P),
    partial: Seq<Option<K>>,
    start: i64,
    end: i64,
)
    requires
        inserted(before, after, item),
        selects(partial, start, end)(item),
    ensures
        after.filter(selects(partial, start, end)).contains(item),
{
    let i = choose|i: int| 0 <= i <= before.len() && after == #[trigger] before.insert(i, item);
    before.insert_ensures(i, item);
    assert(after[i] == item);
    lemma_filter_keeps(after, selects(partial, start, end), item);
}

/// After a range is deleted, a query of the same range finds nothing.
pub proof fn law_deleted_range_is_empty<K, P>(
    items: Seq<(Seq<K>, i64, P)>,
    partial: Seq<Option<K>>,
    start: i64,
    end: i64,
)
    ensures
        items.filter(leaves_out(partial, start, end)).filter(selects(partial, start, end)).len() == 0,
{
    let rest = items.filter(leaves_out(partial, start, end));
    let found = rest.filter(selects(partial, start, end));
    if found.len() > 0 {
        lemma_filter_member(rest, selects(partial, start, end), 0);
        let i = choose|i: int| 0 <= i < rest.len() && rest[i] == found[0];
        lemma_filter_member(items, leaves_out(partial, start, end), i);
    }
}

} // verus!
