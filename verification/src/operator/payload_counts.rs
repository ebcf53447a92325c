//! Payload multiplicities in first-seen order.
use vstd::prelude::*;

use crate::listing::{concat, dup, inserted, lawful, repeated, same};
use crate::listing::{
    lemma_concat_add, lemma_concat_len_ge, lemma_concat_one, lemma_concat_remove,
    lemma_concat_split, lemma_concat_take, lemma_concat_take_len, lemma_concat_update,
    lemma_inserted_within, lemma_multiset_add, lemma_multiset_empty, lemma_multiset_repeated,
};

verus! {

/// Lists each payload as often as its count says.
pub open spec fn copies<P>() -> spec_fn((P, u64)) -> Seq<P> {
    |e: (P, u64)| repeated(e.0, e.1 as nat)
}

/// A bag of payloads: every distinct payload with the number of times it
/// occurs, in the order in which the payloads were first added.
#[derive(Clone, Debug)]
pub struct PayloadCounts<P> {
    entries: Vec<(P, u64)>,
}

impl<P> View for PayloadCounts<P> {
    type V = Seq<(P, u64)>;

    closed spec fn view(&self) -> Seq<(P, u64)> {
        self.entries@
    }
}

impl<P> PayloadCounts<P> {
    /// Payloads are distinct and every stored count is positive.
    pub open spec fn wf(&self) -> bool {
        &&& forall|i: int, j: int| 0 <= i < j < self@.len() ==> #[trigger] self@[i].0 != #[trigger] self@[j].0
        &&& forall|i: int| 0 <= i < self@.len() ==> (#[trigger] self@[i]).1 > 0
    }

    /// The bag written out, each payload repeated.
    pub open spec fn items(&self) -> Seq<P> {
        concat(self@, copies())
    }

    /// How often `p` occurs.
    pub open spec fn count(&self, p: P) -> nat {
        self.items().to_multiset().count(p)
    }

    /// The empty bag.
    pub fn new() -> (r: Self)
        ensures
            r.wf(),
            r@ == Seq::<(P, u64)>::empty(),
            r.items() == Seq::<P>::empty(),
    {
        PayloadCounts { entries: Vec::new() }
    }

    /// Number of distinct payloads.
    pub fn len(&self) -> (r: usize)
        ensures
            r == self@.len(),
    {
        self.entries.len()
    }

    /// `true` when no payload is held.
    pub fn is_empty(&self) -> (r: bool)
        ensures
            r == (self@.len() == 0),
    {
        self.entries.len() == 0
    }

    /// The payloads with their counts.
    pub fn entries(&self) -> (r: &Vec<(P, u64)>)
        ensures
            r@ == self@,
    {
        &self.entries
    }
}

/// The stored count of a payload is its multiplicity in the bag.
pub proof fn lemma_entry_count<P>(entries: Seq<(P, u64)>, p: P)
    requires
        forall|i: int, j: int| 0 <= i < j < entries.len() ==> #[trigger] entries[i].0 != #[trigger] entries[j].0,
    ensures
        forall|i: int|
            0 <= i < entries.len() && (#[trigger] entries[i]).0 == p ==> concat(entries, copies()).to_multiset().count(
                p,
            ) == entries[i].1,
        (forall|i: int| 0 <= i < entries.len() ==> (#[trigger] entries[i]).0 != p) ==> concat(entries, copies())
            .to_multiset().count(p) == 0,
    decreases entries.len(),
{
    broadcast use vstd::seq_lib::group_to_multiset_ensures;

    if entries.len() > 0 {
        let rest = entries.drop_last();
        let last = entries.last();
        assert forall|i: int, j: int| 0 <= i < j < rest.len() implies #[trigger] rest[i].0 != #[trigger] rest[j].0 by {
            assert(entries[i].0 != entries[j].0);
        }
        lemma_entry_count(rest, p);
        lemma_multiset_add(concat(rest, copies()), copies()(last));
        lemma_multiset_repeated(last.0, last.1 as nat);
        assert(repeated(last.0, last.1 as nat) == copies::<P>()(last));
        if last.0 == p {
            assert forall|i: int| 0 <= i < rest.len() implies (#[trigger] rest[i]).0 != p by {
                assert(entries[i].0 != entries[entries.len() - 1].0);
            }
        } else {
            assert(repeated(last.0, last.1 as nat).to_multiset().count(p) == 0);
            if forall|i: int| 0 <= i < entries.len() ==> (#[trigger] entries[i]).0 != p {
                assert forall|i: int| 0 <= i < rest.len() implies (#[trigger] rest[i]).0 != p by {
                    assert(entries[i].0 != p);
                }
            }
            assert forall|i: int| 0 <= i < entries.len() && (#[trigger] entries[i]).0 == p implies concat(
                entries,
                copies(),
            ).to_multiset().count(p) == entries[i].1 by {
                assert(rest[i].0 == p);
            }
        }
    }
}

proof fn lemma_merge_step<P>(start: vstd::multiset::Multiset<P>, es: Seq<(P, u64)>, i: int)
    requires
        0 <= i < es.len(),
    ensures
        start.add(concat(es.take(i + 1), copies()).to_multiset()) == start.add(
            concat(es.take(i), copies()).to_multiset(),
        ).add(repeated(es[i].0, es[i].1 as nat).to_multiset()),
        concat(es.take(i + 1), copies()).len() == concat(es.take(i), copies()).len() + es[i].1,
        concat(es.take(i + 1), copies()).len() <= concat(es, copies()).len(),
{
    lemma_concat_take(es, i, copies());
    lemma_concat_take_len(es, i + 1, copies());
    let c = concat(es.take(i), copies());
    let r = repeated(es[i].0, es[i].1 as nat);
    assert(copies::<P>()(es[i]) == r);
    lemma_multiset_add(c, r);
    assert(start.add(c.to_multiset().add(r.to_multiset())) =~= start.add(c.to_multiset()).add(r.to_multiset()));
}

impl<P: Eq + Clone> PayloadCounts<P> {
    fn position(&self, p: &P) -> (r: Option<usize>)
        requires
            lawful::<P>(),
        ensures
            match r {
                Some(i) => i < self@.len() && self@[i as int].0 == *p,
                None => forall|i: int| 0 <= i < self@.len() ==> (#[trigger] self@[i]).0 != *p,
            },
    {
        let mut i: usize = 0;
        while i < self.entries.len()
            invariant
                lawful::<P>(),
                i <= self.entries@.len(),
                forall|j: int| 0 <= j < i ==> (#[trigger] self@[j]).0 != *p,
            decreases self.entries@.len() - i,
        {
            if same(&self.entries[i].0, p) {
                return Some(i);
            }
            i += 1;
        }
        None
    }

    /// How often `p` occurs, `None` when it does not.
    pub fn get(&self, p: &P) -> (r: Option<&u64>)
        requires
            lawful::<P>(),
            self.wf(),
        ensures
            r is Some <==> self.count(*p) > 0,
            r is Some ==> *r->0 == self.count(*p),
    {
        proof {
            lemma_entry_count(self@, *p);
        }
        match self.position(p) {
            Some(i) => Some(&self.entries[i].1),
            None => None,
        }
    }

    /// `true` when `p` occurs.
    pub fn contains_key(&self, p: &P) -> (r: bool)
        requires
            lawful::<P>(),
            self.wf(),
        ensures
            r == (self.count(*p) > 0),
    {
        self.get(p).is_some()
    }

    /// Adds one occurrence of `p`.
    pub fn add(&mut self, p: P)
        requires
            lawful::<P>(),
            old(self).wf(),
            old(self).items().len() < u64::MAX,
        ensures
            final(self).wf(),
            inserted(old(self).items(), final(self).items(), p),
            final(self)@.len() > 0,
    {
        let ghost before = self@;
        match self.position(&p) {
            Some(i) => {
                proof {
                    lemma_concat_len_ge(before, i as int, copies());
                    assert(copies::<P>()(before[i as int]).len() == before[i as int].1);
                }
                let n: u64 = self.entries[i].1;
                self.entries[i].1 = n + 1;
                proof {
                    let after = self@;
                    let e = (p, (n + 1) as u64);
                    assert(after =~= before.update(i as int, e));
                    lemma_concat_split(before, i as int, copies());
                    lemma_concat_update(before, i as int, e, copies());
                    let o = copies::<P>()(before[i as int]);
                    let w = copies::<P>()(e);
                    assert(w =~= o.insert(0, p));
                    lemma_inserted_within(
                        concat(before.take(i as int), copies()),
                        o,
                        w,
                        concat(before.skip(i + 1), copies()),
                        p,
                    );
                }
            },
            None => {
                self.entries.push((p, 1));
                proof {
                    let e = (p, 1u64);
                    assert(self@ =~= before + seq![e]);
                    lemma_concat_add(before, seq![e], copies());
                    lemma_concat_one(e, copies());
                    assert(copies::<P>()(e) =~= seq![p]);
                    let items = concat(before, copies());
                    assert(concat(self@, copies()) =~= items.insert(items.len() as int, p));
                }
            },
        }
    }

    /// Adds `c` occurrences of `p`.
    pub fn add_many(&mut self, p: P, c: u64)
        requires
            lawful::<P>(),
            old(self).wf(),
            c > 0,
            old(self).items().len() + c <= u64::MAX,
        ensures
            final(self).wf(),
            final(self).items().to_multiset() == old(self).items().to_multiset().add(
                repeated(p, c as nat).to_multiset(),
            ),
            final(self).items().len() == old(self).items().len() + c,
            final(self)@.len() > 0,
    {
        let ghost before = self@;
        match self.position(&p) {
            Some(i) => {
                proof {
                    lemma_concat_len_ge(before, i as int, copies());
                    assert(copies::<P>()(before[i as int]).len() == before[i as int].1);
                }
                let n: u64 = self.entries[i].1;
                self.entries[i].1 = n + c;
                proof {
                    let e = (p, (n + c) as u64);
                    assert(self@ =~= before.update(i as int, e));
                    lemma_concat_split(before, i as int, copies());
                    lemma_concat_update(before, i as int, e, copies());
                    let o = copies::<P>()(before[i as int]);
                    let w = copies::<P>()(e);
                    let a = concat(before.take(i as int), copies());
                    let b = concat(before.skip(i + 1), copies());
                    assert(w =~= o + repeated(p, c as nat));
                    lemma_multiset_add(a + o, b);
                    lemma_multiset_add(a, o);
                    lemma_multiset_add(a + w, b);
                    lemma_multiset_add(a, w);
                    lemma_multiset_add(o, repeated(p, c as nat));
                    assert(self.items().to_multiset() =~= old(self).items().to_multiset().add(
                        repeated(p, c as nat).to_multiset(),
                    ));
                }
            },
            None => {
                self.entries.push((p, c));
                proof {
                    let e = (p, c);
                    assert(self@ =~= before + seq![e]);
                    lemma_concat_add(before, seq![e], copies());
                    lemma_concat_one(e, copies());
                    lemma_multiset_add(concat(before, copies()), repeated(p, c as nat));
                }
            },
        }
    }

    /// Adds every payload of `other`.
    pub fn merge(&mut self, other: &PayloadCounts<P>)
        requires
            lawful::<P>(),
            old(self).wf(),
            other.wf(),
            old(self).items().len() + other.items().len() <= u64::MAX,
        ensures
            final(self).wf(),
            final(self).items().to_multiset() == old(self).items().to_multiset().add(
                other.items().to_multiset(),
            ),
            final(self).items().len() == old(self).items().len() + other.items().len(),
    {
        let ghost start = self.items();
        let mut i: usize = 0;
        proof {
            assert(concat(other@.take(0), copies()) =~= Seq::<P>::empty());
            lemma_multiset_empty::<P>();
            assert(start.to_multiset().add(vstd::multiset::Multiset::empty()) =~= start.to_multiset());
        }
        while i < other.entries.len()
            invariant
                lawful::<P>(),
                self.wf(),
                other.wf(),
                i <= other@.len(),
                start.len() + other.items().len() <= u64::MAX,
                self.items().len() == start.len() + concat(other@.take(i as int), copies()).len(),
                self.items().to_multiset() == start.to_multiset().add(
                    concat(other@.take(i as int), copies()).to_multiset(),
                ),
            decreases other@.len() - i,
        {
            proof {
                lemma_merge_step(start.to_multiset(), other@, i as int);
                assert(other@[i as int].1 > 0);
            }
            self.add_many(dup(&other.entries[i].0), other.entries[i].1);
            i += 1;
        }
        proof {
            assert(other@.take(i as int) =~= other@);
        }
    }

    /// Takes one occurrence of `p` out. Returns `false`, and changes nothing,
    /// when there is none.
    pub fn remove(&mut self, p: &P) -> (r: bool)
        requires
            lawful::<P>(),
            old(self).wf(),
        ensures
            final(self).wf(),
            r == old(self).items().contains(*p),
            r ==> inserted(final(self).items(), old(self).items(), *p),
            !r ==> *final(self) == *old(self),
    {
        let ghost before = self@;
        proof {
            broadcast use vstd::seq_lib::group_to_multiset_ensures;

            lemma_entry_count(before, *p);
            assert(before.len() >= 0);
            vstd::seq_lib::to_multiset_contains(concat(before, copies()), *p);
        }
        match self.position(p) {
            Some(i) => {
                let n: u64 = self.entries[i].1;
                proof {
                    lemma_concat_split(before, i as int, copies());
                }
                let ghost a = concat(before.take(i as int), copies());
                let ghost b = concat(before.skip(i + 1), copies());
                let ghost o = copies::<P>()(before[i as int]);
                if n == 1 {
                    self.entries.remove(i);
                    proof {
                        assert(self@ =~= before.remove(i as int));
                        lemma_concat_remove(before, i as int, copies());
                        assert(o =~= seq![*p]);
                        assert(a + o + b =~= (a + b).insert(a.len() as int, *p));
                        assert forall|x: int, y: int| 0 <= x < y < self@.len() implies #[trigger] self@[x].0
                            != #[trigger] self@[y].0 by {
                            let x2 = if x < i { x } else { x + 1 };
                            let y2 = if y < i { y } else { y + 1 };
                            assert(before[x2].0 != before[y2].0);
                        }
                        assert forall|x: int| 0 <= x < self@.len() implies (#[trigger] self@[x]).1 > 0 by {
                            let x2 = if x < i { x } else { x + 1 };
                            assert(before[x2].1 > 0);
                        }
                    }
                } else {
                    self.entries[i].1 = n - 1;
                    proof {
                        let e = (*p, (n - 1) as u64);
                        assert(self@ =~= before.update(i as int, e));
                        lemma_concat_update(before, i as int, e, copies());
                        let w = copies::<P>()(e);
                        assert(o =~= w.insert(0, *p));
                        lemma_inserted_within(a, w, o, b, *p);
                    }
                }
                true
            },
            None => false,
        }
    }
}

} // verus!
