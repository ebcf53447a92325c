//! Top-K selection by an integer score.
use vstd::prelude::*;

use crate::listing::{inserted, lemma_inserted_multiset};

verus! {

/// Sort direction for ranking.
#[derive(Clone, Copy, Debug, PartialEq, Eq, Structural)]
#[non_exhaustive]
pub enum SortDirection {
    Ascending,
    Descending,
}

/// A sort key: a name and a direction.
#[derive(Clone, Debug)]
pub struct SortKey {
    pub name: String,
    pub direction: SortDirection,
}

impl SortKey {
    pub fn asc(name: &str) -> (r: Self)
        ensures
            r.name@ == name@,
            r.direction == SortDirection::Ascending,
    {
        SortKey { name: name.to_string(), direction: SortDirection::Ascending }
    }

    pub fn desc(name: &str) -> (r: Self)
        ensures
            r.name@ == name@,
            r.direction == SortDirection::Descending,
    {
        SortKey { name: name.to_string(), direction: SortDirection::Descending }
    }
}

/// An element with its rank, counted from 1.
#[derive(Clone, Debug)]
pub struct RankedElement<T> {
    pub element: T,
    pub rank: usize,
}

/// A score ranks strictly before another: the highest first when descending,
/// the lowest first when ascending.
pub open spec fn ranks_before(direction: SortDirection, a: i64, b: i64) -> bool {
    match direction {
        SortDirection::Descending => a > b,
        SortDirection::Ascending => a < b,
    }
}

fn is_before(direction: SortDirection, a: i64, b: i64) -> (r: bool)
    ensures
        r == ranks_before(direction, a, b),
{
    match direction {
        SortDirection::Descending => a > b,
        SortDirection::Ascending => a < b,
    }
}

/// In ranked order, up to the order of equal scores.
pub open spec fn ranked<T>(direction: SortDirection, items: Seq<(T, i64)>) -> bool {
    forall|i: int, j: int|
        0 <= i < j < items.len() ==> !ranks_before(direction, (#[trigger] items[j]).1, (#[trigger] items[i]).1)
}

/// Keeps the first K elements by a scoring function. Which of several
/// elements of the worst score are kept is not promised to callers.
///
/// Its view lists the kept elements with their scores in ranked order.
pub struct TopKOperator<T, F> {
    k: usize,
    scorer: F,
    direction: SortDirection,
    kept: Vec<(T, i64)>,
}

impl<T, F> View for TopKOperator<T, F> {
    type V = Seq<(T, i64)>;

    closed spec fn view(&self) -> Seq<(T, i64)> {
        self.kept@
    }
}

impl<T, F: Fn(&T) -> i64> TopKOperator<T, F> {
    pub closed spec fn limit(&self) -> nat {
        self.k as nat
    }

    pub closed spec fn order(&self) -> SortDirection {
        self.direction
    }

    pub closed spec fn score(&self) -> F {
        self.scorer
    }

    pub open spec fn wf(&self) -> bool {
        &&& self@.len() <= self.limit()
        &&& ranked(self.order(), self@)
    }

    pub fn new(k: usize, scorer: F, direction: SortDirection) -> (r: Self)
        ensures
            r.wf(),
            r@.len() == 0,
            r.limit() == k,
            r.order() == direction,
            r.score() == scorer,
    {
        TopKOperator { k, scorer, direction, kept: Vec::new() }
    }

    /// Adds an element. If that makes more than K, an element of the worst
    /// score goes.
    pub fn add(&mut self, element: T)
        requires
            old(self).wf(),
            call_requires(old(self).score(), (&element,)),
            old(self)@.len() < usize::MAX,
        ensures
            final(self).wf(),
            final(self).limit() == old(self).limit(),
            final(self).order() == old(self).order(),
            final(self).score() == old(self).score(),
            exists|s: i64, all: Seq<(T, i64)>| #[trigger]
                call_ensures(old(self).score(), (&element,), s) && #[trigger] inserted(old(self)@, all, (element, s))
                    && ranked(old(self).order(), all) && final(self)@ == if all.len() > old(self).limit() {
                    all.drop_last()
                } else {
                    all
                },
    {
        let ghost before = self.kept@;
        let score: i64 = (self.scorer)(&element);
        let mut i: usize = 0;
        while i < self.kept.len() && !is_before(self.direction, score, self.kept[i].1)
            invariant
                self.kept@ == before,
                i <= before.len(),
                forall|j: int| 0 <= j < i ==> !ranks_before(self.direction, score, (#[trigger] before[j]).1),
            decreases before.len() - i,
        {
            i += 1;
        }
        let ghost x = (element, score);
        self.kept.insert(i, (element, score));
        let ghost all = self.kept@;
        proof {
            before.insert_ensures(i as int, x);
            assert(all == before.insert(i as int, x));
            assert(inserted(before, all, x));
            assert forall|a: int, b: int| 0 <= a < b < all.len() implies !ranks_before(
                self.direction,
                (#[trigger] all[b]).1,
                (#[trigger] all[a]).1,
            ) by {
                let a2 = if a < i { a } else { a - 1 };
                let b2 = if b < i { b } else { b - 1 };
                if a != i && b != i {
                    assert(!ranks_before(self.direction, before[b2].1, before[a2].1));
                } else if a == i {
                    assert(b2 >= i);
                    if b2 > i {
                        assert(!ranks_before(self.direction, before[b2].1, before[i as int].1));
                    }
                }
            }
        }
        if self.kept.len() > self.k {
            self.kept.pop();
            assert(self.kept@ =~= all.drop_last());
        }
    }

    /// The kept elements in ranked order.
    pub fn get_top_k(&self) -> (r: Vec<&T>)
        requires
            self.wf(),
        ensures
            r@.len() == self@.len(),
            forall|i: int| 0 <= i < r@.len() ==> *(#[trigger] r@[i]) == self@[i].0,
    {
        let mut r: Vec<&T> = Vec::new();
        let mut i: usize = 0;
        while i < self.kept.len()
            invariant
                i <= self.kept@.len(),
                r@.len() == i,
                forall|j: int| 0 <= j < i ==> *(#[trigger] r@[j]) == self.kept@[j].0,
            decreases self.kept@.len() - i,
        {
            r.push(&self.kept[i].0);
            i += 1;
        }
        r
    }

    /// The kept elements in ranked order with their ranks.
    pub fn get_top_k_ranked(&self) -> (r: Vec<RankedElement<&T>>)
        requires
            self.wf(),
        ensures
            r@.len() == self@.len(),
            forall|i: int| 0 <= i < r@.len() ==> *(#[trigger] r@[i]).element == self@[i].0 && r@[i].rank == i + 1,
    {
        let mut r: Vec<RankedElement<&T>> = Vec::new();
        let mut i: usize = 0;
        while i < self.kept.len()
            invariant
                i <= self.kept@.len(),
                r@.len() == i,
                forall|j: int| 0 <= j < i ==> *(#[trigger] r@[j]).element == self.kept@[j].0 && r@[j].rank == j + 1,
            decreases self.kept@.len() - i,
        {
            r.push(RankedElement { element: &self.kept[i].0, rank: i + 1 });
            i += 1;
        }
        r
    }

    pub fn size(&self) -> (r: usize)
        ensures
            r == self@.len(),
    {
        self.kept.len()
    }

    pub fn is_full(&self) -> (r: bool)
        ensures
            r == (self@.len() >= self.limit()),
    {
        self.kept.len() >= self.k
    }

    pub fn reset(&mut self)
        requires
            old(self).wf(),
        ensures
            final(self).wf(),
            final(self)@.len() == 0,
            final(self).limit() == old(self).limit(),
            final(self).order() == old(self).order(),
            final(self).score() == old(self).score(),
    {
        self.kept.clear();
    }
}

/// The kept elements are the first of all: there are as many as fit, the
/// others are the rest of all, and none of the rest ranks before a kept one.
pub open spec fn keeps_first<T>(
    direction: SortDirection,
    limit: nat,
    all: Seq<(T, i64)>,
    kept: Seq<(T, i64)>,
    rest: Seq<(T, i64)>,
) -> bool {
    &&& ranked(direction, kept)
    &&& kept.len() == if all.len() < limit {
        all.len()
    } else {
        limit
    }
    &&& kept.to_multiset().add(rest.to_multiset()) == all.to_multiset()
    &&& forall|i: int, j: int|
        0 <= i < kept.len() && 0 <= j < rest.len() ==> !ranks_before(
            direction,
            (#[trigger] rest[j]).1,
            (#[trigger] kept[i]).1,
        )
}

/// Adding keeps the first K of all elements that were added: what an addition
/// does to the kept elements keeps them the first of all, the new one included.
pub proof fn law_additions_keep_the_first<T>(
    direction: SortDirection,
    limit: nat,
    all: Seq<(T, i64)>,
    kept: Seq<(T, i64)>,
    rest: Seq<(T, i64)>,
    x: (T, i64),
    longer: Seq<(T, i64)>,
)
    requires
        keeps_first(direction, limit, all, kept, rest),
        inserted(kept, longer, x),
        ranked(direction, longer),
    ensures
        longer.len() > limit ==> keeps_first(
            direction,
            limit,
            all.push(x),
            longer.drop_last(),
            rest.push(longer.last()),
        ),
        longer.len() <= limit ==> keeps_first(direction, limit, all.push(x), longer, rest),
{
    lemma_inserted_multiset(kept, longer, x);
    let at = choose|i: int| 0 <= i <= kept.len() && longer == #[trigger] kept.insert(i, x);
    kept.insert_ensures(at, x);
    lemma_lengths(all, kept, rest);
    lemma_pushed(all, x);
    if longer.len() > limit {
        let shorter = longer.drop_last();
        let out = longer.last();
        assert(longer =~= shorter.push(out));
        lemma_pushed(shorter, out);
        lemma_pushed(rest, out);
        assert(shorter.to_multiset().add(rest.push(out).to_multiset()) =~= all.push(x).to_multiset()) by {
            let k = kept.to_multiset();
            let r = rest.to_multiset();
            let s = shorter.to_multiset();
            assert(s.insert(out) == k.insert(x));
            assert(s.add(r.insert(out)) =~= s.insert(out).add(r));
            assert(k.insert(x).add(r) =~= k.add(r).insert(x));
        }
        assert forall|i: int, j: int| 0 <= i < shorter.len() && 0 <= j < rest.push(out).len() implies !ranks_before(
            direction,
            (#[trigger] rest.push(out)[j]).1,
            (#[trigger] shorter[i]).1,
        ) by {
            assert(shorter[i] == longer[i]);
            assert(!ranks_before(direction, longer[longer.len() - 1].1, longer[i].1));
            if j < rest.len() {
                if i == at {
                    let last = kept[kept.len() - 1];
                    assert(longer[longer.len() - 1] == last);
                    assert(!ranks_before(direction, rest[j].1, last.1));
                } else {
                    let i2 = if i < at { i } else { i - 1 };
                    assert(longer[i] == kept[i2]);
                    assert(!ranks_before(direction, rest[j].1, kept[i2].1));
                }
            }
        }
    } else {
        assert(longer.to_multiset().add(rest.to_multiset()) =~= all.push(x).to_multiset());
    }
}

proof fn lemma_pushed<A>(s: Seq<A>, x: A)
    ensures
        s.push(x).to_multiset() == s.to_multiset().insert(x),
{
    broadcast use vstd::seq_lib::group_to_multiset_ensures;

}

/// What is kept and the rest together are as many as all.
proof fn lemma_lengths<A>(all: Seq<A>, kept: Seq<A>, rest: Seq<A>)
    requires
        kept.to_multiset().add(rest.to_multiset()) == all.to_multiset(),
    ensures
        kept.len() + rest.len() == all.len(),
{
    vstd::seq_lib::to_multiset_len(all);
    vstd::seq_lib::to_multiset_len(kept);
    vstd::seq_lib::to_multiset_len(rest);
    assert(kept.to_multiset().add(rest.to_multiset()).len() == kept.to_multiset().len() + rest.to_multiset().len());
}

} // verus!
