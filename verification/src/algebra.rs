//! Sums over finite listings, in whatever order, and what distributes over them.
use vstd::prelude::*;

use crate::listing::inserted;

verus! {

/// `zero` plus every item, from the left.
pub open spec fn total<A>(zero: A, plus: spec_fn(A, A) -> A, items: Seq<A>) -> A
    decreases items.len(),
{
    if items.len() == 0 {
        zero
    } else {
        plus(total(zero, plus, items.drop_last()), items.last())
    }
}

/// `plus` is associative and commutative with identity `zero`.
pub open spec fn monoid<A>(zero: A, plus: spec_fn(A, A) -> A) -> bool {
    &&& forall|a: A| #[trigger] plus(zero, a) == a
    &&& forall|a: A, b: A| #[trigger] plus(a, b) == plus(b, a)
    &&& forall|a: A, b: A, c: A| #[trigger] plus(plus(a, b), c) == plus(a, plus(b, c))
}

/// A commutative monoid in which every element has the inverse `minus` gives.
pub open spec fn group<A>(zero: A, plus: spec_fn(A, A) -> A, minus: spec_fn(A) -> A) -> bool {
    &&& monoid(zero, plus)
    &&& forall|a: A| #[trigger] plus(a, minus(a)) == zero
}

/// `f` carries sums to sums.
pub open spec fn additive<A, B>(
    f: spec_fn(A) -> B,
    zero_a: A,
    plus_a: spec_fn(A, A) -> A,
    zero_b: B,
    plus_b: spec_fn(B, B) -> B,
) -> bool {
    &&& f(zero_a) == zero_b
    &&& forall|a: A, b: A| #[trigger] f(plus_a(a, b)) == plus_b(f(a), f(b))
}

/// `a + b + c == a + c + b`.
proof fn lemma_swap<A>(zero: A, plus: spec_fn(A, A) -> A, a: A, b: A, c: A)
    requires
        monoid(zero, plus),
    ensures
        plus(plus(a, b), c) == plus(plus(a, c), b),
{
    assert(plus(plus(a, b), c) == plus(a, plus(b, c)));
    assert(plus(b, c) == plus(c, b));
    assert(plus(plus(a, c), b) == plus(a, plus(c, b)));
}

/// An item anywhere in the listing counts once.
pub proof fn lemma_total_insert<A>(zero: A, plus: spec_fn(A, A) -> A, items: Seq<A>, i: int, x: A)
    requires
        monoid(zero, plus),
        0 <= i <= items.len(),
    ensures
        total(zero, plus, items.insert(i, x)) == plus(total(zero, plus, items), x),
    decreases items.len(),
{
    let more = items.insert(i, x);
    if i == items.len() {
        assert(more.drop_last() =~= items);
    } else {
        assert(more.drop_last() =~= items.drop_last().insert(i, x));
        assert(more.last() == items.last());
        lemma_total_insert(zero, plus, items.drop_last(), i, x);
        lemma_swap(zero, plus, total(zero, plus, items.drop_last()), x, items.last());
    }
}

pub proof fn lemma_total_inserted<A>(zero: A, plus: spec_fn(A, A) -> A, before: Seq<A>, after: Seq<A>, x: A)
    requires
        monoid(zero, plus),
        inserted(before, after, x),
    ensures
        total(zero, plus, after) == plus(total(zero, plus, before), x),
{
    let i = choose|i: int| 0 <= i <= before.len() && after == #[trigger] before.insert(i, x);
    lemma_total_insert(zero, plus, before, i, x);
}

/// The sum does not depend on the order of the items.
pub proof fn lemma_total_reorder<A>(zero: A, plus: spec_fn(A, A) -> A, s: Seq<A>, t: Seq<A>)
    requires
        monoid(zero, plus),
        s.to_multiset() == t.to_multiset(),
    ensures
        total(zero, plus, s) == total(zero, plus, t),
    decreases s.len(),
{
    broadcast use vstd::seq_lib::group_to_multiset_ensures;

    vstd::seq_lib::to_multiset_len(s);
    vstd::seq_lib::to_multiset_len(t);
    if s.len() > 0 {
        let x = s.last();
        vstd::seq_lib::to_multiset_contains(s, x);
        vstd::seq_lib::to_multiset_contains(t, x);
        assert(s.contains(x));
        let i = choose|i: int| 0 <= i < t.len() && t[i] == x;
        let rest = t.remove(i);
        assert(t =~= rest.insert(i, x));
        vstd::seq_lib::to_multiset_insert(rest, i, x);
        assert(s =~= s.drop_last().push(x));
        assert(s.drop_last().to_multiset() =~= rest.to_multiset());
        lemma_total_reorder(zero, plus, s.drop_last(), rest);
        lemma_total_insert(zero, plus, rest, i, x);
    }
}

/// Summing item by item two listings of the same length.
pub proof fn lemma_total_pointwise<A, B>(
    zero: A,
    plus: spec_fn(A, A) -> A,
    items: Seq<B>,
    f: spec_fn(B) -> A,
    g: spec_fn(B) -> A,
    h: spec_fn(B) -> A,
)
    requires
        monoid(zero, plus),
        forall|i: int| 0 <= i < items.len() ==> h(#[trigger] items[i]) == plus(f(items[i]), g(items[i])),
    ensures
        total(zero, plus, items.map_values(h)) == plus(
            total(zero, plus, items.map_values(f)),
            total(zero, plus, items.map_values(g)),
        ),
    decreases items.len(),
{
    if items.len() == 0 {
        assert(plus(zero, zero) == zero);
    } else {
        let rest = items.drop_last();
        let x = items.last();
        assert forall|i: int| 0 <= i < rest.len() implies h(#[trigger] rest[i]) == plus(f(rest[i]), g(rest[i])) by {
            assert(h(items[i]) == plus(f(items[i]), g(items[i])));
        }
        lemma_total_pointwise(zero, plus, rest, f, g, h);
        assert(items.map_values(h).drop_last() =~= rest.map_values(h));
        assert(items.map_values(f).drop_last() =~= rest.map_values(f));
        assert(items.map_values(g).drop_last() =~= rest.map_values(g));
        let a = total(zero, plus, rest.map_values(f));
        let b = total(zero, plus, rest.map_values(g));
        assert(h(items[items.len() - 1]) == plus(f(x), g(x)));
        // (a + b) + (fx + gx) == (a + fx) + (b + gx)
        assert(plus(plus(a, b), plus(f(x), g(x))) == plus(plus(plus(a, b), f(x)), g(x)));
        lemma_swap(zero, plus, a, b, f(x));
        assert(plus(plus(plus(a, f(x)), b), g(x)) == plus(plus(a, f(x)), plus(b, g(x))));
    }
}

/// An additive function may be applied before or after summing.
pub proof fn lemma_total_additive<A, B>(
    f: spec_fn(A) -> B,
    zero_a: A,
    plus_a: spec_fn(A, A) -> A,
    zero_b: B,
    plus_b: spec_fn(B, B) -> B,
    items: Seq<A>,
)
    requires
        additive(f, zero_a, plus_a, zero_b, plus_b),
    ensures
        f(total(zero_a, plus_a, items)) == total(zero_b, plus_b, items.map_values(f)),
    decreases items.len(),
{
    if items.len() > 0 {
        lemma_total_additive(f, zero_a, plus_a, zero_b, plus_b, items.drop_last());
        assert(items.map_values(f).drop_last() =~= items.drop_last().map_values(f));
    }
}

/// Items that are zero do not count.
pub proof fn lemma_total_filter<A, B>(
    zero: A,
    plus: spec_fn(A, A) -> A,
    items: Seq<B>,
    p: spec_fn(B) -> bool,
    f: spec_fn(B) -> A,
    g: spec_fn(B) -> A,
)
    requires
        monoid(zero, plus),
        forall|b: B| #[trigger] g(b) == if p(b) { f(b) } else { zero },
    ensures
        total(zero, plus, items.map_values(g)) == total(zero, plus, items.filter(p).map_values(f)),
    decreases items.len(),
{
    reveal(Seq::filter);
    if items.len() == 0 {
        assert(items.filter(p).map_values(f) =~= Seq::<A>::empty());
    } else {
        let rest = items.drop_last();
        let x = items.last();
        lemma_total_filter(zero, plus, rest, p, f, g);
        assert(items.map_values(g).drop_last() =~= rest.map_values(g));
        let t = total(zero, plus, rest.map_values(g));
        assert(plus(t, zero) == plus(zero, t));
        if p(x) {
            assert(items.filter(p).map_values(f).drop_last() =~= rest.filter(p).map_values(f));
        }
    }
}

/// An element minus itself may be taken off again.
pub proof fn lemma_cancel<A>(zero: A, plus: spec_fn(A, A) -> A, minus: spec_fn(A) -> A, a: A, b: A)
    requires
        group(zero, plus, minus),
    ensures
        plus(plus(a, b), minus(b)) == a,
        plus(plus(a, minus(b)), b) == a,
{
    assert(plus(plus(a, b), minus(b)) == plus(a, plus(b, minus(b))));
    assert(plus(b, minus(b)) == zero);
    assert(plus(plus(a, minus(b)), b) == plus(a, plus(minus(b), b)));
    assert(plus(minus(b), b) == plus(b, minus(b)));
    assert(plus(a, zero) == plus(zero, a));
}

/// Summing a listing and then another.
pub proof fn lemma_total_append<A>(zero: A, plus: spec_fn(A, A) -> A, s: Seq<A>, t: Seq<A>)
    requires
        monoid(zero, plus),
    ensures
        total(zero, plus, s + t) == plus(total(zero, plus, s), total(zero, plus, t)),
    decreases t.len(),
{
    let a = total(zero, plus, s);
    if t.len() == 0 {
        assert(s + t =~= s);
        assert(plus(a, zero) == plus(zero, a));
    } else {
        assert((s + t).drop_last() =~= s + t.drop_last());
        assert((s + t).last() == t.last());
        lemma_total_append(zero, plus, s, t.drop_last());
        let b = total(zero, plus, t.drop_last());
        assert(plus(plus(a, b), t.last()) == plus(a, plus(b, t.last())));
    }
}

} // verus!
