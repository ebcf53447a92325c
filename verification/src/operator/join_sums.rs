//! Sums over all ways to pick one item from each relation of a join.
use vstd::prelude::*;

use crate::algebra::{additive, lemma_total_additive, lemma_total_pointwise, lemma_total_reorder, monoid, total};
use crate::listing::lemma_multiset_images;

verus! {

/// The sum of `leaf` over all ways to extend `bound` by one item for each of
/// the names.
pub open spec fn join_sum<I, V>(
    zero: V,
    plus: spec_fn(V, V) -> V,
    leaf: spec_fn(Map<Seq<char>, I>) -> V,
    names: Seq<Seq<char>>,
    items: Map<Seq<char>, Seq<I>>,
    bound: Map<Seq<char>, I>,
) -> V
    decreases names.len(), 0nat,
{
    if names.len() == 0 {
        leaf(bound)
    } else {
        total(
            zero,
            plus,
            items[names[0]].map_values(branch(zero, plus, leaf, names.skip(1), names[0], items, bound)),
        )
    }
}

/// What picking an item for `name` contributes.
pub open spec fn branch<I, V>(
    zero: V,
    plus: spec_fn(V, V) -> V,
    leaf: spec_fn(Map<Seq<char>, I>) -> V,
    rest: Seq<Seq<char>>,
    name: Seq<char>,
    items: Map<Seq<char>, Seq<I>>,
    bound: Map<Seq<char>, I>,
) -> spec_fn(I) -> V
    decreases rest.len(), 1nat,
{
    |x: I| join_sum(zero, plus, leaf, rest, items, bound.insert(name, x))
}

/// Functions that agree on the items have the same sum.
pub proof fn lemma_total_same<I, V>(
    zero: V,
    plus: spec_fn(V, V) -> V,
    items: Seq<I>,
    f: spec_fn(I) -> V,
    g: spec_fn(I) -> V,
)
    requires
        forall|i: int| 0 <= i < items.len() ==> f(#[trigger] items[i]) == g(items[i]),
    ensures
        total(zero, plus, items.map_values(f)) == total(zero, plus, items.map_values(g)),
{
    assert(items.map_values(f) =~= items.map_values(g));
}

pub proof fn lemma_total_zeros<I, V>(zero: V, plus: spec_fn(V, V) -> V, items: Seq<I>, f: spec_fn(I) -> V)
    requires
        monoid(zero, plus),
        forall|i: int| 0 <= i < items.len() ==> f(#[trigger] items[i]) == zero,
    ensures
        total(zero, plus, items.map_values(f)) == zero,
    decreases items.len(),
{
    if items.len() > 0 {
        let rest = items.drop_last();
        assert forall|i: int| 0 <= i < rest.len() implies f(#[trigger] rest[i]) == zero by {
            assert(f(items[i]) == zero);
        }
        lemma_total_zeros(zero, plus, rest, f);
        assert(items.map_values(f).drop_last() =~= rest.map_values(f));
        assert(f(items[items.len() - 1]) == zero);
        assert(plus(zero, zero) == zero);
    }
}

pub open spec fn rows<I, J, V>(zero: V, plus: spec_fn(V, V) -> V, ys: Seq<J>, f: spec_fn(I, J) -> V) -> spec_fn(I) -> V {
    |x: I| total(zero, plus, ys.map_values(row(f, x)))
}

pub open spec fn row<I, J, V>(f: spec_fn(I, J) -> V, x: I) -> spec_fn(J) -> V {
    |y: J| f(x, y)
}

pub open spec fn flipped<I, J, V>(f: spec_fn(I, J) -> V) -> spec_fn(J, I) -> V {
    |y: J, x: I| f(x, y)
}

/// Row by row or column by column, the sum is the same.
pub proof fn lemma_total_exchange<I, J, V>(
    zero: V,
    plus: spec_fn(V, V) -> V,
    xs: Seq<I>,
    ys: Seq<J>,
    f: spec_fn(I, J) -> V,
)
    requires
        monoid(zero, plus),
    ensures
        total(zero, plus, xs.map_values(rows(zero, plus, ys, f))) == total(
            zero,
            plus,
            ys.map_values(rows(zero, plus, xs, flipped(f))),
        ),
    decreases xs.len(),
{
    let by_x = rows(zero, plus, ys, f);
    let by_y = rows(zero, plus, xs, flipped(f));
    if xs.len() == 0 {
        assert forall|i: int| 0 <= i < ys.len() implies by_y(#[trigger] ys[i]) == zero by {
            assert(xs.map_values(row(flipped(f), ys[i])) =~= Seq::empty());
        }
        lemma_total_zeros(zero, plus, ys, by_y);
        assert(xs.map_values(by_x) =~= Seq::empty());
    } else {
        let rest = xs.drop_last();
        let x = xs.last();
        lemma_total_exchange(zero, plus, rest, ys, f);
        assert(xs.map_values(by_x).drop_last() =~= rest.map_values(by_x));
        let by_rest = rows(zero, plus, rest, flipped(f));
        assert forall|i: int| 0 <= i < ys.len() implies by_y(#[trigger] ys[i]) == plus(
            by_rest(ys[i]),
            row(f, x)(ys[i]),
        ) by {
            let r = row(flipped(f), ys[i]);
            assert(xs.map_values(r).drop_last() =~= rest.map_values(r));
            assert(xs.map_values(r).last() == r(x));
        }
        lemma_total_pointwise(zero, plus, ys, by_rest, row(f, x), by_y);
    }
}

/// If no extension of `bound` contributes, the sum is zero.
pub proof fn lemma_join_sum_zero<I, V>(
    zero: V,
    plus: spec_fn(V, V) -> V,
    leaf: spec_fn(Map<Seq<char>, I>) -> V,
    names: Seq<Seq<char>>,
    items: Map<Seq<char>, Seq<I>>,
    bound: Map<Seq<char>, I>,
)
    requires
        monoid(zero, plus),
        forall|i: int| 0 <= i < names.len() ==> !bound.contains_key(#[trigger] names[i]),
        names.no_duplicates(),
        forall|b: Map<Seq<char>, I>| bound.submap_of(b) ==> #[trigger] leaf(b) == zero,
    ensures
        join_sum(zero, plus, leaf, names, items, bound) == zero,
    decreases names.len(),
{
    if names.len() > 0 {
        let rest = names.skip(1);
        let f = branch(zero, plus, leaf, rest, names[0], items, bound);
        let xs = items[names[0]];
        assert forall|i: int| 0 <= i < xs.len() implies f(#[trigger] xs[i]) == zero by {
            let more = bound.insert(names[0], xs[i]);
            assert(!bound.contains_key(names[0]));
            assert forall|b: Map<Seq<char>, I>| more.submap_of(b) implies #[trigger] leaf(b) == zero by {
                assert(bound.submap_of(b)) by {
                    assert forall|k: Seq<char>| #[trigger] bound.contains_key(k) implies b.contains_key(k) && b[k]
                        == bound[k] by {
                        assert(more.contains_key(k));
                    }
                }
            }
            assert forall|j: int| 0 <= j < rest.len() implies !more.contains_key(#[trigger] rest[j]) by {
                assert(rest[j] == names[j + 1]);
            }
            lemma_join_sum_zero(zero, plus, leaf, rest, items, more);
        }
        lemma_total_zeros(zero, plus, xs, f);
    } else {
        assert(bound.submap_of(bound));
    }
}

/// The order of the items does not matter.
pub proof fn lemma_join_sum_reorder<I, V>(
    zero: V,
    plus: spec_fn(V, V) -> V,
    leaf: spec_fn(Map<Seq<char>, I>) -> V,
    names: Seq<Seq<char>>,
    items: Map<Seq<char>, Seq<I>>,
    others: Map<Seq<char>, Seq<I>>,
    bound: Map<Seq<char>, I>,
)
    requires
        monoid(zero, plus),
        forall|i: int|
            0 <= i < names.len() ==> items[#[trigger] names[i]].to_multiset() == others[names[i]].to_multiset(),
    ensures
        join_sum(zero, plus, leaf, names, items, bound) == join_sum(zero, plus, leaf, names, others, bound),
    decreases names.len(),
{
    if names.len() > 0 {
        let rest = names.skip(1);
        let f = branch(zero, plus, leaf, rest, names[0], items, bound);
        let g = branch(zero, plus, leaf, rest, names[0], others, bound);
        assert forall|x: I| #[trigger] f(x) == g(x) by {
            assert forall|i: int| 0 <= i < rest.len() implies items[#[trigger] rest[i]].to_multiset()
                == others[rest[i]].to_multiset() by {
                assert(rest[i] == names[i + 1]);
            }
            lemma_join_sum_reorder(zero, plus, leaf, rest, items, others, bound.insert(names[0], x));
        }
        let xs = items[names[0]];
        let ys = others[names[0]];
        lemma_total_same(zero, plus, ys, f, g);
        lemma_multiset_images(xs, ys, f, |x: I| true);
        lemma_total_reorder(zero, plus, xs.map_values(f), ys.map_values(f));
    }
}

/// Only the items of the named relations matter.
pub proof fn lemma_join_sum_same_items<I, V>(
    zero: V,
    plus: spec_fn(V, V) -> V,
    leaf: spec_fn(Map<Seq<char>, I>) -> V,
    names: Seq<Seq<char>>,
    items: Map<Seq<char>, Seq<I>>,
    others: Map<Seq<char>, Seq<I>>,
    bound: Map<Seq<char>, I>,
)
    requires
        forall|i: int| 0 <= i < names.len() ==> items[#[trigger] names[i]] == others[names[i]],
    ensures
        join_sum(zero, plus, leaf, names, items, bound) == join_sum(zero, plus, leaf, names, others, bound),
    decreases names.len(),
{
    if names.len() > 0 {
        let rest = names.skip(1);
        let f = branch(zero, plus, leaf, rest, names[0], items, bound);
        let g = branch(zero, plus, leaf, rest, names[0], others, bound);
        let xs = items[names[0]];
        assert forall|i: int| 0 <= i < xs.len() implies f(#[trigger] xs[i]) == g(xs[i]) by {
            assert forall|j: int| 0 <= j < rest.len() implies items[#[trigger] rest[j]] == others[rest[j]] by {
                assert(rest[j] == names[j + 1]);
            }
            lemma_join_sum_same_items(zero, plus, leaf, rest, items, others, bound.insert(names[0], xs[i]));
        }
        lemma_total_same(zero, plus, xs, f, g);
    }
}

/// The sum of a pair of picks.
spec fn two_picks<I, V>(
    zero: V,
    plus: spec_fn(V, V) -> V,
    leaf: spec_fn(Map<Seq<char>, I>) -> V,
    rest: Seq<Seq<char>>,
    a: Seq<char>,
    b: Seq<char>,
    items: Map<Seq<char>, Seq<I>>,
    bound: Map<Seq<char>, I>,
) -> spec_fn(I, I) -> V {
    |x: I, y: I| join_sum(zero, plus, leaf, rest, items, bound.insert(a, x).insert(b, y))
}

/// Two neighbouring names may be picked in either order.
proof fn lemma_join_sum_swap<I, V>(
    zero: V,
    plus: spec_fn(V, V) -> V,
    leaf: spec_fn(Map<Seq<char>, I>) -> V,
    rest: Seq<Seq<char>>,
    a: Seq<char>,
    b: Seq<char>,
    items: Map<Seq<char>, Seq<I>>,
    bound: Map<Seq<char>, I>,
)
    requires
        monoid(zero, plus),
        a != b,
    ensures
        join_sum(zero, plus, leaf, seq![a, b] + rest, items, bound) == join_sum(
            zero,
            plus,
            leaf,
            seq![b, a] + rest,
            items,
            bound,
        ),
{
    let f = two_picks(zero, plus, leaf, rest, a, b, items, bound);
    let xs = items[a];
    let ys = items[b];
    let ab = seq![a, b] + rest;
    let ba = seq![b, a] + rest;
    assert(ab.skip(1) =~= seq![b] + rest);
    assert(ba.skip(1) =~= seq![a] + rest);
    assert((seq![b] + rest).skip(1) =~= rest);
    assert((seq![a] + rest).skip(1) =~= rest);
    let fa = branch(zero, plus, leaf, ab.skip(1), a, items, bound);
    let fb = branch(zero, plus, leaf, ba.skip(1), b, items, bound);
    assert forall|i: int| 0 <= i < xs.len() implies fa(#[trigger] xs[i]) == rows(zero, plus, ys, f)(xs[i]) by {
        let g = branch(zero, plus, leaf, rest, b, items, bound.insert(a, xs[i]));
        lemma_total_same(zero, plus, ys, g, row(f, xs[i]));
    }
    assert forall|i: int| 0 <= i < ys.len() implies fb(#[trigger] ys[i]) == rows(zero, plus, xs, flipped(f))(
        ys[i],
    ) by {
        let g = branch(zero, plus, leaf, rest, a, items, bound.insert(b, ys[i]));
        assert forall|j: int| 0 <= j < xs.len() implies g(#[trigger] xs[j]) == row(flipped(f), ys[i])(xs[j]) by {
            assert(bound.insert(b, ys[i]).insert(a, xs[j]) =~= bound.insert(a, xs[j]).insert(b, ys[i]));
        }
        lemma_total_same(zero, plus, xs, g, row(flipped(f), ys[i]));
    }
    lemma_total_same(zero, plus, xs, fa, rows(zero, plus, ys, f));
    lemma_total_same(zero, plus, ys, fb, rows(zero, plus, xs, flipped(f)));
    lemma_total_exchange(zero, plus, xs, ys, f);
}

/// Any name may be picked first.
pub proof fn lemma_join_sum_front<I, V>(
    zero: V,
    plus: spec_fn(V, V) -> V,
    leaf: spec_fn(Map<Seq<char>, I>) -> V,
    names: Seq<Seq<char>>,
    i: int,
    items: Map<Seq<char>, Seq<I>>,
    bound: Map<Seq<char>, I>,
)
    requires
        monoid(zero, plus),
        names.no_duplicates(),
        0 <= i < names.len(),
    ensures
        join_sum(zero, plus, leaf, names, items, bound) == total(
            zero,
            plus,
            items[names[i]].map_values(branch(zero, plus, leaf, names.remove(i), names[i], items, bound)),
        ),
    decreases i,
{
    if i == 0 {
        assert(names.skip(1) =~= names.remove(0));
    } else {
        let rest = names.skip(1);
        let a = names[0];
        let b = names[i];
        let tail = rest.remove(i - 1);
        let f = branch(zero, plus, leaf, rest, a, items, bound);
        let g = branch(zero, plus, leaf, seq![b] + tail, a, items, bound);
        let xs = items[a];
        assert(rest[i - 1] == b);
        assert((seq![b] + tail).skip(1) =~= tail);
        assert forall|j: int| 0 <= j < xs.len() implies f(#[trigger] xs[j]) == g(xs[j]) by {
            lemma_join_sum_front(zero, plus, leaf, rest, i - 1, items, bound.insert(a, xs[j]));
        }
        lemma_total_same(zero, plus, xs, f, g);
        assert((seq![a, b] + tail).skip(1) =~= seq![b] + tail);
        assert(join_sum(zero, plus, leaf, names, items, bound) == join_sum(
            zero,
            plus,
            leaf,
            seq![a, b] + tail,
            items,
            bound,
        ));
        lemma_join_sum_swap(zero, plus, leaf, tail, a, b, items, bound);
        assert((seq![b, a] + tail).skip(1) =~= names.remove(i));
    }
}

/// Additive functions may be applied to the leaves.
pub proof fn lemma_join_sum_additive<I, V, W>(
    h: spec_fn(V) -> W,
    zero: V,
    plus: spec_fn(V, V) -> V,
    leaf: spec_fn(Map<Seq<char>, I>) -> V,
    zero_w: W,
    plus_w: spec_fn(W, W) -> W,
    leaf_w: spec_fn(Map<Seq<char>, I>) -> W,
    names: Seq<Seq<char>>,
    items: Map<Seq<char>, Seq<I>>,
    bound: Map<Seq<char>, I>,
)
    requires
        additive(h, zero, plus, zero_w, plus_w),
        forall|b: Map<Seq<char>, I>| #[trigger] leaf_w(b) == h(leaf(b)),
    ensures
        h(join_sum(zero, plus, leaf, names, items, bound)) == join_sum(zero_w, plus_w, leaf_w, names, items, bound),
    decreases names.len(),
{
    if names.len() > 0 {
        let rest = names.skip(1);
        let f = branch(zero, plus, leaf, rest, names[0], items, bound);
        let g = branch(zero_w, plus_w, leaf_w, rest, names[0], items, bound);
        let xs = items[names[0]];
        lemma_total_additive(h, zero, plus, zero_w, plus_w, xs.map_values(f));
        assert forall|i: int| 0 <= i < xs.len() implies h(f(xs[i])) == #[trigger] g(xs[i]) by {
            lemma_join_sum_additive(
                h,
                zero,
                plus,
                leaf,
                zero_w,
                plus_w,
                leaf_w,
                rest,
                items,
                bound.insert(names[0], xs[i]),
            );
        }
        assert(xs.map_values(f).map_values(h) =~= xs.map_values(g));
    } else {
        assert(leaf_w(bound) == h(leaf(bound)));
    }
}

} // verus!
