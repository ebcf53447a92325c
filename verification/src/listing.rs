//! Finite listings: the sequence-level vocabulary that the indexes' contracts
//! are written in, and the lemmas that carry it through nested containers.
use vstd::prelude::*;

verus! {

/// `==` on `T` decides identity and `clone` hands back the same value.
///
/// Every integer type, `bool`, `char` and tuples of them are lawful.
pub open spec fn lawful<T: Eq + Clone>() -> bool {
    &&& vstd::laws_eq::obeys_concrete_eq::<T>()
    &&& forall|a: T, b: T| #[trigger] cloned::<T>(a, b) ==> a == b
}

/// Compares two values of a lawful type.
pub(crate) fn same<T: Eq + Clone>(a: &T, b: &T) -> (r: bool)
    requires
        lawful::<T>(),
    ensures
        r == (*a == *b),
{
    reveal(vstd::laws_eq::obeys_concrete_eq);
    *a == *b
}

/// Copies a value of a lawful type.
pub(crate) fn dup<T: Eq + Clone>(a: &T) -> (r: T)
    requires
        lawful::<T>(),
    ensures
        r == *a,
{
    let r = a.clone();
    assert(cloned::<T>(*a, r));
    r
}

/// `after` is `before` with one occurrence of `x` put in at some position.
pub open spec fn inserted<A>(before: Seq<A>, after: Seq<A>, x: A) -> bool {
    exists|i: int| 0 <= i <= before.len() && after == #[trigger] before.insert(i, x)
}

/// The listing of `n` copies of `x`.
pub open spec fn repeated<A>(x: A, n: nat) -> Seq<A> {
    Seq::new(n, |i: int| x)
}

/// The listings of all elements of `s`, one behind the other.
pub open spec fn concat<A, B>(s: Seq<A>, f: spec_fn(A) -> Seq<B>) -> Seq<B>
    decreases s.len(),
{
    if s.len() == 0 {
        Seq::empty()
    } else {
        concat(s.drop_last(), f) + f(s.last())
    }
}

pub proof fn lemma_concat_add<A, B>(s: Seq<A>, t: Seq<A>, f: spec_fn(A) -> Seq<B>)
    ensures
        concat(s + t, f) == concat(s, f) + concat(t, f),
    decreases t.len(),
{
    if t.len() == 0 {
        assert(s + t =~= s);
    } else {
        assert((s + t).drop_last() =~= s + t.drop_last());
        lemma_concat_add(s, t.drop_last(), f);
    }
}

pub proof fn lemma_concat_one<A, B>(a: A, f: spec_fn(A) -> Seq<B>)
    ensures
        concat(seq![a], f) == f(a),
{
    assert(seq![a].drop_last() =~= Seq::<A>::empty());
    assert(concat(seq![a].drop_last(), f) =~= Seq::<B>::empty());
    assert(concat(seq![a], f) =~= f(a));
}

/// Splits the concatenation around the element at `i`.
pub proof fn lemma_concat_split<A, B>(s: Seq<A>, i: int, f: spec_fn(A) -> Seq<B>)
    requires
        0 <= i < s.len(),
    ensures
        concat(s, f) == concat(s.take(i), f) + f(s[i]) + concat(s.skip(i + 1), f),
{
    let head = s.take(i);
    let tail = s.skip(i + 1);
    assert(s =~= head + seq![s[i]] + tail);
    lemma_concat_add(head + seq![s[i]], tail, f);
    lemma_concat_add(head, seq![s[i]], f);
    lemma_concat_one(s[i], f);
}

pub proof fn lemma_concat_take<A, B>(s: Seq<A>, i: int, f: spec_fn(A) -> Seq<B>)
    requires
        0 <= i < s.len(),
    ensures
        concat(s.take(i + 1), f) == concat(s.take(i), f) + f(s[i]),
{
    assert(s.take(i + 1).drop_last() =~= s.take(i));
}

pub proof fn lemma_concat_update<A, B>(s: Seq<A>, i: int, t: A, f: spec_fn(A) -> Seq<B>)
    requires
        0 <= i < s.len(),
    ensures
        concat(s.update(i, t), f) == concat(s.take(i), f) + f(t) + concat(s.skip(i + 1), f),
{
    let u = s.update(i, t);
    lemma_concat_split(u, i, f);
    assert(u.take(i) =~= s.take(i));
    assert(u.skip(i + 1) =~= s.skip(i + 1));
}

pub proof fn lemma_concat_remove<A, B>(s: Seq<A>, i: int, f: spec_fn(A) -> Seq<B>)
    requires
        0 <= i < s.len(),
    ensures
        concat(s.remove(i), f) == concat(s.take(i), f) + concat(s.skip(i + 1), f),
{
    assert(s.remove(i) =~= s.take(i) + s.skip(i + 1));
    lemma_concat_add(s.take(i), s.skip(i + 1), f);
}

pub proof fn lemma_concat_insert<A, B>(s: Seq<A>, i: int, t: A, f: spec_fn(A) -> Seq<B>)
    requires
        0 <= i <= s.len(),
    ensures
        concat(s.insert(i, t), f) == concat(s.take(i), f) + f(t) + concat(s.skip(i), f),
{
    let u = s.insert(i, t);
    lemma_concat_split(u, i, f);
    assert(u.take(i) =~= s.take(i));
    assert(u.skip(i + 1) =~= s.skip(i));
}

/// Every element's listing is part of the concatenation.
pub proof fn lemma_concat_len_ge<A, B>(s: Seq<A>, i: int, f: spec_fn(A) -> Seq<B>)
    requires
        0 <= i < s.len(),
    ensures
        f(s[i]).len() <= concat(s, f).len(),
{
    lemma_concat_split(s, i, f);
}

/// The concatenation of the first `i` listings is no longer than the whole.
pub proof fn lemma_concat_take_len<A, B>(s: Seq<A>, i: int, f: spec_fn(A) -> Seq<B>)
    requires
        0 <= i <= s.len(),
    ensures
        concat(s.take(i), f).len() <= concat(s, f).len(),
{
    assert(s =~= s.take(i) + s.skip(i));
    lemma_concat_add(s.take(i), s.skip(i), f);
}

pub proof fn lemma_concat_filter<A, B>(
    s: Seq<A>,
    f: spec_fn(A) -> Seq<B>,
    g: spec_fn(A) -> Seq<B>,
    p: spec_fn(B) -> bool,
)
    requires
        forall|i: int| 0 <= i < s.len() ==> #[trigger] g(s[i]) == f(s[i]).filter(p),
    ensures
        concat(s, f).filter(p) == concat(s, g),
    decreases s.len(),
{
    reveal(Seq::filter);
    if s.len() == 0 {
    } else {
        let t = s.drop_last();
        assert forall|i: int| 0 <= i < t.len() implies #[trigger] g(t[i]) == f(t[i]).filter(p) by {
            assert(g(s[i]) == f(s[i]).filter(p));
        }
        lemma_concat_filter(t, f, g, p);
        Seq::filter_distributes_over_add(concat(t, f), f(s.last()), p);
        assert(g(s[s.len() - 1]) == f(s[s.len() - 1]).filter(p));
    }
}

/// Only one element lists anything.
pub proof fn lemma_concat_only<A, B>(s: Seq<A>, i: int, f: spec_fn(A) -> Seq<B>)
    requires
        0 <= i < s.len(),
        forall|j: int| 0 <= j < s.len() && j != i ==> f(#[trigger] s[j]).len() == 0,
    ensures
        concat(s, f) == f(s[i]),
{
    lemma_concat_split(s, i, f);
    lemma_concat_none(s.take(i), f);
    lemma_concat_none(s.skip(i + 1), f);
    assert(concat(s.take(i), f) + f(s[i]) + concat(s.skip(i + 1), f) =~= f(s[i]));
}

pub proof fn lemma_concat_none<A, B>(s: Seq<A>, f: spec_fn(A) -> Seq<B>)
    requires
        forall|j: int| 0 <= j < s.len() ==> f(#[trigger] s[j]).len() == 0,
    ensures
        concat(s, f).len() == 0,
    decreases s.len(),
{
    if s.len() > 0 {
        let t = s.drop_last();
        assert forall|j: int| 0 <= j < t.len() implies f(#[trigger] t[j]).len() == 0 by {
            assert(f(s[j]).len() == 0);
        }
        lemma_concat_none(t, f);
        assert(f(s[s.len() - 1]).len() == 0);
    }
}

pub proof fn lemma_inserted_within<A>(head: Seq<A>, before: Seq<A>, after: Seq<A>, tail: Seq<A>, x: A)
    requires
        inserted(before, after, x),
    ensures
        inserted(head + before + tail, head + after + tail, x),
{
    let i = choose|i: int| 0 <= i <= before.len() && after == #[trigger] before.insert(i, x);
    assert(head + after + tail =~= (head + before + tail).insert(head.len() + i, x));
}

/// One more item in one element's listing is one more item in all.
pub proof fn lemma_concat_grow<A, B>(s: Seq<A>, i: int, t: A, f: spec_fn(A) -> Seq<B>, x: B)
    requires
        0 <= i < s.len(),
        inserted(f(s[i]), f(t), x),
    ensures
        inserted(concat(s, f), concat(s.update(i, t), f), x),
{
    lemma_concat_split(s, i, f);
    lemma_concat_update(s, i, t, f);
    lemma_inserted_within(concat(s.take(i), f), f(s[i]), f(t), concat(s.skip(i + 1), f), x);
}

/// One item less in one element's listing is one item less in all.
pub proof fn lemma_concat_shrink<A, B>(s: Seq<A>, i: int, t: A, f: spec_fn(A) -> Seq<B>, x: B)
    requires
        0 <= i < s.len(),
        inserted(f(t), f(s[i]), x),
    ensures
        inserted(concat(s.update(i, t), f), concat(s, f), x),
{
    lemma_concat_split(s, i, f);
    lemma_concat_update(s, i, t, f);
    lemma_inserted_within(concat(s.take(i), f), f(t), f(s[i]), concat(s.skip(i + 1), f), x);
}

/// A new element that lists one item.
pub proof fn lemma_concat_grow_new<A, B>(s: Seq<A>, i: int, t: A, f: spec_fn(A) -> Seq<B>, x: B)
    requires
        0 <= i <= s.len(),
        f(t) == seq![x],
    ensures
        inserted(concat(s, f), concat(s.insert(i, t), f), x),
{
    lemma_concat_insert(s, i, t, f);
    assert(s =~= s.take(i) + s.skip(i));
    lemma_concat_add(s.take(i), s.skip(i), f);
    let h = concat(s.take(i), f);
    let e = concat(s.skip(i), f);
    assert(h + seq![x] + e =~= (h + e).insert(h.len() as int, x));
}

/// Dropping an element that lists nothing changes nothing.
pub proof fn lemma_concat_drop_empty<A, B>(s: Seq<A>, i: int, f: spec_fn(A) -> Seq<B>)
    requires
        0 <= i < s.len(),
        f(s[i]).len() == 0,
    ensures
        concat(s.remove(i), f) == concat(s, f),
{
    lemma_concat_split(s, i, f);
    lemma_concat_remove(s, i, f);
    let h = concat(s.take(i), f);
    let e = concat(s.skip(i + 1), f);
    assert(h + f(s[i]) + e =~= h + e);
}

pub proof fn lemma_concat_contains<A, B>(s: Seq<A>, f: spec_fn(A) -> Seq<B>, x: B)
    ensures
        concat(s, f).contains(x) <==> exists|i: int| 0 <= i < s.len() && f(#[trigger] s[i]).contains(x),
    decreases s.len(),
{
    if s.len() > 0 {
        let t = s.drop_last();
        lemma_concat_contains(t, f, x);
        let l = concat(t, f);
        let m = f(s.last());
        if concat(s, f).contains(x) {
            let k = choose|k: int| 0 <= k < concat(s, f).len() && concat(s, f)[k] == x;
            if k < l.len() {
                assert(l[k] == x);
                let i = choose|i: int| 0 <= i < t.len() && f(#[trigger] t[i]).contains(x);
                assert(f(s[i]).contains(x));
            } else {
                assert(m[k - l.len()] == x);
                assert(f(s[s.len() - 1]).contains(x));
            }
        }
        if exists|i: int| 0 <= i < s.len() && f(#[trigger] s[i]).contains(x) {
            let i = choose|i: int| 0 <= i < s.len() && f(#[trigger] s[i]).contains(x);
            if i < t.len() {
                assert(f(t[i]).contains(x));
                let k = choose|k: int| 0 <= k < l.len() && l[k] == x;
                assert(concat(s, f)[k] == x);
            } else {
                let k = choose|k: int| 0 <= k < m.len() && m[k] == x;
                assert(concat(s, f)[k + l.len()] == x);
            }
        }
    }
}

pub proof fn lemma_inserted_map<A, B>(before: Seq<A>, after: Seq<A>, x: A, g: spec_fn(A) -> B)
    requires
        inserted(before, after, x),
    ensures
        inserted(before.map_values(g), after.map_values(g), g(x)),
{
    let i = choose|i: int| 0 <= i <= before.len() && after == #[trigger] before.insert(i, x);
    assert(after.map_values(g) =~= before.map_values(g).insert(i, g(x)));
}

pub proof fn lemma_inserted_filter<A>(before: Seq<A>, after: Seq<A>, x: A, p: spec_fn(A) -> bool)
    requires
        inserted(before, after, x),
    ensures
        p(x) ==> inserted(before.filter(p), after.filter(p), x),
        !p(x) ==> after.filter(p) == before.filter(p),
{
    let i = choose|i: int| 0 <= i <= before.len() && after == #[trigger] before.insert(i, x);
    let head = before.take(i);
    let tail = before.skip(i);
    assert(before =~= head + tail);
    assert(after =~= head + seq![x] + tail);
    Seq::filter_distributes_over_add(head, tail, p);
    Seq::filter_distributes_over_add(head + seq![x], tail, p);
    Seq::filter_distributes_over_add(head, seq![x], p);
    assert(seq![x].drop_last() =~= Seq::<A>::empty());
    reveal(Seq::filter);
    assert(seq![x].drop_last().filter(p) =~= Seq::<A>::empty());
    if p(x) {
        assert(seq![x].filter(p) =~= seq![x]);
        assert(after.filter(p) =~= before.filter(p).insert(head.filter(p).len() as int, x));
    } else {
        assert(seq![x].filter(p) =~= Seq::<A>::empty());
        assert(after.filter(p) =~= before.filter(p));
    }
}

pub proof fn lemma_inserted_multiset<A>(before: Seq<A>, after: Seq<A>, x: A)
    requires
        inserted(before, after, x),
    ensures
        after.to_multiset() == before.to_multiset().insert(x),
        after.len() == before.len() + 1,
{
    broadcast use vstd::seq_lib::group_to_multiset_ensures;

    let i = choose|i: int| 0 <= i <= before.len() && after == #[trigger] before.insert(i, x);
    vstd::seq_lib::to_multiset_insert(before, i, x);
}

pub proof fn lemma_map_filter<A, B>(
    s: Seq<A>,
    g: spec_fn(A) -> B,
    p: spec_fn(B) -> bool,
    q: spec_fn(A) -> bool,
)
    requires
        forall|a: A| #[trigger] q(a) == p(g(a)),
    ensures
        s.map_values(g).filter(p) == s.filter(q).map_values(g),
    decreases s.len(),
{
    reveal(Seq::filter);
    if s.len() == 0 {
        assert(s.map_values(g).filter(p) =~= s.filter(q).map_values(g));
    } else {
        let t = s.drop_last();
        lemma_map_filter(t, g, p, q);
        assert(s.map_values(g).drop_last() =~= t.map_values(g));
        assert(s.map_values(g).last() == g(s.last()));
        assert(q(s.last()) == p(g(s.last())));
        if q(s.last()) {
            assert(s.filter(q).map_values(g) =~= t.filter(q).map_values(g).push(g(s.last())));
        }
    }
}

/// A predicate that holds of no element filters everything out, one that
/// holds of all keeps the listing.
pub proof fn lemma_filter_all_or_none<A>(s: Seq<A>, p: spec_fn(A) -> bool)
    ensures
        (forall|i: int| 0 <= i < s.len() ==> !p(#[trigger] s[i])) ==> s.filter(p) == Seq::<A>::empty(),
        (forall|i: int| 0 <= i < s.len() ==> p(#[trigger] s[i])) ==> s.filter(p) == s,
    decreases s.len(),
{
    reveal(Seq::filter);
    if s.len() == 0 {
        assert(s.filter(p) =~= Seq::<A>::empty());
    } else {
        let t = s.drop_last();
        lemma_filter_all_or_none(t, p);
        if forall|i: int| 0 <= i < s.len() ==> !p(#[trigger] s[i]) {
            assert forall|i: int| 0 <= i < t.len() implies !p(#[trigger] t[i]) by {
                assert(!p(s[i]));
            }
            assert(!p(s[s.len() - 1]));
        }
        if forall|i: int| 0 <= i < s.len() ==> p(#[trigger] s[i]) {
            assert forall|i: int| 0 <= i < t.len() implies p(#[trigger] t[i]) by {
                assert(p(s[i]));
            }
            assert(p(s[s.len() - 1]));
            assert(t.push(s.last()) =~= s);
        }
    }
}

pub proof fn lemma_filter_three<A>(a: Seq<A>, b: Seq<A>, c: Seq<A>, p: spec_fn(A) -> bool)
    ensures
        (a + b + c).filter(p) == a.filter(p) + b.filter(p) + c.filter(p),
{
    Seq::filter_distributes_over_add(a + b, c, p);
    Seq::filter_distributes_over_add(a, b, p);
}

pub proof fn lemma_filter_same<A>(s: Seq<A>, p: spec_fn(A) -> bool, q: spec_fn(A) -> bool)
    requires
        forall|i: int| 0 <= i < s.len() ==> p(#[trigger] s[i]) == q(s[i]),
    ensures
        s.filter(p) == s.filter(q),
    decreases s.len(),
{
    reveal(Seq::filter);
    if s.len() > 0 {
        let t = s.drop_last();
        assert forall|i: int| 0 <= i < t.len() implies p(#[trigger] t[i]) == q(t[i]) by {
            assert(p(s[i]) == q(s[i]));
        }
        lemma_filter_same(t, p, q);
        assert(p(s[s.len() - 1]) == q(s[s.len() - 1]));
    }
}

pub proof fn lemma_multiset_add<A>(s: Seq<A>, t: Seq<A>)
    ensures
        (s + t).to_multiset() =~= s.to_multiset().add(t.to_multiset()),
    decreases t.len(),
{
    broadcast use vstd::seq_lib::group_to_multiset_ensures;

    if t.len() == 0 {
        assert(s + t =~= s);
    } else {
        lemma_multiset_add(s, t.drop_last());
        assert(s + t =~= (s + t.drop_last()).push(t.last()));
        assert(t =~= t.drop_last().push(t.last()));
    }
}

pub proof fn lemma_multiset_empty<A>()
    ensures
        Seq::<A>::empty().to_multiset() == vstd::multiset::Multiset::<A>::empty(),
{
    broadcast use vstd::seq_lib::group_to_multiset_ensures;

    let e = Seq::<A>::empty().to_multiset();
    assert forall|a: A| e.count(a) == 0 by {
        if e.count(a) > 0 {
            vstd::seq_lib::to_multiset_contains(Seq::<A>::empty(), a);
        }
    }
    assert(e =~= vstd::multiset::Multiset::<A>::empty());
}

pub proof fn lemma_multiset_repeated<A>(x: A, n: nat)
    ensures
        repeated(x, n).to_multiset().count(x) == n,
        forall|y: A| y != x ==> #[trigger] repeated(x, n).to_multiset().count(y) == 0,
    decreases n,
{
    broadcast use vstd::seq_lib::group_to_multiset_ensures;

    if n == 0 {
        assert(repeated(x, n) =~= Seq::<A>::empty());
    } else {
        lemma_multiset_repeated(x, (n - 1) as nat);
        assert(repeated(x, n) =~= repeated(x, (n - 1) as nat).push(x));
    }
}

/// Filtering looks at the first item and at the rest.
pub proof fn lemma_filter_front<A>(x: A, rest: Seq<A>, p: spec_fn(A) -> bool)
    ensures
        (seq![x] + rest).filter(p) == if p(x) {
            seq![x] + rest.filter(p)
        } else {
            rest.filter(p)
        },
    decreases rest.len(),
{
    reveal(Seq::filter);
    let all = seq![x] + rest;
    if rest.len() == 0 {
        assert(all.drop_last() =~= Seq::empty());
        assert(all.last() == x);
        assert(Seq::<A>::empty().filter(p) =~= Seq::empty());
        assert(rest.filter(p) =~= Seq::empty());
        assert(all.filter(p) =~= if p(x) { seq![x] + rest.filter(p) } else { rest.filter(p) });
    } else {
        assert(all.drop_last() =~= seq![x] + rest.drop_last());
        assert(all.last() == rest.last());
        lemma_filter_front(x, rest.drop_last(), p);
        assert(all.filter(p) =~= if p(x) { seq![x] + rest.filter(p) } else { rest.filter(p) });
    }
}

/// Listings of the same items stay so when every item is mapped, and when some
/// are taken out.
pub proof fn lemma_multiset_images<A, B>(s: Seq<A>, t: Seq<A>, f: spec_fn(A) -> B, p: spec_fn(A) -> bool)
    requires
        s.to_multiset() == t.to_multiset(),
    ensures
        s.map_values(f).to_multiset() == t.map_values(f).to_multiset(),
        s.filter(p).to_multiset() == t.filter(p).to_multiset(),
    decreases s.len(),
{
    broadcast use vstd::seq_lib::group_to_multiset_ensures;

    vstd::seq_lib::to_multiset_len(s);
    vstd::seq_lib::to_multiset_len(t);
    if s.len() == 0 {
        assert(s =~= t);
    } else {
        let x = s.last();
        vstd::seq_lib::to_multiset_contains(s, x);
        vstd::seq_lib::to_multiset_contains(t, x);
        assert(s.contains(x));
        let i = choose|i: int| 0 <= i < t.len() && t[i] == x;
        let rest = t.remove(i);
        assert(t =~= rest.insert(i, x));
        vstd::seq_lib::to_multiset_insert(rest, i, x);
        assert(s =~= s.drop_last().push(x));
        assert(s.drop_last().to_multiset() =~= rest.to_multiset());
        lemma_multiset_images(s.drop_last(), rest, f, p);
        assert(inserted(rest, t, x));
        lemma_inserted_images(rest, t, x, f, p);
        assert(s =~= s.drop_last().insert(s.len() - 1, x));
        assert(inserted(s.drop_last(), s, x));
        lemma_inserted_images(s.drop_last(), s, x, f, p);
    }
}

proof fn lemma_inserted_images<A, B>(before: Seq<A>, after: Seq<A>, x: A, f: spec_fn(A) -> B, p: spec_fn(A) -> bool)
    requires
        inserted(before, after, x),
    ensures
        after.map_values(f).to_multiset() == before.map_values(f).to_multiset().insert(f(x)),
        after.filter(p).to_multiset() == if p(x) {
            before.filter(p).to_multiset().insert(x)
        } else {
            before.filter(p).to_multiset()
        },
{
    lemma_inserted_map(before, after, x, f);
    lemma_inserted_multiset(before.map_values(f), after.map_values(f), f(x));
    lemma_inserted_filter(before, after, x, p);
    if p(x) {
        lemma_inserted_multiset(before.filter(p), after.filter(p), x);
    }
}

/// What a filter keeps is in the listing and satisfies the condition.
pub proof fn lemma_filter_member<A>(s: Seq<A>, p: spec_fn(A) -> bool, i: int)
    requires
        0 <= i < s.filter(p).len(),
    ensures
        s.contains(s.filter(p)[i]),
        p(s.filter(p)[i]),
    decreases s.len(),
{
    reveal(Seq::filter);
    if s.len() > 0 {
        let d = s.drop_last();
        let f = d.filter(p);
        if i < f.len() {
            lemma_filter_member(d, p, i);
            let k = choose|k: int| 0 <= k < d.len() && d[k] == f[i];
            assert(s[k] == f[i]);
        } else {
            assert(s[s.len() - 1] == s.last());
        }
    }
}

/// A filter keeps what satisfies the condition.
pub proof fn lemma_filter_keeps<A>(s: Seq<A>, p: spec_fn(A) -> bool, v: A)
    requires
        s.contains(v),
        p(v),
    ensures
        s.filter(p).contains(v),
    decreases s.len(),
{
    reveal(Seq::filter);
    let d = s.drop_last();
    let f = d.filter(p);
    let k = choose|k: int| 0 <= k < s.len() && s[k] == v;
    if k < d.len() {
        assert(d[k] == v);
        lemma_filter_keeps(d, p, v);
        let j = choose|j: int| 0 <= j < f.len() && f[j] == v;
        assert(s.filter(p)[j] == v);
    } else {
        assert(s.filter(p)[f.len() as int] == v);
    }
}

pub proof fn lemma_filter_distinct<A>(s: Seq<A>, p: spec_fn(A) -> bool)
    requires
        s.no_duplicates(),
    ensures
        s.filter(p).no_duplicates(),
    decreases s.len(),
{
    reveal(Seq::filter);
    if s.len() > 0 {
        let d = s.drop_last();
        let f = d.filter(p);
        lemma_filter_distinct(d, p);
        assert forall|i: int| 0 <= i < f.len() implies #[trigger] f[i] != s.last() by {
            lemma_filter_member(d, p, i);
            let k = choose|k: int| 0 <= k < d.len() && d[k] == f[i];
            assert(s[k] == f[i]);
        }
    }
}

} // verus!
