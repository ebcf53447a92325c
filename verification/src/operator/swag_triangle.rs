//! Aggregation over a triangle of three joined relations.
use std::marker::PhantomData;

use vstd::prelude::*;

use crate::algebra::{additive, group, monoid, total};
use crate::listing::{concat, lemma_concat_take, repeated};
use crate::operator::payload_counts::{copies, PayloadCounts};
use crate::wrapping::{lemma_add_laws, lemma_mul_laws};

verus! {

/// Ring of an aggregate over triangles: elements of the relations A, B and C
/// contribute payloads, and a triangle contributes their product.
///
/// `(V, add, zero, negate)` must be an Abelian group, the payloads of each
/// relation a commutative monoid, and the product additive in each factor; see
/// [`is_triangle_ring`].
///
/// An implementation in plain Rust leaves the spec functions out. Each then has
/// one unknown value for all arguments, so that the contracts over them say
/// nothing of such an implementation.
pub trait TriangleJoinAggregateSpec {
    type A;

    type B;

    type C;

    type PA: Eq + Clone;

    type PB: Eq + Clone;

    type PC: Eq + Clone;

    type V: Clone;

    open spec fn spec_payload_a(&self, a: Self::A) -> Self::PA {
        arbitrary()
    }

    open spec fn spec_zero_a(&self) -> Self::PA {
        arbitrary()
    }

    open spec fn spec_add_a(&self, x: Self::PA, y: Self::PA) -> Self::PA {
        arbitrary()
    }

    open spec fn spec_payload_b(&self, b: Self::B) -> Self::PB {
        arbitrary()
    }

    open spec fn spec_zero_b(&self) -> Self::PB {
        arbitrary()
    }

    open spec fn spec_add_b(&self, x: Self::PB, y: Self::PB) -> Self::PB {
        arbitrary()
    }

    open spec fn spec_payload_c(&self, c: Self::C) -> Self::PC {
        arbitrary()
    }

    open spec fn spec_zero_c(&self) -> Self::PC {
        arbitrary()
    }

    open spec fn spec_add_c(&self, x: Self::PC, y: Self::PC) -> Self::PC {
        arbitrary()
    }

    open spec fn spec_zero(&self) -> Self::V {
        arbitrary()
    }

    open spec fn spec_add(&self, x: Self::V, y: Self::V) -> Self::V {
        arbitrary()
    }

    open spec fn spec_negate(&self, v: Self::V) -> Self::V {
        arbitrary()
    }

    open spec fn spec_multiply_triple(&self, a: Self::PA, b: Self::PB, c: Self::PC) -> Self::V {
        arbitrary()
    }

    open spec fn spec_name(&self) -> Seq<char> {
        arbitrary()
    }

    /// Payload of an element of A.
    fn payload_a(&self, a: &Self::A) -> (r: Self::PA)
        ensures
            r == self.spec_payload_a(*a),
    ;

    fn zero_a(&self) -> (r: Self::PA)
        ensures
            r == self.spec_zero_a(),
    ;

    fn add_a(&self, x: &Self::PA, y: &Self::PA) -> (r: Self::PA)
        ensures
            r == self.spec_add_a(*x, *y),
    ;

    /// Payload of an element of B.
    fn payload_b(&self, b: &Self::B) -> (r: Self::PB)
        ensures
            r == self.spec_payload_b(*b),
    ;

    fn zero_b(&self) -> (r: Self::PB)
        ensures
            r == self.spec_zero_b(),
    ;

    fn add_b(&self, x: &Self::PB, y: &Self::PB) -> (r: Self::PB)
        ensures
            r == self.spec_add_b(*x, *y),
    ;

    /// Payload of an element of C.
    fn payload_c(&self, c: &Self::C) -> (r: Self::PC)
        ensures
            r == self.spec_payload_c(*c),
    ;

    fn zero_c(&self) -> (r: Self::PC)
        ensures
            r == self.spec_zero_c(),
    ;

    fn add_c(&self, x: &Self::PC, y: &Self::PC) -> (r: Self::PC)
        ensures
            r == self.spec_add_c(*x, *y),
    ;

    /// Aggregate-level zero.
    fn zero(&self) -> (r: Self::V)
        ensures
            r == self.spec_zero(),
    ;

    /// Aggregate-level addition.
    fn add(&self, x: &Self::V, y: &Self::V) -> (r: Self::V)
        ensures
            r == self.spec_add(*x, *y),
    ;

    /// Aggregate-level additive inverse.
    fn negate(&self, v: &Self::V) -> (r: Self::V)
        ensures
            r == self.spec_negate(*v),
    ;

    /// The product of one payload of each relation.
    fn multiply_triple(&self, a: &Self::PA, b: &Self::PB, c: &Self::PC) -> (r: Self::V)
        ensures
            r == self.spec_multiply_triple(*a, *b, *c),
    ;

    /// The sum of a bag of payloads of A.
    fn aggregate_range_a(&self, payload_counts: &PayloadCounts<Self::PA>) -> (r: Self::PA)
        ensures
            r == total(
                self.spec_zero_a(),
                |x: Self::PA, y: Self::PA| self.spec_add_a(x, y),
                payload_counts.items(),
            ),
    {
        let list = payload_counts.entries();
        let ghost es = payload_counts@;
        let ghost zero = self.spec_zero_a();
        let ghost plus = |x: Self::PA, y: Self::PA| self.spec_add_a(x, y);
        let mut sum = self.zero_a();
        let mut i: usize = 0;
        assert(es.take(0) =~= Seq::<(Self::PA, u64)>::empty());
        while i < list.len()
            invariant
                list@ == es,
                i <= es.len(),
                forall|x: Self::PA, y: Self::PA| #[trigger] plus(x, y) == self.spec_add_a(x, y),
                sum == total(zero, plus, concat(es.take(i as int), copies())),
            decreases es.len() - i,
        {
            let ghost base = concat(es.take(i as int), copies());
            let ghost p = es[i as int].0;
            let n: u64 = list[i].1;
            let mut j: u64 = 0;
            assert(base + repeated(p, 0) =~= base);
            while j < n
                invariant
                    list@ == es,
                    i < es.len(),
                    p == es[i as int].0,
                    j <= n,
                    forall|x: Self::PA, y: Self::PA| #[trigger] plus(x, y) == self.spec_add_a(x, y),
                    sum == total(zero, plus, base + repeated(p, j as nat)),
                decreases n - j,
            {
                sum = self.add_a(&sum, &list[i].0);
                proof {
                    let more = base + repeated(p, (j + 1) as nat);
                    assert(more.drop_last() =~= base + repeated(p, j as nat));
                    assert(more.last() == p);
                }
                j += 1;
            }
            proof {
                lemma_concat_take(es, i as int, copies());
            }
            i += 1;
        }
        assert(es.take(i as int) =~= es);
        sum
    }

    /// The sum of a bag of payloads of B.
    fn aggregate_range_b(&self, payload_counts: &PayloadCounts<Self::PB>) -> (r: Self::PB)
        ensures
            r == total(
                self.spec_zero_b(),
                |x: Self::PB, y: Self::PB| self.spec_add_b(x, y),
                payload_counts.items(),
            ),
    {
        let list = payload_counts.entries();
        let ghost es = payload_counts@;
        let ghost zero = self.spec_zero_b();
        let ghost plus = |x: Self::PB, y: Self::PB| self.spec_add_b(x, y);
        let mut sum = self.zero_b();
        let mut i: usize = 0;
        assert(es.take(0) =~= Seq::<(Self::PB, u64)>::empty());
        while i < list.len()
            invariant
                list@ == es,
                i <= es.len(),
                forall|x: Self::PB, y: Self::PB| #[trigger] plus(x, y) == self.spec_add_b(x, y),
                sum == total(zero, plus, concat(es.take(i as int), copies())),
            decreases es.len() - i,
        {
            let ghost base = concat(es.take(i as int), copies());
            let ghost p = es[i as int].0;
            let n: u64 = list[i].1;
            let mut j: u64 = 0;
            assert(base + repeated(p, 0) =~= base);
            while j < n
                invariant
                    list@ == es,
                    i < es.len(),
                    p == es[i as int].0,
                    j <= n,
                    forall|x: Self::PB, y: Self::PB| #[trigger] plus(x, y) == self.spec_add_b(x, y),
                    sum == total(zero, plus, base + repeated(p, j as nat)),
                decreases n - j,
            {
                sum = self.add_b(&sum, &list[i].0);
                proof {
                    let more = base + repeated(p, (j + 1) as nat);
                    assert(more.drop_last() =~= base + repeated(p, j as nat));
                    assert(more.last() == p);
                }
                j += 1;
            }
            proof {
                lemma_concat_take(es, i as int, copies());
            }
            i += 1;
        }
        assert(es.take(i as int) =~= es);
        sum
    }

    /// The sum of a bag of payloads of C.
    fn aggregate_range_c(&self, payload_counts: &PayloadCounts<Self::PC>) -> (r: Self::PC)
        ensures
            r == total(
                self.spec_zero_c(),
                |x: Self::PC, y: Self::PC| self.spec_add_c(x, y),
                payload_counts.items(),
            ),
    {
        let list = payload_counts.entries();
        let ghost es = payload_counts@;
        let ghost zero = self.spec_zero_c();
        let ghost plus = |x: Self::PC, y: Self::PC| self.spec_add_c(x, y);
        let mut sum = self.zero_c();
        let mut i: usize = 0;
        assert(es.take(0) =~= Seq::<(Self::PC, u64)>::empty());
        while i < list.len()
            invariant
                list@ == es,
                i <= es.len(),
                forall|x: Self::PC, y: Self::PC| #[trigger] plus(x, y) == self.spec_add_c(x, y),
                sum == total(zero, plus, concat(es.take(i as int), copies())),
            decreases es.len() - i,
        {
            let ghost base = concat(es.take(i as int), copies());
            let ghost p = es[i as int].0;
            let n: u64 = list[i].1;
            let mut j: u64 = 0;
            assert(base + repeated(p, 0) =~= base);
            while j < n
                invariant
                    list@ == es,
                    i < es.len(),
                    p == es[i as int].0,
                    j <= n,
                    forall|x: Self::PC, y: Self::PC| #[trigger] plus(x, y) == self.spec_add_c(x, y),
                    sum == total(zero, plus, base + repeated(p, j as nat)),
                decreases n - j,
            {
                sum = self.add_c(&sum, &list[i].0);
                proof {
                    let more = base + repeated(p, (j + 1) as nat);
                    assert(more.drop_last() =~= base + repeated(p, j as nat));
                    assert(more.last() == p);
                }
                j += 1;
            }
            proof {
                lemma_concat_take(es, i as int, copies());
            }
            i += 1;
        }
        assert(es.take(i as int) =~= es);
        sum
    }

    /// Human-readable name.
    fn name(&self) -> (r: &str)
        ensures
            r@ == self.spec_name(),
    ;
}

pub open spec fn plus_a<S: TriangleJoinAggregateSpec>(s: &S) -> spec_fn(S::PA, S::PA) -> S::PA {
    |x: S::PA, y: S::PA| s.spec_add_a(x, y)
}

pub open spec fn plus_b<S: TriangleJoinAggregateSpec>(s: &S) -> spec_fn(S::PB, S::PB) -> S::PB {
    |x: S::PB, y: S::PB| s.spec_add_b(x, y)
}

pub open spec fn plus_c<S: TriangleJoinAggregateSpec>(s: &S) -> spec_fn(S::PC, S::PC) -> S::PC {
    |x: S::PC, y: S::PC| s.spec_add_c(x, y)
}

pub open spec fn plus_v<S: TriangleJoinAggregateSpec>(s: &S) -> spec_fn(S::V, S::V) -> S::V {
    |x: S::V, y: S::V| s.spec_add(x, y)
}

pub open spec fn minus_v<S: TriangleJoinAggregateSpec>(s: &S) -> spec_fn(S::V) -> S::V {
    |v: S::V| s.spec_negate(v)
}

pub open spec fn times_a<S: TriangleJoinAggregateSpec>(s: &S, b: S::PB, c: S::PC) -> spec_fn(S::PA) -> S::V {
    |a: S::PA| s.spec_multiply_triple(a, b, c)
}

pub open spec fn times_b<S: TriangleJoinAggregateSpec>(s: &S, a: S::PA, c: S::PC) -> spec_fn(S::PB) -> S::V {
    |b: S::PB| s.spec_multiply_triple(a, b, c)
}

pub open spec fn times_c<S: TriangleJoinAggregateSpec>(s: &S, a: S::PA, b: S::PB) -> spec_fn(S::PC) -> S::V {
    |c: S::PC| s.spec_multiply_triple(a, b, c)
}

/// What the ring has to satisfy.
pub open spec fn is_triangle_ring<S: TriangleJoinAggregateSpec>(s: &S) -> bool {
    &&& group(s.spec_zero(), plus_v(s), minus_v(s))
    &&& monoid(s.spec_zero_a(), plus_a(s))
    &&& monoid(s.spec_zero_b(), plus_b(s))
    &&& monoid(s.spec_zero_c(), plus_c(s))
    &&& forall|b: S::PB, c: S::PC|
        additive(#[trigger] times_a(s, b, c), s.spec_zero_a(), plus_a(s), s.spec_zero(), plus_v(s))
    &&& forall|a: S::PA, c: S::PC|
        additive(#[trigger] times_b(s, a, c), s.spec_zero_b(), plus_b(s), s.spec_zero(), plus_v(s))
    &&& forall|a: S::PA, b: S::PB|
        additive(#[trigger] times_c(s, a, b), s.spec_zero_c(), plus_c(s), s.spec_zero(), plus_v(s))
}

/// Counts triangles, modulo the width of the counter: every element counts 1.
pub struct TriangleCount<A, B, C>(PhantomData<(A, B, C)>);

impl<A, B, C> TriangleCount<A, B, C> {
    pub fn new() -> (r: Self)
        ensures
            r.spec_zero() == 0,
    {
        TriangleCount(PhantomData)
    }
}

impl<A, B, C> Default for TriangleCount<A, B, C> {
    fn default() -> (r: Self)
        ensures
            r.spec_zero() == 0,
    {
        Self::new()
    }
}

impl<A, B, C> TriangleJoinAggregateSpec for TriangleCount<A, B, C> {
    type A = A;

    type B = B;

    type C = C;

    type PA = i64;

    type PB = i64;

    type PC = i64;

    type V = i64;

    open spec fn spec_payload_a(&self, a: A) -> i64 {
        1
    }

    open spec fn spec_zero_a(&self) -> i64 {
        0
    }

    open spec fn spec_add_a(&self, x: i64, y: i64) -> i64 {
        x.wrapping_add(y)
    }

    open spec fn spec_payload_b(&self, b: B) -> i64 {
        1
    }

    open spec fn spec_zero_b(&self) -> i64 {
        0
    }

    open spec fn spec_add_b(&self, x: i64, y: i64) -> i64 {
        x.wrapping_add(y)
    }

    open spec fn spec_payload_c(&self, c: C) -> i64 {
        1
    }

    open spec fn spec_zero_c(&self) -> i64 {
        0
    }

    open spec fn spec_add_c(&self, x: i64, y: i64) -> i64 {
        x.wrapping_add(y)
    }

    open spec fn spec_zero(&self) -> i64 {
        0
    }

    open spec fn spec_add(&self, x: i64, y: i64) -> i64 {
        x.wrapping_add(y)
    }

    open spec fn spec_negate(&self, v: i64) -> i64 {
        0i64.wrapping_sub(v)
    }

    open spec fn spec_multiply_triple(&self, a: i64, b: i64, c: i64) -> i64 {
        a.wrapping_mul(b).wrapping_mul(c)
    }

    open spec fn spec_name(&self) -> Seq<char> {
        "TRIANGLE_COUNT"@
    }

    fn payload_a(&self, a: &A) -> i64 {
        1
    }

    fn zero_a(&self) -> i64 {
        0
    }

    fn add_a(&self, x: &i64, y: &i64) -> i64 {
        x.wrapping_add(*y)
    }

    fn payload_b(&self, b: &B) -> i64 {
        1
    }

    fn zero_b(&self) -> i64 {
        0
    }

    fn add_b(&self, x: &i64, y: &i64) -> i64 {
        x.wrapping_add(*y)
    }

    fn payload_c(&self, c: &C) -> i64 {
        1
    }

    fn zero_c(&self) -> i64 {
        0
    }

    fn add_c(&self, x: &i64, y: &i64) -> i64 {
        x.wrapping_add(*y)
    }

    fn zero(&self) -> i64 {
        0
    }

    fn add(&self, x: &i64, y: &i64) -> i64 {
        x.wrapping_add(*y)
    }

    fn negate(&self, v: &i64) -> i64 {
        0i64.wrapping_sub(*v)
    }

    fn multiply_triple(&self, a: &i64, b: &i64, c: &i64) -> i64 {
        a.wrapping_mul(*b).wrapping_mul(*c)
    }

    fn name(&self) -> &str {
        "TRIANGLE_COUNT"
    }
}

/// Counting triangles is a ring.
pub proof fn law_triangle_count_is_ring<A, B, C>(s: &TriangleCount<A, B, C>)
    ensures
        is_triangle_ring(s),
{
    assert forall|x: i64, y: i64, z: i64|
        #![trigger x.wrapping_add(y).wrapping_add(z)]
        x.wrapping_add(y).wrapping_add(z) == x.wrapping_add(y.wrapping_add(z)) by {
        lemma_add_laws(x, y, z);
    }
    assert forall|x: i64, y: i64| #[trigger] x.wrapping_add(y) == y.wrapping_add(x) by {
        lemma_add_laws(x, y, 0);
    }
    assert forall|x: i64| #[trigger] 0i64.wrapping_add(x) == x by {
        lemma_add_laws(x, 0, 0);
    }
    assert forall|x: i64| #[trigger] plus_v(s)(x, minus_v(s)(x)) == 0 by {
        lemma_add_laws(x, 0, 0);
    }
    assert forall|b: i64, c: i64|
        additive(#[trigger] times_a(s, b, c), s.spec_zero_a(), plus_a(s), s.spec_zero(), plus_v(s)) by {
        assert forall|x: i64, y: i64| #[trigger] times_a(s, b, c)(plus_a(s)(x, y)) == plus_v(s)(
            times_a(s, b, c)(x),
            times_a(s, b, c)(y),
        ) by {
            lemma_factor(x, y, b, c);
        }
        lemma_factor(0, 0, b, c);
    }
    assert forall|a: i64, c: i64|
        additive(#[trigger] times_b(s, a, c), s.spec_zero_b(), plus_b(s), s.spec_zero(), plus_v(s)) by {
        assert forall|x: i64, y: i64| #[trigger] times_b(s, a, c)(plus_b(s)(x, y)) == plus_v(s)(
            times_b(s, a, c)(x),
            times_b(s, a, c)(y),
        ) by {
            lemma_factor(x, y, a, c);
        }
        lemma_factor(0, 0, a, c);
    }
    assert forall|a: i64, b: i64|
        additive(#[trigger] times_c(s, a, b), s.spec_zero_c(), plus_c(s), s.spec_zero(), plus_v(s)) by {
        assert forall|x: i64, y: i64| #[trigger] times_c(s, a, b)(plus_c(s)(x, y)) == plus_v(s)(
            times_c(s, a, b)(x),
            times_c(s, a, b)(y),
        ) by {
            lemma_mul_laws(a.wrapping_mul(b), x, y);
        }
        lemma_mul_laws(a.wrapping_mul(b), 0, 0);
    }
}

/// A product of three is additive in its first and second factor.
proof fn lemma_factor(x: i64, y: i64, b: i64, c: i64)
    ensures
        x.wrapping_add(y).wrapping_mul(b).wrapping_mul(c) == x.wrapping_mul(b).wrapping_mul(c).wrapping_add(
            y.wrapping_mul(b).wrapping_mul(c),
        ),
        b.wrapping_mul(x.wrapping_add(y)).wrapping_mul(c) == b.wrapping_mul(x).wrapping_mul(c).wrapping_add(
            b.wrapping_mul(y).wrapping_mul(c),
        ),
        0i64.wrapping_mul(b).wrapping_mul(c) == 0,
        b.wrapping_mul(0).wrapping_mul(c) == 0,
{
    let xb = x.wrapping_mul(b);
    let yb = y.wrapping_mul(b);
    lemma_mul_laws(x.wrapping_add(y), b, 0);
    lemma_mul_laws(b, x, y);
    lemma_mul_laws(x, b, 0);
    lemma_mul_laws(y, b, 0);
    lemma_mul_laws(xb.wrapping_add(yb), c, 0);
    lemma_mul_laws(c, xb, yb);
    lemma_mul_laws(xb, c, 0);
    lemma_mul_laws(yb, c, 0);
    lemma_mul_laws(0, b, 0);
    lemma_mul_laws(b, 0, 0);
    lemma_mul_laws(c, 0, 0);
    lemma_mul_laws(0, c, 0);
}

} // verus!
