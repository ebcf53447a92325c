//! Sliding-window aggregation over a first-in-first-out window.
use std::marker::PhantomData;

use vstd::prelude::*;

use crate::wrapping::lemma_add_laws;

verus! {

/// A monoidal aggregation: inputs are lifted to partial aggregates, which are
/// combined and lowered to an output.
///
/// An implementation in plain Rust leaves the spec functions out. Each then has
/// one unknown value for all arguments, so that the contracts over them say
/// nothing of such an implementation.
pub trait SwagOp<In, Partial, Out> {
    open spec fn spec_identity(&self) -> Partial {
        arbitrary()
    }

    open spec fn spec_lift(&self, value: In) -> Partial {
        arbitrary()
    }

    open spec fn spec_combine(&self, a: Partial, b: Partial) -> Partial {
        arbitrary()
    }

    open spec fn spec_lower(&self, aggregate: Partial) -> Out {
        arbitrary()
    }

    open spec fn spec_invert(&self, value: Partial) -> Option<Partial> {
        arbitrary()
    }

    open spec fn spec_is_invertible(&self) -> bool {
        arbitrary()
    }

    open spec fn spec_name(&self) -> Seq<char> {
        arbitrary()
    }

    /// The identity of the monoid.
    fn identity(&self) -> (r: Partial)
        ensures
            r == self.spec_identity(),
    ;

    /// Lifts an input to a partial aggregate.
    fn lift(&self, value: &In) -> (r: Partial)
        ensures
            r == self.spec_lift(*value),
    ;

    /// Combines two partial aggregates, the older one first.
    fn combine(&self, a: &Partial, b: &Partial) -> (r: Partial)
        ensures
            r == self.spec_combine(*a, *b),
    ;

    /// Lowers a partial aggregate to an output.
    fn lower(&self, aggregate: &Partial) -> (r: Out)
        ensures
            r == self.spec_lower(*aggregate),
    ;

    /// The inverse of a partial aggregate, if the operation has one.
    fn invert(&self, value: &Partial) -> (r: Option<Partial>)
        ensures
            r == self.spec_invert(*value),
    ;

    /// Does the operation have inverses?
    fn is_invertible(&self) -> (r: bool)
        ensures
            r == self.spec_is_invertible(),
    ;

    fn name(&self) -> (r: &str)
        ensures
            r@ == self.spec_name(),
    ;
}

/// Combining is associative and the identity leaves everything as it is.
pub open spec fn is_swag_monoid<In, Partial, Out, Op: SwagOp<In, Partial, Out>>(op: Op) -> bool {
    &&& forall|a: Partial| #[trigger] op.spec_combine(op.spec_identity(), a) == a
    &&& forall|a: Partial| #[trigger] op.spec_combine(a, op.spec_identity()) == a
    &&& forall|a: Partial, b: Partial, c: Partial| #[trigger]
        op.spec_combine(op.spec_combine(a, b), c) == op.spec_combine(a, op.spec_combine(b, c))
}

/// All partial aggregates combined, the first one first.
pub open spec fn fold_all<In, Partial, Out, Op: SwagOp<In, Partial, Out>>(op: Op, s: Seq<Partial>) -> Partial
    decreases s.len(),
{
    if s.len() == 0 {
        op.spec_identity()
    } else {
        op.spec_combine(fold_all(op, s.drop_last()), s.last())
    }
}

/// Folding a part and then the rest.
pub proof fn lemma_fold_split<In, Partial, Out, Op: SwagOp<In, Partial, Out>>(op: Op, s: Seq<Partial>, t: Seq<Partial>)
    requires
        is_swag_monoid(op),
    ensures
        fold_all(op, s + t) == op.spec_combine(fold_all(op, s), fold_all(op, t)),
    decreases t.len(),
{
    if t.len() == 0 {
        assert(s + t =~= s);
    } else {
        assert((s + t).drop_last() =~= s + t.drop_last());
        lemma_fold_split(op, s, t.drop_last());
        let a = fold_all(op, s);
        let b = fold_all(op, t.drop_last());
        let c = t.last();
        assert(op.spec_combine(op.spec_combine(a, b), c) == op.spec_combine(a, op.spec_combine(b, c)));
    }
}

pub proof fn lemma_fold_one<In, Partial, Out, Op: SwagOp<In, Partial, Out>>(op: Op, x: Partial)
    requires
        is_swag_monoid(op),
    ensures
        fold_all(op, seq![x]) == x,
{
    let s = seq![x];
    assert(s.drop_last() =~= Seq::empty());
    assert(fold_all(op, s.drop_last()) == op.spec_identity());
    assert(op.spec_combine(op.spec_identity(), x) == x);
}

/// Counts elements, modulo the width of the counter. Invertible.
pub struct SwagCountOp<T>(PhantomData<T>);

impl<T> SwagCountOp<T> {
    pub fn new() -> (r: Self)
        ensures
            r.spec_identity() == 0,
    {
        SwagCountOp(PhantomData)
    }
}

impl<T> Default for SwagCountOp<T> {
    fn default() -> (r: Self)
        ensures
            r.spec_identity() == 0,
    {
        Self::new()
    }
}

impl<T> SwagOp<T, i64, i64> for SwagCountOp<T> {
    open spec fn spec_identity(&self) -> i64 {
        0
    }

    open spec fn spec_lift(&self, value: T) -> i64 {
        1
    }

    open spec fn spec_combine(&self, a: i64, b: i64) -> i64 {
        a.wrapping_add(b)
    }

    open spec fn spec_lower(&self, aggregate: i64) -> i64 {
        aggregate
    }

    open spec fn spec_invert(&self, value: i64) -> Option<i64> {
        Some(0i64.wrapping_sub(value))
    }

    open spec fn spec_is_invertible(&self) -> bool {
        true
    }

    open spec fn spec_name(&self) -> Seq<char> {
        "COUNT"@
    }

    fn identity(&self) -> i64 {
        0
    }

    fn lift(&self, value: &T) -> i64 {
        1
    }

    fn combine(&self, a: &i64, b: &i64) -> i64 {
        a.wrapping_add(*b)
    }

    fn lower(&self, aggregate: &i64) -> i64 {
        *aggregate
    }

    fn invert(&self, value: &i64) -> Option<i64> {
        Some(0i64.wrapping_sub(*value))
    }

    fn is_invertible(&self) -> bool {
        true
    }

    fn name(&self) -> &str {
        "COUNT"
    }
}

/// Counting is a monoid, and a count combined with its inverse is nothing.
pub proof fn law_swag_count_is_invertible_monoid<T>(op: SwagCountOp<T>)
    ensures
        is_swag_monoid::<T, i64, i64, SwagCountOp<T>>(op),
        forall|a: i64| op.spec_combine(a, (#[trigger] op.spec_invert(a))->0) == op.spec_identity(),
{
    assert forall|a: i64, b: i64, c: i64| #[trigger]
        op.spec_combine(op.spec_combine(a, b), c) == op.spec_combine(a, op.spec_combine(b, c)) by {
        lemma_add_laws(a, b, c);
    }
    assert forall|a: i64| #[trigger] op.spec_combine(op.spec_identity(), a) == a by {
        lemma_add_laws(a, 0, 0);
    }
    assert forall|a: i64| #[trigger] op.spec_combine(a, op.spec_identity()) == a by {
        lemma_add_laws(a, 0, 0);
        lemma_add_laws(0, a, 0);
    }
    assert forall|a: i64| op.spec_combine(a, (#[trigger] op.spec_invert(a))->0) == op.spec_identity() by {
        lemma_add_laws(a, 0, 0);
    }
}

/// Two-stacks first-in-first-out window: push, pop and query in amortized
/// constant time, without inverses.
///
/// The back stack keeps the partial aggregates pushed since the last flip with
/// their running aggregate. The front stack keeps, for each older element, the
/// aggregate from it up to the flip.
pub struct TwoStacksLiteWindow<In, Partial, Out, Op: SwagOp<In, Partial, Out>> {
    front_agg: Vec<Partial>,
    back_vals: Vec<Partial>,
    back_agg: Vec<Partial>,
    op: Op,
    held: Ghost<Seq<Partial>>,
    _phantom: PhantomData<(In, Out)>,
}

impl<In, Partial, Out, Op: SwagOp<In, Partial, Out>> View for TwoStacksLiteWindow<In, Partial, Out, Op> {
    type V = Seq<Partial>;

    /// The partial aggregates of the elements in the window, the oldest first.
    closed spec fn view(&self) -> Seq<Partial> {
        self.held@
    }
}

impl<In, Partial: Clone, Out, Op: SwagOp<In, Partial, Out>> TwoStacksLiteWindow<In, Partial, Out, Op> {
    pub closed spec fn operation(&self) -> Op {
        self.op
    }

    pub closed spec fn wf(&self) -> bool {
        let n = self.front_agg@.len() as int;
        &&& n + self.back_vals@.len() == self.held@.len()
        &&& self.held@.skip(n) == self.back_vals@
        &&& self.back_agg@.len() == self.back_vals@.len()
        &&& forall|i: int|
            0 <= i < self.back_agg@.len() ==> #[trigger] self.back_agg@[i] == fold_all(
                self.op,
                self.back_vals@.take(i + 1),
            )
        &&& forall|i: int|
            0 <= i < n ==> #[trigger] self.front_agg@[i] == fold_all(self.op, self.held@.subrange(n - 1 - i, n))
    }

    pub fn new(op: Op) -> (r: Self)
        ensures
            r.wf(),
            r.operation() == op,
            r@.len() == 0,
    {
        let r = TwoStacksLiteWindow {
            front_agg: Vec::new(),
            back_vals: Vec::new(),
            back_agg: Vec::new(),
            op,
            held: Ghost(Seq::empty()),
            _phantom: PhantomData,
        };
        assert(r.held@.skip(0) =~= r.back_vals@);
        r
    }

    /// Pushes a value into the back of the window.
    pub fn push(&mut self, value: &In)
        requires
            old(self).wf(),
            is_swag_monoid::<In, Partial, Out, Op>(old(self).operation()),
            forall|a: Partial, b: Partial| #[trigger] cloned(a, b) ==> a == b,
        ensures
            final(self).wf(),
            final(self).operation() == old(self).operation(),
            final(self)@ == old(self)@.push(old(self).operation().spec_lift(*value)),
    {
        let ghost before = *self;
        let partial = self.op.lift(value);
        let ghost p = partial;
        let n: usize = self.back_agg.len();
        let cumulative = if n > 0 {
            self.op.combine(&self.back_agg[n - 1], &partial)
        } else {
            let c = partial.clone();
            assert(cloned(partial, c));
            c
        };
        self.back_vals.push(partial);
        self.back_agg.push(cumulative);
        self.held = Ghost(before.held@.push(p));
        proof {
            let f = self.front_agg@.len() as int;
            assert(self.held@.skip(f) =~= self.back_vals@);
            assert forall|i: int| 0 <= i < self.back_agg@.len() implies #[trigger] self.back_agg@[i] == fold_all(
                self.op,
                self.back_vals@.take(i + 1),
            ) by {
                if i < n {
                    assert(self.back_vals@.take(i + 1) =~= before.back_vals@.take(i + 1));
                } else {
                    assert(self.back_vals@.take(i + 1).drop_last() =~= before.back_vals@);
                    if n > 0 {
                        assert(before.back_vals@.take(n as int) =~= before.back_vals@);
                        assert(before.back_agg@[n - 1] == fold_all(self.op, before.back_vals@.take(n - 1 + 1)));
                    } else {
                        assert(self.back_vals@.take(i + 1) =~= seq![p]);
                        lemma_fold_one(self.op, p);
                    }
                }
            }
            assert forall|i: int| 0 <= i < f implies #[trigger] self.front_agg@[i] == fold_all(
                self.op,
                self.held@.subrange(f - 1 - i, f),
            ) by {
                assert(self.held@.subrange(f - 1 - i, f) =~= before.held@.subrange(f - 1 - i, f));
            }
        }
    }

    /// Pops the oldest value from the front of the window, if there is one.
    pub fn pop(&mut self)
        requires
            old(self).wf(),
            is_swag_monoid::<In, Partial, Out, Op>(old(self).operation()),
            forall|a: Partial, b: Partial| #[trigger] cloned(a, b) ==> a == b,
        ensures
            final(self).wf(),
            final(self).operation() == old(self).operation(),
            final(self)@ == if old(self)@.len() == 0 {
                old(self)@
            } else {
                old(self)@.skip(1)
            },
    {
        if self.front_agg.len() == 0 {
            self.flip();
        }
        let ghost before = *self;
        let popped = self.front_agg.pop();
        if popped.is_some() {
            self.held = Ghost(before.held@.skip(1));
            proof {
                let f = self.front_agg@.len() as int;
                assert(self.held@.skip(f) =~= before.held@.skip(f + 1));
                assert forall|i: int| 0 <= i < f implies #[trigger] self.front_agg@[i] == fold_all(
                    self.op,
                    self.held@.subrange(f - 1 - i, f),
                ) by {
                    assert(before.front_agg@[i] == fold_all(self.op, before.held@.subrange(f - i, f + 1)));
                    assert(self.held@.subrange(f - 1 - i, f) =~= before.held@.subrange(f - i, f + 1));
                }
            }
        } else {
            assert(before.held@.len() == 0);
        }
    }

    /// The aggregate over the window: all its elements combined in order.
    pub fn query(&self) -> (r: Out)
        requires
            self.wf(),
            is_swag_monoid::<In, Partial, Out, Op>(self.operation()),
        ensures
            r == self.operation().spec_lower(fold_all(self.operation(), self@)),
    {
        let ghost f = self.front_agg@.len() as int;
        let ghost b = self.back_agg@.len() as int;
        proof {
            assert(self.held@.take(f) + self.held@.skip(f) =~= self.held@);
            lemma_fold_split(self.op, self.held@.take(f), self.held@.skip(f));
            if f > 0 {
                assert(self.front_agg@[f - 1] == fold_all(self.op, self.held@.subrange(f - 1 - (f - 1), f)));
                assert(self.held@.subrange(0, f) =~= self.held@.take(f));
            } else {
                assert(self.held@.take(f) =~= Seq::empty());
            }
            if b > 0 {
                assert(self.back_agg@[b - 1] == fold_all(self.op, self.back_vals@.take(b - 1 + 1)));
                assert(self.back_vals@.take(b) =~= self.back_vals@);
            } else {
                assert(self.back_vals@ =~= Seq::empty());
            }
        }
        let fronts: usize = self.front_agg.len();
        let backs: usize = self.back_agg.len();
        let none = self.op.identity();
        let front = if fronts > 0 {
            &self.front_agg[fronts - 1]
        } else {
            &none
        };
        let back = if backs > 0 {
            &self.back_agg[backs - 1]
        } else {
            &none
        };
        let combined = self.op.combine(front, back);
        self.op.lower(&combined)
    }

    /// Number of elements in the window.
    pub fn len(&self) -> (r: usize)
        requires
            self.wf(),
            self@.len() <= usize::MAX,
        ensures
            r == self@.len(),
    {
        self.front_agg.len() + self.back_vals.len()
    }

    pub fn is_empty(&self) -> (r: bool)
        requires
            self.wf(),
        ensures
            r == (self@.len() == 0),
    {
        self.front_agg.len() == 0 && self.back_vals.len() == 0
    }

    /// Moves everything from the back stack to the empty front stack.
    fn flip(&mut self)
        requires
            old(self).wf(),
            old(self).front_agg@.len() == 0,
            is_swag_monoid::<In, Partial, Out, Op>(old(self).operation()),
            forall|a: Partial, b: Partial| #[trigger] cloned(a, b) ==> a == b,
        ensures
            final(self).wf(),
            final(self).operation() == old(self).operation(),
            final(self)@ == old(self)@,
            final(self).back_vals@.len() == 0,
    {
        let ghost held = self.held@;
        let ghost n = held.len() as int;
        assert(held.skip(0) =~= held);
        let mut suffixes: Vec<Partial> = Vec::new();
        let mut i: usize = self.back_vals.len();
        while i > 0
            invariant
                self.back_vals@ == held,
                n == held.len(),
                i <= n,
                is_swag_monoid::<In, Partial, Out, Op>(self.op),
                forall|a: Partial, b: Partial| #[trigger] cloned(a, b) ==> a == b,
                suffixes@.len() == n - i,
                forall|k: int|
                    0 <= k < suffixes@.len() ==> #[trigger] suffixes@[k] == fold_all(self.op, held.subrange(n - 1 - k, n)),
            decreases i,
        {
            i -= 1;
            let m: usize = suffixes.len();
            let value = &self.back_vals[i];
            let agg = if m > 0 {
                self.op.combine(value, &suffixes[m - 1])
            } else {
                let c = value.clone();
                assert(cloned(*value, c));
                c
            };
            proof {
                let tail = held.subrange(i + 1, n);
                assert(held.subrange(i as int, n) =~= seq![*value] + tail);
                lemma_fold_split(self.op, seq![*value], tail);
                lemma_fold_one(self.op, *value);
                if m > 0 {
                    assert(suffixes@[m - 1] == fold_all(self.op, held.subrange(n - 1 - (m - 1), n)));
                } else {
                    assert(tail =~= Seq::empty());
                }
            }
            suffixes.push(agg);
        }
        self.front_agg = suffixes;
        self.back_vals.clear();
        self.back_agg.clear();
        assert(self.held@.skip(n) =~= self.back_vals@);
    }
}

} // verus!
