//! FILTER: keeps the solutions that a predicate holds of.
use vstd::prelude::*;

use crate::model::BindingSet;

verus! {

/// Keeps the solutions that a predicate holds of.
pub struct FilterOperator<F: Fn(&BindingSet) -> bool + Send + Sync> {
    predicate: F,
}

impl<F: Fn(&BindingSet) -> bool + Send + Sync> FilterOperator<F> {
    pub closed spec fn tests(&self) -> F {
        self.predicate
    }

    pub fn new(predicate: F) -> (r: Self)
        ensures
            r.tests() == predicate,
    {
        FilterOperator { predicate }
    }

    /// Does the predicate hold of a solution?
    pub fn evaluate(&self, binding: &BindingSet) -> (r: bool)
        requires
            call_requires(self.tests(), (binding,)),
        ensures
            call_ensures(self.tests(), (binding,), r),
    {
        (self.predicate)(binding)
    }

    /// What the predicate may answer for each of some solutions.
    pub open spec fn answered(&self, bindings: Seq<BindingSet>, answers: Seq<bool>) -> bool {
        &&& answers.len() == bindings.len()
        &&& forall|i: int|
            0 <= i < answers.len() ==> call_ensures(self.tests(), (&bindings[i],), #[trigger] answers[i])
    }

    /// Keeps the solutions that the predicate holds of, in their order.
    pub fn apply(&self, bindings: Vec<BindingSet>) -> (r: Vec<BindingSet>)
        requires
            forall|i: int|
                0 <= i < bindings@.len() ==> call_requires(self.tests(), (&#[trigger] bindings@[i],)),
        ensures
            exists|answers: Seq<bool>| #[trigger]
                self.answered(bindings@, answers) && r@ == kept(bindings@, answers),
    {
        let ghost given = bindings@;
        let ghost mut answers: Seq<bool> = Seq::empty();
        let mut r: Vec<BindingSet> = Vec::new();
        let rest = bindings;
        assert(kept(given.take(0), answers) =~= r@);
        for b in iter: rest
            invariant
                iter.seq() == given,
                iter.index() == answers.len() as int,
                forall|i: int|
                    0 <= i < given.len() ==> call_requires(self.tests(), (&#[trigger] given[i],)),
                forall|i: int|
                    0 <= i < answers.len() ==> call_ensures(self.tests(), (&given[i],), #[trigger] answers[i]),
                r@ == kept(given.take(answers.len() as int), answers),
        {
            let ghost k = answers.len() as int;
            let ghost before = answers;
            let keep = (self.predicate)(&b);
            proof {
                answers = answers.push(keep);
                assert(answers.drop_last() =~= before);
                assert(given.take(k + 1).drop_last() =~= given.take(k));
            }
            if keep {
                r.push(b);
            }
        }
        assert(given.take(answers.len() as int) =~= given);
        assert(self.answered(given, answers));
        r
    }
}

/// The elements whose answer is yes.
pub open spec fn kept<A>(s: Seq<A>, answers: Seq<bool>) -> Seq<A>
    decreases s.len(),
{
    if s.len() == 0 {
        Seq::empty()
    } else {
        let front = kept(s.drop_last(), answers.drop_last());
        if answers.last() {
            front.push(s.last())
        } else {
            front
        }
    }
}

} // verus!
