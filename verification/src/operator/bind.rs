//! BIND: adds a variable computed from the other bindings.
use vstd::prelude::*;

use crate::model::{BindingSet, Value};

verus! {

/// Binds a variable to what an expression computes.
pub struct BindOperator<F: Fn(&BindingSet) -> Option<Value> + Send + Sync> {
    variable: String,
    expression: F,
}

impl<F: Fn(&BindingSet) -> Option<Value> + Send + Sync> BindOperator<F> {
    /// The variable that is bound.
    pub closed spec fn target(&self) -> Seq<char> {
        self.variable@
    }

    pub closed spec fn computes(&self) -> F {
        self.expression
    }

    /// The expression can be evaluated on a solution.
    pub open spec fn accepts(&self, b: BindingSet) -> bool {
        b.wf() && call_requires(self.computes(), (&b,))
    }

    /// `after` is `before` with the variable bound to what the expression gave,
    /// or `before` itself when it gave nothing.
    pub open spec fn bound(&self, before: BindingSet, after: BindingSet) -> bool {
        exists|v: Option<Value>| #[trigger]
            call_ensures(self.computes(), (&before,), v) && match v {
                Some(value) => {
                    &&& after.wf()
                    &&& after.time() == before.time()
                    &&& after.values() == before.values().insert(self.target(), value)
                },
                None => after == before,
            }
    }

    pub fn new(variable: &str, expression: F) -> (r: Self)
        ensures
            r.target() == variable@,
            r.computes() == expression,
    {
        BindOperator { variable: variable.to_string(), expression }
    }

    /// Evaluates the expression on a solution and binds its value there.
    pub fn evaluate(&self, binding: &mut BindingSet)
        requires
            self.accepts(*old(binding)),
        ensures
            self.bound(*old(binding), *final(binding)),
    {
        let v = (self.expression)(binding);
        match v {
            Some(value) => {
                binding.insert(self.variable.as_str(), value);
            },
            None => {},
        }
    }

    /// Evaluates the expression on each solution in turn.
    pub fn apply(&self, bindings: Vec<BindingSet>) -> (r: Vec<BindingSet>)
        requires
            forall|i: int| 0 <= i < bindings@.len() ==> self.accepts(#[trigger] bindings@[i]),
        ensures
            r@.len() == bindings@.len(),
            forall|i: int| 0 <= i < r@.len() ==> self.bound(bindings@[i], #[trigger] r@[i]),
    {
        let ghost given = bindings@;
        let mut r: Vec<BindingSet> = Vec::new();
        let rest = bindings;
        for solution in iter: rest
            invariant
                iter.seq() == given,
                iter.index() == r@.len() as int,
                forall|i: int| 0 <= i < given.len() ==> self.accepts(#[trigger] given[i]),
                forall|i: int| 0 <= i < r@.len() ==> self.bound(given[i], #[trigger] r@[i]),
        {
            let mut b = solution;
            self.evaluate(&mut b);
            r.push(b);
        }
        r
    }
}

} // verus!
