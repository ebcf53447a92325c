//! MINUS: removes the solutions that are compatible with an excluded one.
use vstd::prelude::*;

use crate::model::{same_value, BindingSet, Value};

verus! {

/// Both solutions bind the variable.
pub open spec fn shares(a: Map<Seq<char>, Value>, b: Map<Seq<char>, Value>, v: Seq<char>) -> bool {
    a.contains_key(v) && b.contains_key(v)
}

/// Two solutions share a variable and agree on all that they share.
pub open spec fn compatible_with(a: Map<Seq<char>, Value>, b: Map<Seq<char>, Value>) -> bool {
    &&& exists|v: Seq<char>| shares(a, b, v)
    &&& forall|v: Seq<char>| #[trigger] shares(a, b, v) ==> a[v]@ == b[v]@
}

/// Compatibility does not depend on which solution comes first.
pub proof fn law_compatible_is_symmetric(a: Map<Seq<char>, Value>, b: Map<Seq<char>, Value>)
    ensures
        compatible_with(a, b) == compatible_with(b, a),
{
    if compatible_with(a, b) {
        let v = choose|v: Seq<char>| shares(a, b, v);
        assert(shares(b, a, v));
        assert forall|v: Seq<char>| #[trigger] shares(b, a, v) implies b[v]@ == a[v]@ by {
            assert(shares(a, b, v));
        }
    }
    if compatible_with(b, a) {
        let v = choose|v: Seq<char>| shares(b, a, v);
        assert(shares(a, b, v));
        assert forall|v: Seq<char>| #[trigger] shares(a, b, v) implies a[v]@ == b[v]@ by {
            assert(shares(b, a, v));
        }
    }
}

/// Solutions without a common variable are not compatible.
pub proof fn law_disjoint_are_incompatible(a: Map<Seq<char>, Value>, b: Map<Seq<char>, Value>)
    requires
        a.dom().disjoint(b.dom()),
    ensures
        !compatible_with(a, b),
{
}

/// Do two solutions share a variable and agree on all that they share?
pub fn compatible(mu1: &BindingSet, mu2: &BindingSet) -> (r: bool)
    requires
        mu1.wf(),
        mu2.wf(),
    ensures
        r == compatible_with(mu1.values(), mu2.values()),
{
    let ghost a = mu1.values();
    let ghost b = mu2.values();
    let ghost vars = mu1.variables();
    proof {
        mu1.lemma_variables();
    }
    let mut shared = false;
    let n: usize = mu1.len();
    let mut i: usize = 0;
    while i < n
        invariant
            mu1.wf(),
            mu2.wf(),
            a == mu1.values(),
            b == mu2.values(),
            vars == mu1.variables(),
            n == vars.len(),
            i <= n,
            forall|v: Seq<char>| #[trigger] a.contains_key(v) <==> vars.contains(v),
            shared == exists|j: int| 0 <= j < i && shares(a, b, #[trigger] vars[j]),
            forall|j: int| 0 <= j < i && shares(a, b, #[trigger] vars[j]) ==> a[vars[j]]@ == b[vars[j]]@,
        decreases n - i,
    {
        let var = mu1.variable_at(i);
        assert(vars.contains(vars[i as int]));
        assert(a.contains_key(vars[i as int]));
        match (mu1.get(var), mu2.get(var)) {
            (Some(v1), Some(v2)) => {
                assert(shares(a, b, vars[i as int]));
                shared = true;
                if !same_value(v1, v2) {
                    return false;
                }
            },
            _ => {},
        }
        i += 1;
    }
    proof {
        assert forall|v: Seq<char>| #[trigger] shares(a, b, v) implies a[v]@ == b[v]@ && shared by {
            assert(vars.contains(v));
            let j = choose|j: int| 0 <= j < vars.len() && vars[j] == v;
            assert(shares(a, b, vars[j]));
        }
    }
    shared
}

/// Removes the solutions that are compatible with an excluded one.
#[derive(Debug, Clone)]
pub struct MinusOperator {
    exclusions: Vec<BindingSet>,
}

/// The solution is compatible with one of the excluded ones.
pub open spec fn excluded_by(exclusions: Seq<BindingSet>, candidate: BindingSet) -> bool {
    exists|i: int|
        0 <= i < exclusions.len() && compatible_with(candidate.values(), (#[trigger] exclusions[i]).values())
}

/// The solutions that are not excluded.
pub open spec fn remaining(exclusions: Seq<BindingSet>) -> spec_fn(BindingSet) -> bool {
    |b: BindingSet| !excluded_by(exclusions, b)
}

impl MinusOperator {
    pub closed spec fn excluded(&self) -> Seq<BindingSet> {
        self.exclusions@
    }

    pub open spec fn wf(&self) -> bool {
        forall|i: int| 0 <= i < self.excluded().len() ==> (#[trigger] self.excluded()[i]).wf()
    }

    pub fn new(exclusions: Vec<BindingSet>) -> (r: Self)
        ensures
            r.excluded() == exclusions@,
    {
        MinusOperator { exclusions }
    }

    /// The same as `new`.
    pub fn excluding(exclusions: Vec<BindingSet>) -> (r: Self)
        ensures
            r.excluded() == exclusions@,
    {
        Self::new(exclusions)
    }

    /// Is the solution compatible with one of the excluded ones?
    pub fn is_excluded(&self, candidate: &BindingSet) -> (r: bool)
        requires
            self.wf(),
            candidate.wf(),
        ensures
            r == excluded_by(self.excluded(), *candidate),
    {
        let mut i: usize = 0;
        while i < self.exclusions.len()
            invariant
                self.wf(),
                candidate.wf(),
                i <= self.exclusions@.len(),
                forall|j: int|
                    0 <= j < i ==> !compatible_with(candidate.values(), (#[trigger] self.excluded()[j]).values()),
            decreases self.exclusions@.len() - i,
        {
            assert(self.excluded()[i as int].wf());
            if compatible(candidate, &self.exclusions[i]) {
                return true;
            }
            i += 1;
        }
        false
    }

    /// Keeps the solutions that are not excluded, in their order.
    pub fn apply(&self, bindings: Vec<BindingSet>) -> (r: Vec<BindingSet>)
        requires
            self.wf(),
            forall|i: int| 0 <= i < bindings@.len() ==> (#[trigger] bindings@[i]).wf(),
        ensures
            r@ == bindings@.filter(remaining(self.excluded())),
    {
        let ghost given = bindings@;
        let ghost keeps = remaining(self.excluded());
        let ghost mut k: int = 0;
        let mut r: Vec<BindingSet> = Vec::new();
        let rest = bindings;
        reveal(Seq::filter);
        assert(given.take(0).filter(keeps) =~= r@);
        for b in iter: rest
            invariant
                self.wf(),
                0 <= k <= given.len(),
                iter.seq() == given,
                iter.index() == k,
                keeps == remaining(self.excluded()),
                forall|i: int| 0 <= i < given.len() ==> (#[trigger] given[i]).wf(),
                r@ == given.take(k).filter(keeps),
        {
            assert(given.take(k + 1).drop_last() =~= given.take(k));
            reveal(Seq::filter);
            if !self.is_excluded(&b) {
                r.push(b);
            }
            proof {
                k = k + 1;
            }
        }
        assert(given.take(k) =~= given);
        r
    }
}

/// A solution that shares no variable with any excluded one is kept.
pub proof fn law_minus_keeps_disjoint(exclusions: Seq<BindingSet>, b: BindingSet)
    requires
        forall|i: int|
            0 <= i < exclusions.len() ==> b.values().dom().disjoint((#[trigger] exclusions[i]).values().dom()),
    ensures
        !excluded_by(exclusions, b),
{
    assert forall|i: int| 0 <= i < exclusions.len() implies !compatible_with(
        b.values(),
        (#[trigger] exclusions[i]).values(),
    ) by {
        law_disjoint_are_incompatible(b.values(), exclusions[i].values());
    }
}

} // verus!
