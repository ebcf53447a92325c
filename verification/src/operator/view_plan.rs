//! Prefix and suffix view layers over a variable order.
use vstd::prelude::*;

use crate::name_sets::{set_map, sets_wf};
use crate::names::{text, NameMap, NameSet};
use crate::operator::hypergraph::lemma_keys;
use crate::operator::swag_join::VariableOrder;
use crate::operator::swag_join_graph::JoinGraph;

verus! {

/// One layer of a plan: the variables bound so far and the relations that
/// became fully bound with the last of them.
#[derive(Clone, Debug, PartialEq, Eq)]
pub struct ViewLayer {
    pub variables: Vec<String>,
    pub relations: NameSet,
}

/// The first `n` variables of the order are all that `vars` needs.
pub open spec fn bound_after(order: Seq<Seq<char>>, n: int, vars: Set<Seq<char>>) -> bool {
    vars.subset_of(order.take(n).to_set())
}

/// The relations that the `i`-th variable of the order leaves with none
/// unbound.
pub open spec fn newly_bound(
    order: Seq<Seq<char>>,
    relations: Map<Seq<char>, Set<Seq<char>>>,
    i: int,
) -> Set<Seq<char>> {
    Set::new(
        |r: Seq<char>|
            relations.contains_key(r) && bound_after(order, i + 1, relations[r]) && !(i > 0 && bound_after(
                order,
                i,
                relations[r],
            )),
    )
}

/// One layer for each variable of the order.
pub open spec fn are_layers(
    layers: Seq<ViewLayer>,
    order: Seq<Seq<char>>,
    relations: Map<Seq<char>, Set<Seq<char>>>,
) -> bool {
    &&& layers.len() == order.len()
    &&& forall|i: int|
        0 <= i < layers.len() ==> {
            let layer = #[trigger] layers[i];
            &&& layer.variables@.map_values(text()) == order.take(i + 1)
            &&& layer.relations.wf()
            &&& layer.relations@ == newly_bound(order, relations, i)
        }
}

/// Every relation whose variables the order has becomes bound in exactly one
/// layer.
pub proof fn law_layers_bind_every_relation_once(
    order: Seq<Seq<char>>,
    relations: Map<Seq<char>, Set<Seq<char>>>,
    r: Seq<char>,
)
    requires
        order.len() > 0,
        relations.contains_key(r),
        relations[r].subset_of(order.to_set()),
    ensures
        exists|i: int| 0 <= i < order.len() && #[trigger] newly_bound(order, relations, i).contains(r),
        forall|i: int, j: int|
            0 <= i < j < order.len() ==> !(#[trigger] newly_bound(order, relations, i).contains(r)
                && #[trigger] newly_bound(order, relations, j).contains(r)),
{
    let n = order.len() as int;
    assert(order.take(n) =~= order);
    lemma_bound_first(order, relations, r, n - 1);
    assert forall|i: int, j: int| 0 <= i < j < n implies !(#[trigger] newly_bound(order, relations, i).contains(r)
        && #[trigger] newly_bound(order, relations, j).contains(r)) by {
        if newly_bound(order, relations, i).contains(r) {
            assert forall|v: Seq<char>| relations[r].contains(v) implies order.take(j).to_set().contains(v) by {
                let first = order.take(i + 1);
                assert(first.to_set().contains(v));
                let k = choose|k: int| 0 <= k < first.len() && first[k] == v;
                assert(order.take(j)[k] == v);
            }
            assert(bound_after(order, j, relations[r]));
        }
    }
}

proof fn lemma_bound_first(order: Seq<Seq<char>>, relations: Map<Seq<char>, Set<Seq<char>>>, r: Seq<char>, i: int)
    requires
        0 <= i < order.len(),
        relations.contains_key(r),
        bound_after(order, i + 1, relations[r]),
    ensures
        exists|k: int| 0 <= k < order.len() && #[trigger] newly_bound(order, relations, k).contains(r),
    decreases i,
{
    if i > 0 && bound_after(order, i, relations[r]) {
        lemma_bound_first(order, relations, r, i - 1);
    } else {
        assert(newly_bound(order, relations, i).contains(r));
    }
}

/// A copy of the first `n` strings.
fn prefix_of(order: &[String], n: usize) -> (r: Vec<String>)
    requires
        n <= order@.len(),
    ensures
        r@.map_values(text()) == order@.map_values(text()).take(n as int),
{
    let mut r: Vec<String> = Vec::new();
    let mut i: usize = 0;
    while i < n
        invariant
            i <= n <= order@.len(),
            r@.len() == i,
            forall|j: int| 0 <= j < i ==> (#[trigger] r@[j])@ == order@[j]@,
        decreases n - i,
    {
        r.push(order[i].clone());
        i += 1;
    }
    assert(r@.map_values(text()) =~= order@.map_values(text()).take(n as int));
    r
}

/// The layers of an order.
#[verifier::rlimit(30)]
fn build_layers(order: &[String], relations: &NameMap<NameSet>) -> (r: Vec<ViewLayer>)
    requires
        sets_wf(relations),
    ensures
        are_layers(r@, order@.map_values(text()), set_map(relations)),
{
    let ghost names = order@.map_values(text());
    let ghost rels = set_map(relations);
    let mut layers: Vec<ViewLayer> = Vec::new();
    let mut bound = NameSet::new();
    let mut assigned = NameSet::new();
    let mut i: usize = 0;
    assert(names.take(0).to_set() =~= Set::empty());
    while i < order.len()
        invariant
            sets_wf(relations),
            rels == set_map(relations),
            names == order@.map_values(text()),
            i <= order@.len(),
            layers@.len() == i,
            forall|k: int|
                0 <= k < i ==> {
                    let layer = #[trigger] layers@[k];
                    &&& layer.variables@.map_values(text()) == names.take(k + 1)
                    &&& layer.relations.wf()
                    &&& layer.relations@ == newly_bound(names, rels, k)
                },
            bound.wf(),
            bound@ == names.take(i as int).to_set(),
            assigned.wf(),
            forall|r: Seq<char>| #[trigger]
                assigned@.contains(r) <==> rels.contains_key(r) && i > 0 && bound_after(names, i as int, rels[r]),
        decreases order@.len() - i,
    {
        bound.insert(order[i].as_str());
        proof {
            assert(names.take(i + 1) =~= names.take(i as int).push(names[i as int]));
            names.take(i as int).lemma_push_to_set_commute(names[i as int]);
        }
        let mut fresh = NameSet::new();
        let mut j: usize = 0;
        while j < relations.len()
            invariant
                sets_wf(relations),
                rels == set_map(relations),
                i < names.len(),
                j <= relations.keys().len(),
                bound.wf(),
                bound@ == names.take(i + 1).to_set(),
                assigned.wf(),
                forall|r: Seq<char>| #[trigger]
                    assigned@.contains(r) <==> rels.contains_key(r) && i > 0 && bound_after(names, i as int, rels[r]),
                fresh.wf(),
                forall|r: Seq<char>| #[trigger]
                    fresh@.contains(r) <==> newly_bound(names, rels, i as int).contains(r) && exists|k: int|
                        0 <= k < j && relations.keys()[k] == r,
            decreases relations.keys().len() - j,
        {
            proof {
                lemma_keys(relations);
                assert(rels.contains_key(relations.keys()[j as int]));
            }
            let ghost fresh0 = fresh@;
            let name = relations.key_at(j);
            if !assigned.contains(name) && relations.value_at(j).is_subset(&bound) {
                fresh.insert(name);
            }
            proof {
                assert forall|r: Seq<char>| #[trigger] fresh@.contains(r) <==> newly_bound(
                    names,
                    rels,
                    i as int,
                ).contains(r) && exists|k: int| 0 <= k < j + 1 && relations.keys()[k] == r by {
                    if fresh0.contains(r) {
                        let k = choose|k: int| 0 <= k < j && relations.keys()[k] == r;
                        assert(0 <= k < j + 1 && relations.keys()[k] == r);
                    } else if fresh@.contains(r) {
                        assert(0 <= j < j + 1 && relations.keys()[j as int] == r);
                    }
                    if newly_bound(names, rels, i as int).contains(r) && exists|k: int|
                        0 <= k < j + 1 && relations.keys()[k] == r {
                        let k = choose|k: int| 0 <= k < j + 1 && relations.keys()[k] == r;
                        if k < j {
                            assert(fresh0.contains(r));
                        }
                    }
                }
            }
            j += 1;
        }
        proof {
            lemma_keys(relations);
            assert forall|r: Seq<char>| fresh@.contains(r) == newly_bound(names, rels, i as int).contains(r) by {
                if newly_bound(names, rels, i as int).contains(r) {
                    assert(rels.contains_key(r));
                    let k = choose|k: int| 0 <= k < relations.keys().len() && relations.keys()[k] == r;
                    assert(0 <= k < j && relations.keys()[k] == r);
                }
            }
            assert(fresh@ =~= newly_bound(names, rels, i as int));
        }
        let ghost assigned0 = assigned@;
        let mut k: usize = 0;
        while k < fresh.len()
            invariant
                fresh.wf(),
                assigned.wf(),
                k <= fresh.listed().len(),
                assigned@ == assigned0.union(fresh.listed().take(k as int).to_set()),
            decreases fresh.listed().len() - k,
        {
            assigned.insert(fresh.get(k));
            proof {
                let l = fresh.listed();
                assert(l.take(k + 1) =~= l.take(k as int).push(l[k as int]));
                l.take(k as int).lemma_push_to_set_commute(l[k as int]);
                assert(assigned@ =~= assigned0.union(l.take(k + 1).to_set()));
            }
            k += 1;
        }
        proof {
            fresh.lemma_listed();
            assert(fresh.listed().take(0).to_set() =~= Set::empty());
            assert(fresh.listed().take(k as int) =~= fresh.listed());
            assert forall|r: Seq<char>| #[trigger] assigned@.contains(r) <==> rels.contains_key(r) && bound_after(
                names,
                i + 1,
                rels[r],
            ) by {
                if assigned0.contains(r) {
                    assert(names.take(i as int).to_set().subset_of(names.take(i + 1).to_set()));
                }
            }
        }
        layers.push(ViewLayer { variables: prefix_of(order, i + 1), relations: fresh });
        i += 1;
    }
    layers
}

/// Prefix and suffix layers over a variable order: which relations become
/// fully bound at each step. The plan describes; it computes nothing.
#[derive(Clone, Debug)]
pub struct FactorizedViewPlan {
    variable_order: VariableOrder,
    prefix_layers: Vec<ViewLayer>,
    suffix_layers: Vec<ViewLayer>,
    relation_variables: NameMap<NameSet>,
}

impl FactorizedViewPlan {
    pub closed spec fn order(&self) -> VariableOrder {
        self.variable_order
    }

    pub closed spec fn relations(&self) -> Map<Seq<char>, Set<Seq<char>>> {
        set_map(&self.relation_variables)
    }

    pub closed spec fn wf(&self) -> bool {
        &&& sets_wf(&self.relation_variables)
        &&& are_layers(self.prefix_layers@, self.variable_order.prefix(), self.relations())
        &&& are_layers(self.suffix_layers@, self.variable_order.prefix().reverse(), self.relations())
    }

    /// The plan for the relations of a graph over a variable order.
    pub fn from_graph(graph: &JoinGraph, variable_order: VariableOrder) -> (r: Self)
        requires
            graph.wf(),
        ensures
            r.wf(),
            r.order() == variable_order,
            r.relations() == graph.relation_map(),
    {
        let relation_variables = graph.relation_sets();
        let prefix_layers = build_layers(variable_order.prefix_order(), &relation_variables);
        let reversed = reverse_strings(variable_order.prefix_order());
        let suffix_layers = build_layers(reversed.as_slice(), &relation_variables);
        FactorizedViewPlan { variable_order, prefix_layers, suffix_layers, relation_variables }
    }

    pub fn variable_order(&self) -> (r: &VariableOrder)
        ensures
            *r == self.order(),
    {
        &self.variable_order
    }

    pub fn prefix_layers(&self) -> (r: &[ViewLayer])
        requires
            self.wf(),
        ensures
            are_layers(r@, self.order().prefix(), self.relations()),
    {
        self.prefix_layers.as_slice()
    }

    pub fn suffix_layers(&self) -> (r: &[ViewLayer])
        requires
            self.wf(),
        ensures
            are_layers(r@, self.order().prefix().reverse(), self.relations()),
    {
        self.suffix_layers.as_slice()
    }

    pub fn relation_variables(&self) -> (r: &NameMap<NameSet>)
        requires
            self.wf(),
        ensures
            sets_wf(r),
            set_map(r) == self.relations(),
    {
        &self.relation_variables
    }
}

/// The strings in reverse order.
pub fn reverse_strings(order: &[String]) -> (r: Vec<String>)
    ensures
        r@.map_values(text()) == order@.map_values(text()).reverse(),
{
    let mut r: Vec<String> = Vec::new();
    let mut i: usize = order.len();
    while i > 0
        invariant
            i <= order@.len(),
            r@.len() == order@.len() - i,
            forall|j: int| 0 <= j < r@.len() ==> (#[trigger] r@[j])@ == order@[order@.len() - 1 - j]@,
        decreases i,
    {
        i -= 1;
        r.push(order[i].clone());
    }
    assert(r@.map_values(text()) =~= order@.map_values(text()).reverse());
    r
}

} // verus!
