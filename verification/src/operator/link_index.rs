//! An index of links: from a node and a predicate to the nodes at the other
//! end.
use vstd::prelude::*;

use crate::names::{lemma_ascending_unique, NameMap, NameSet};
use crate::operator::hypergraph::{lemma_listing, listing};

verus! {

/// The links `(node, predicate, other)` of some nodes. Its view is their set.
pub struct LinkIndex {
    by_node: NameMap<NameMap<NameSet>>,
}

/// The predicates that lead from a node.
pub open spec fn ways(links: Set<(Seq<char>, Seq<char>, Seq<char>)>, node: Seq<char>) -> Set<Seq<char>> {
    Set::new(|p: Seq<char>| exists|o: Seq<char>| #[trigger] links.contains((node, p, o)))
}

/// The nodes that a predicate leads to from a node.
pub open spec fn ends(
    links: Set<(Seq<char>, Seq<char>, Seq<char>)>,
    node: Seq<char>,
    predicate: Seq<char>,
) -> Set<Seq<char>> {
    Set::new(|o: Seq<char>| links.contains((node, predicate, o)))
}

impl View for LinkIndex {
    type V = Set<(Seq<char>, Seq<char>, Seq<char>)>;

    closed spec fn view(&self) -> Set<(Seq<char>, Seq<char>, Seq<char>)> {
        Set::new(|t: (Seq<char>, Seq<char>, Seq<char>)| self.holds(t.0, t.1, t.2))
    }
}

/// A map of sets that is sound and holds no empty set.
spec fn sets_sound(m: NameMap<NameSet>) -> bool {
    &&& m.wf()
    &&& forall|p: Seq<char>| #[trigger]
        m@.contains_key(p) ==> m@[p].wf() && m@[p]@ != Set::<Seq<char>>::empty()
}

impl LinkIndex {
    spec fn holds(&self, node: Seq<char>, predicate: Seq<char>, other: Seq<char>) -> bool {
        self.by_node@.contains_key(node) && self.by_node@[node]@.contains_key(predicate)
            && self.by_node@[node]@[predicate]@.contains(other)
    }

    /// Nothing empty is kept.
    pub closed spec fn wf(&self) -> bool {
        &&& self.by_node.wf()
        &&& forall|n: Seq<char>| #[trigger]
            self.by_node@.contains_key(n) ==> sets_sound(self.by_node@[n]) && self.by_node@[n].keys().len() > 0
    }

    pub fn new() -> (r: Self)
        ensures
            r.wf(),
            r@ == Set::<(Seq<char>, Seq<char>, Seq<char>)>::empty(),
    {
        let r = LinkIndex { by_node: NameMap::new() };
        assert(r@ =~= Set::<(Seq<char>, Seq<char>, Seq<char>)>::empty());
        r
    }

    /// Adds a link.
    pub fn add(&mut self, node: &str, predicate: &str, other: &str)
        requires
            old(self).wf(),
        ensures
            final(self).wf(),
            final(self)@ == old(self)@.insert((node@, predicate@, other@)),
    {
        let mut predicates = match self.by_node.remove(node) {
            Some(m) => m,
            None => NameMap::new(),
        };
        let ghost m0 = predicates@;
        assert(sets_sound(predicates));
        let mut others = match predicates.remove(predicate) {
            Some(s) => s,
            None => NameSet::new(),
        };
        others.insert(other);
        assert(others@.contains(other@));
        predicates.insert(predicate, others);
        assert(predicates@ == m0.insert(predicate@, others)) by {
            assert(m0.remove(predicate@).insert(predicate@, others) =~= m0.insert(predicate@, others));
        }
        assert(predicates.keys().len() > 0) by {
            assert(predicates@.contains_key(predicate@));
            assert(predicates.keys().contains(predicate@));
        }
        self.by_node.insert(node, predicates);
        proof {
            assert(self.by_node@ =~= old(self).by_node@.insert(node@, predicates));
            assert forall|t: (Seq<char>, Seq<char>, Seq<char>)| self@.contains(t) == old(self)@.insert(
                (node@, predicate@, other@),
            ).contains(t) by {}
            assert(self@ =~= old(self)@.insert((node@, predicate@, other@)));
        }
    }

    /// Removes a link, and what becomes empty by it.
    pub fn remove(&mut self, node: &str, predicate: &str, other: &str)
        requires
            old(self).wf(),
        ensures
            final(self).wf(),
            final(self)@ == old(self)@.remove((node@, predicate@, other@)),
    {
        let ghost before = self@;
        let mut predicates = match self.by_node.remove(node) {
            Some(m) => m,
            None => {
                assert(self.by_node@ =~= old(self).by_node@);
                assert(self@ =~= before.remove((node@, predicate@, other@)));
                return ;
            },
        };
        let ghost m0 = predicates@;
        assert(sets_sound(predicates));
        match predicates.remove(predicate) {
            Some(s) => {
                let mut others = s;
                let ghost s0 = others@;
                others.remove(other);
                if !others.is_empty() {
                    predicates.insert(predicate, others);
                    assert(predicates@ =~= m0.insert(predicate@, others));
                } else {
                    assert(s0.remove(other@) =~= Set::<Seq<char>>::empty());
                    assert(predicates@ =~= m0.remove(predicate@));
                }
            },
            None => {
                assert(predicates@ =~= m0);
            },
        }
        assert forall|p: Seq<char>, o: Seq<char>| (predicates@.contains_key(p) && #[trigger] predicates@[p]@.contains(o))
            == (m0.contains_key(p) && m0[p]@.contains(o) && !(p == predicate@ && o == other@)) by {
            if p == predicate@ && m0.contains_key(p) {
                assert(m0[p]@.remove(other@).contains(o) == (m0[p]@.contains(o) && o != other@));
            }
        }
        if !predicates.is_empty() {
            self.by_node.insert(node, predicates);
            assert(self.by_node@ =~= old(self).by_node@.insert(node@, predicates));
        }
        proof {
            if predicates.keys().len() == 0 {
                assert forall|p: Seq<char>| !predicates@.contains_key(p) by {}
            }
            assert forall|t: (Seq<char>, Seq<char>, Seq<char>)| self@.contains(t) == before.remove(
                (node@, predicate@, other@),
            ).contains(t) by {
                let x = (node@, predicate@, other@);
                assert(before.remove(x).contains(t) == (before.contains(t) && t != x));
                assert((t == x) == (t.0 == node@ && t.1 == predicate@ && t.2 == other@));
                if t.0 != node@ {
                    assert(self.by_node@.contains_key(t.0) == old(self).by_node@.contains_key(t.0));
                    assert(self@.contains(t) == self.holds(t.0, t.1, t.2));
                    assert(before.contains(t) == old(self).holds(t.0, t.1, t.2));
                } else {
                    assert(before.contains(t) == (m0.contains_key(t.1) && m0[t.1]@.contains(t.2)));
                    assert(self@.contains(t) == (predicates@.contains_key(t.1) && predicates@[t.1]@.contains(t.2)));
                    let held = predicates@[t.1]@.contains(t.2);
                    assert((predicates@.contains_key(t.1) && held) == (m0.contains_key(t.1) && m0[t.1]@.contains(t.2) && !(
                    t.1 == predicate@ && t.2 == other@)));
                }
            }
            assert(self@ =~= before.remove((node@, predicate@, other@)));
        }
    }

    /// The nodes that a predicate leads to from a node, in order.
    pub fn others(&self, node: &str, predicate: &str) -> (r: Vec<&str>)
        requires
            self.wf(),
        ensures
            r@.map_values(|s: &str| s@) == listing(ends(self@, node@, predicate@)),
    {
        let empty = NameSet::new();
        let mut r: Vec<&str> = Vec::new();
        if let Some(predicates) = self.by_node.get(node) {
            if let Some(set) = predicates.get(predicate) {
                assert(sets_sound(*predicates));
                proof {
                    assert(set@ =~= ends(self@, node@, predicate@));
                    lemma_listing(set);
                }
                let mut i: usize = 0;
                while i < set.len()
                    invariant
                        set.wf(),
                        i <= set.listed().len(),
                        r@.map_values(|s: &str| s@) == set.listed().take(i as int),
                    decreases set.listed().len() - i,
                {
                    let ghost before = r@;
                    r.push(set.get(i));
                    assert(r@.map_values(|s: &str| s@) =~= before.map_values(|s: &str| s@).push(
                        set.listed()[i as int],
                    ));
                    i += 1;
                    assert(set.listed().take(i as int) =~= set.listed().take(i - 1).push(set.listed()[i - 1]));
                }
                assert(set.listed().take(i as int) =~= set.listed());
                return r;
            }
        }
        proof {
            assert(empty@ =~= ends(self@, node@, predicate@));
            lemma_listing(&empty);
        }
        assert(r@.map_values(|s: &str| s@) =~= empty.listed());
        r
    }

    /// Does the predicate lead anywhere from the node?
    pub fn has(&self, node: &str, predicate: &str) -> (r: bool)
        requires
            self.wf(),
        ensures
            r == ways(self@, node@).contains(predicate@),
    {
        if let Some(predicates) = self.by_node.get(node) {
            assert(sets_sound(*predicates));
            if let Some(set) = predicates.get(predicate) {
                proof {
                    if forall|o: Seq<char>| !set@.contains(o) {
                        assert(set@ =~= Set::empty());
                    }
                    let o = choose|o: Seq<char>| set@.contains(o);
                    assert(self@.contains((node@, predicate@, o)));
                }
                return true;
            }
        }
        false
    }

    /// The predicates that lead from a node, in order.
    pub fn predicates(&self, node: &str) -> (r: Vec<&str>)
        requires
            self.wf(),
        ensures
            r@.map_values(|s: &str| s@) == listing(ways(self@, node@)),
    {
        let empty = NameSet::new();
        let mut r: Vec<&str> = Vec::new();
        if let Some(predicates) = self.by_node.get(node) {
            assert(sets_sound(*predicates));
            let mut i: usize = 0;
            while i < predicates.len()
                invariant
                    i <= predicates.keys().len(),
                    r@.map_values(|s: &str| s@) == predicates.keys().take(i as int),
                decreases predicates.keys().len() - i,
            {
                let ghost before = r@;
                r.push(predicates.key_at(i));
                assert(r@.map_values(|s: &str| s@) =~= before.map_values(|s: &str| s@).push(
                    predicates.keys()[i as int],
                ));
                i += 1;
                assert(predicates.keys().take(i as int) =~= predicates.keys().take(i - 1).push(
                    predicates.keys()[i - 1],
                ));
            }
            proof {
                let keys = predicates.keys();
                assert(keys.take(i as int) =~= keys);
                let w = ways(self@, node@);
                assert forall|p: Seq<char>| keys.to_set().contains(p) == w.contains(p) by {
                    if keys.contains(p) {
                        assert(predicates@.contains_key(p));
                        let set = predicates@[p];
                        assert(exists|o: Seq<char>| set@.contains(o)) by {
                            if forall|o: Seq<char>| !set@.contains(o) {
                                assert(set@ =~= Set::empty());
                            }
                        }
                        let o = choose|o: Seq<char>| set@.contains(o);
                        assert(self@.contains((node@, p, o)));
                    }
                    if w.contains(p) {
                        let o = choose|o: Seq<char>| #[trigger] self@.contains((node@, p, o));
                        assert(predicates@.contains_key(p));
                    }
                }
                assert(keys.to_set() =~= w);
                let l = listing(w);
                assert(crate::names::ascending_names(keys) && keys.to_set() == w);
                lemma_ascending_unique(l, keys);
            }
            return r;
        }
        proof {
            assert(empty@ =~= ways(self@, node@)) by {
                assert forall|p: Seq<char>| !ways(self@, node@).contains(p) by {}
            }
            lemma_listing(&empty);
        }
        assert(r@.map_values(|s: &str| s@) =~= empty.listed());
        r
    }
}

} // verus!
