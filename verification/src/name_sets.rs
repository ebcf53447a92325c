//! Maps from names to sets of names.
use vstd::prelude::*;

use crate::names::{NameMap, NameSet};

verus! {

/// A map from names to sets of names, as plain mathematics.
pub open spec fn set_map(m: &NameMap<NameSet>) -> Map<Seq<char>, Set<Seq<char>>> {
    Map::new(|n: Seq<char>| m@.contains_key(n), |n: Seq<char>| m@[n]@)
}

/// Keys ascending, every set sound.
pub open spec fn sets_wf(m: &NameMap<NameSet>) -> bool {
    &&& m.wf()
    &&& forall|i: int| 0 <= i < m.values().len() ==> (#[trigger] m.values()[i]).wf()
}

pub proof fn lemma_set_at(m: &NameMap<NameSet>, name: Seq<char>)
    requires
        sets_wf(m),
        m@.contains_key(name),
    ensures
        m@[name].wf(),
        set_map(m)[name] == m@[name]@,
{
    let i = choose|i: int| 0 <= i < m.keys().len() && m.keys()[i] == name;
    m.lemma_shape();
    m.lemma_lookup(i);
}

/// The map without a name is sound, and so is the map with a sound set more.
proof fn lemma_sets_insert(before: &NameMap<NameSet>, after: &NameMap<NameSet>, name: Seq<char>, set: NameSet)
    requires
        sets_wf(before),
        after.wf(),
        set.wf(),
        after@ == before@.insert(name, set),
    ensures
        sets_wf(after),
        set_map(after) == set_map(before).insert(name, set@),
{
    after.lemma_shape();
    assert forall|i: int| 0 <= i < after.values().len() implies (#[trigger] after.values()[i]).wf() by {
        after.lemma_lookup(i);
        let k = after.keys()[i];
        if k != name {
            assert(before@.contains_key(k));
            lemma_set_at(before, k);
        }
    }
    assert(set_map(after) =~= set_map(before).insert(name, set@));
}

proof fn lemma_sets_remove(before: &NameMap<NameSet>, after: &NameMap<NameSet>, name: Seq<char>)
    requires
        sets_wf(before),
        after.wf(),
        after@ == before@.remove(name),
    ensures
        sets_wf(after),
        set_map(after) == set_map(before).remove(name),
{
    after.lemma_shape();
    assert forall|i: int| 0 <= i < after.values().len() implies (#[trigger] after.values()[i]).wf() by {
        after.lemma_lookup(i);
        let k = after.keys()[i];
        assert(after@.contains_key(k));
        assert(before@.contains_key(k));
        lemma_set_at(before, k);
    }
    assert(set_map(after) =~= set_map(before).remove(name));
}

/// The empty map.
pub fn no_sets() -> (r: NameMap<NameSet>)
    ensures
        sets_wf(&r),
        set_map(&r) == Map::<Seq<char>, Set<Seq<char>>>::empty(),
        r.keys() == Seq::<Seq<char>>::empty(),
{
    let r: NameMap<NameSet> = NameMap::new();
    proof {
        r.lemma_shape();
        assert(set_map(&r) =~= Map::<Seq<char>, Set<Seq<char>>>::empty());
    }
    r
}

/// Puts a set under a name.
pub fn put_set(m: &mut NameMap<NameSet>, name: &str, set: NameSet)
    requires
        sets_wf(old(m)),
        set.wf(),
    ensures
        sets_wf(final(m)),
        set_map(final(m)) == set_map(old(m)).insert(name@, set@),
{
    let ghost before = *m;
    m.insert(name, set);
    proof {
        lemma_sets_insert(&before, m, name@, set);
    }
}

/// Takes a name out. Returns `false` if it was not there.
pub fn drop_set(m: &mut NameMap<NameSet>, name: &str) -> (r: bool)
    requires
        sets_wf(old(m)),
    ensures
        sets_wf(final(m)),
        r == set_map(old(m)).contains_key(name@),
        set_map(final(m)) == set_map(old(m)).remove(name@),
        final(m).keys().len() == old(m).keys().len() - if r { 1int } else { 0 },
{
    let ghost before = *m;
    let r = m.remove(name);
    proof {
        lemma_sets_remove(&before, m, name@);
    }
    r.is_some()
}

/// Adds a member to the set under a name that is there.
pub fn add_member(m: &mut NameMap<NameSet>, name: &str, member: &str)
    requires
        sets_wf(old(m)),
        set_map(old(m)).contains_key(name@),
    ensures
        sets_wf(final(m)),
        set_map(final(m)) == set_map(old(m)).insert(name@, set_map(old(m))[name@].insert(member@)),
        set_map(final(m)).dom() == set_map(old(m)).dom(),
{
    let ghost before = *m;
    proof {
        lemma_set_at(m, name@);
    }
    if let Some(set) = m.remove(name) {
        let mut grown = set;
        proof {
            lemma_sets_remove(&before, m, name@);
        }
        grown.insert(member);
        put_set(m, name, grown);
        proof {
            assert(set_map(m) =~= set_map(&before).insert(name@, set_map(&before)[name@].insert(member@)));
            assert(set_map(m).dom() =~= set_map(&before).dom());
        }
    }
}

/// Takes a member out of the set under a name, if the name is there.
pub fn remove_member(m: &mut NameMap<NameSet>, name: &str, member: &str)
    requires
        sets_wf(old(m)),
    ensures
        sets_wf(final(m)),
        set_map(old(m)).contains_key(name@) ==> set_map(final(m)) == set_map(old(m)).insert(
            name@,
            set_map(old(m))[name@].remove(member@),
        ),
        !set_map(old(m)).contains_key(name@) ==> set_map(final(m)) == set_map(old(m)),
        set_map(final(m)).dom() == set_map(old(m)).dom(),
{
    let ghost before = *m;
    proof {
        if m@.contains_key(name@) {
            lemma_set_at(m, name@);
        }
    }
    match m.remove(name) {
        Some(set) => {
            let mut shrunk = set;
            proof {
                lemma_sets_remove(&before, m, name@);
            }
            shrunk.remove(member);
            put_set(m, name, shrunk);
            proof {
                assert(set_map(m) =~= set_map(&before).insert(name@, set_map(&before)[name@].remove(member@)));
                assert(set_map(m).dom() =~= set_map(&before).dom());
            }
        },
        None => {
            proof {
                assert(m@ =~= before@);
                lemma_sets_remove(&before, m, name@);
                assert(set_map(m) =~= set_map(&before));
            }
        },
    }
}

/// Is `member` in the set under `name`?
pub fn has_member(m: &NameMap<NameSet>, name: &str, member: &str) -> (r: bool)
    requires
        sets_wf(m),
    ensures
        r == (set_map(m).contains_key(name@) && set_map(m)[name@].contains(member@)),
{
    match m.get(name) {
        Some(set) => {
            proof {
                lemma_set_at(m, name@);
            }
            set.contains(member)
        },
        None => false,
    }
}

/// Copies a map of sets.
pub fn copy_sets(m: &NameMap<NameSet>) -> (r: NameMap<NameSet>)
    requires
        sets_wf(m),
    ensures
        sets_wf(&r),
        set_map(&r) == set_map(m),
        r.keys() == m.keys(),
{
    let mut r: NameMap<NameSet> = no_sets();
    let mut i: usize = 0;
    proof {
        m.lemma_shape();
    }
    while i < m.len()
        invariant
            sets_wf(m),
            sets_wf(&r),
            m.keys().len() == m.values().len(),
            i <= m.keys().len(),
            forall|n: Seq<char>| #[trigger]
                set_map(&r).contains_key(n) <==> exists|j: int| 0 <= j < i && m.keys()[j] == n,
            forall|n: Seq<char>| #[trigger] set_map(&r).contains_key(n) ==> set_map(&r)[n] == set_map(m)[n],
        decreases m.keys().len() - i,
    {
        proof {
            m.lemma_lookup(i as int);
        }
        let ghost before = set_map(&r);
        put_set(&mut r, m.key_at(i), m.value_at(i).clone());
        proof {
            assert forall|n: Seq<char>| #[trigger] set_map(&r).contains_key(n) <==> exists|j: int|
                0 <= j < i + 1 && m.keys()[j] == n by {
                if set_map(&r).contains_key(n) {
                    if before.contains_key(n) {
                        let j = choose|j: int| 0 <= j < i && m.keys()[j] == n;
                        assert(0 <= j < i + 1 && m.keys()[j] == n);
                    } else {
                        assert(m.keys()[i as int] == n);
                    }
                }
                if exists|j: int| 0 <= j < i + 1 && m.keys()[j] == n {
                    let j = choose|j: int| 0 <= j < i + 1 && m.keys()[j] == n;
                    if j < i {
                        assert(before.contains_key(n));
                    }
                }
            }
        }
        i += 1;
    }
    proof {
        assert forall|n: Seq<char>| set_map(&r).contains_key(n) == set_map(m).contains_key(n) by {
            if set_map(m).contains_key(n) {
                let j = choose|j: int| 0 <= j < m.keys().len() && m.keys()[j] == n;
                assert(0 <= j < i && m.keys()[j] == n);
            }
        }
        assert(set_map(&r) =~= set_map(m));
        assert(r.keys().to_set() =~= m.keys().to_set()) by {
            assert forall|n: Seq<char>| r.keys().to_set().contains(n) == m.keys().to_set().contains(n) by {
                assert(r@.contains_key(n) == set_map(&r).contains_key(n));
                assert(m@.contains_key(n) == set_map(m).contains_key(n));
            }
        }
        crate::names::lemma_ascending_unique(r.keys(), m.keys());
    }
    r
}

} // verus!
