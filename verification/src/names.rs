//! Names in lexicographic order, and the sets and maps kept in that order.
use vstd::prelude::*;

verus! {

/// Lexicographic order by code points.
pub open spec fn name_less(a: Seq<char>, b: Seq<char>) -> bool
    decreases a.len(),
{
    if b.len() == 0 {
        false
    } else if a.len() == 0 {
        true
    } else if a[0] != b[0] {
        a[0] < b[0]
    } else {
        name_less(a.skip(1), b.skip(1))
    }
}

pub proof fn lemma_less_irreflexive(a: Seq<char>)
    ensures
        !name_less(a, a),
    decreases a.len(),
{
    if a.len() > 0 {
        lemma_less_irreflexive(a.skip(1));
    }
}

pub proof fn lemma_less_transitive(a: Seq<char>, b: Seq<char>, c: Seq<char>)
    requires
        name_less(a, b),
        name_less(b, c),
    ensures
        name_less(a, c),
    decreases a.len(),
{
    if a.len() > 0 && b.len() > 0 && c.len() > 0 && a[0] == b[0] && b[0] == c[0] {
        lemma_less_transitive(a.skip(1), b.skip(1), c.skip(1));
    }
}

pub proof fn lemma_less_total(a: Seq<char>, b: Seq<char>)
    ensures
        name_less(a, b) || a == b || name_less(b, a),
    decreases a.len(),
{
    if a.len() == 0 && b.len() == 0 {
        assert(a =~= b);
    } else if a.len() > 0 && b.len() > 0 && a[0] == b[0] {
        lemma_less_total(a.skip(1), b.skip(1));
        if a.skip(1) == b.skip(1) {
            assert forall|i: int| 0 <= i < a.len() implies a[i] == b[i] by {
                if i > 0 {
                    assert(a[i] == a.skip(1)[i - 1]);
                    assert(b[i] == b.skip(1)[i - 1]);
                }
            }
            assert(a.len() == a.skip(1).len() + 1);
            assert(b.len() == b.skip(1).len() + 1);
            assert(a =~= b);
        }
    }
}

pub proof fn lemma_less_asymmetric(a: Seq<char>, b: Seq<char>)
    requires
        name_less(a, b),
    ensures
        !name_less(b, a),
        a != b,
{
    if name_less(b, a) {
        lemma_less_transitive(a, b, a);
    }
    lemma_less_irreflexive(a);
}

/// How two names compare.
#[derive(Clone, Copy, Debug, PartialEq, Eq, Structural)]
pub enum NameOrder {
    Before,
    Same,
    After,
}

pub open spec fn name_order(a: Seq<char>, b: Seq<char>) -> NameOrder {
    if a == b {
        NameOrder::Same
    } else if name_less(a, b) {
        NameOrder::Before
    } else {
        NameOrder::After
    }
}

/// Compares two names.
pub fn order_names(a: &str, b: &str) -> (r: NameOrder)
    ensures
        r == name_order(a@, b@),
        r == NameOrder::After ==> name_less(b@, a@),
{
    proof {
        lemma_less_total(a@, b@);
    }
    let mut x = a.chars();
    let mut y = b.chars();
    assert(a@.skip(0) =~= a@);
    assert(b@.skip(0) =~= b@);
    let ghost mut k: int = 0;
    loop
        invariant
            0 <= k <= a@.len(),
            k <= b@.len(),
            vstd::std_specs::iter::IteratorSpec::obeys_prophetic_iter_laws(&x),
            vstd::std_specs::iter::IteratorSpec::obeys_prophetic_iter_laws(&y),
            vstd::std_specs::iter::IteratorSpec::remaining(&x) == a@.skip(k),
            vstd::std_specs::iter::IteratorSpec::remaining(&y) == b@.skip(k),
            name_less(a@, b@) == name_less(a@.skip(k), b@.skip(k)),
            a@ == b@ <==> a@.skip(k) == b@.skip(k),
            name_less(a@, b@) || a@ == b@ || name_less(b@, a@),
        decreases a@.len() - k,
    {
        let ghost ra = a@.skip(k);
        let ghost rb = b@.skip(k);
        let c = x.next();
        let d = y.next();
        match (c, d) {
            (None, None) => {
                assert(ra =~= rb);
                return NameOrder::Same;
            },
            (None, Some(_)) => {
                return NameOrder::Before;
            },
            (Some(_), None) => {
                return NameOrder::After;
            },
            (Some(p), Some(q)) => {
                if p < q {
                    assert(ra[0] != rb[0]);
                    return NameOrder::Before;
                }
                if q < p {
                    assert(ra[0] != rb[0]);
                    return NameOrder::After;
                }
                proof {
                    assert(ra.skip(1) =~= a@.skip(k + 1));
                    assert(rb.skip(1) =~= b@.skip(k + 1));
                    if ra.skip(1) == rb.skip(1) {
                        assert(ra =~= seq![p] + ra.skip(1));
                        assert(rb =~= seq![q] + rb.skip(1));
                    }
                    k = k + 1;
                }
            },
        }
    }
}

/// Compares two names for equality.
pub fn same_name(a: &str, b: &str) -> (r: bool)
    ensures
        r == (a@ == b@),
{
    match order_names(a, b) {
        NameOrder::Same => true,
        _ => false,
    }
}

/// Strictly ascending names.
pub open spec fn ascending_names(names: Seq<Seq<char>>) -> bool {
    forall|i: int, j: int| 0 <= i < j < names.len() ==> name_less(#[trigger] names[i], #[trigger] names[j])
}

pub proof fn lemma_ascending_distinct(names: Seq<Seq<char>>)
    requires
        ascending_names(names),
    ensures
        names.no_duplicates(),
        names.to_set().finite(),
        names.to_set().len() == names.len(),
{
    assert forall|i: int, j: int| 0 <= i < names.len() && 0 <= j < names.len() && i != j implies names[i]
        != names[j] by {
        if i < j {
            lemma_less_asymmetric(names[i], names[j]);
        } else {
            lemma_less_asymmetric(names[j], names[i]);
        }
    }
    names.unique_seq_to_set();
    vstd::seq_lib::seq_to_set_is_finite(names);
}

/// The characters of a string.
pub open spec fn text() -> spec_fn(String) -> Seq<char> {
    |s: String| s@
}

/// A set of names in ascending order.
#[derive(Debug, PartialEq, Eq, Hash)]
pub struct NameSet {
    names: Vec<String>,
}

impl View for NameSet {
    type V = Set<Seq<char>>;

    closed spec fn view(&self) -> Set<Seq<char>> {
        self.listed().to_set()
    }
}

impl NameSet {
    /// The names in order.
    pub closed spec fn listed(&self) -> Seq<Seq<char>> {
        self.names@.map_values(text())
    }

    pub open spec fn wf(&self) -> bool {
        ascending_names(self.listed())
    }

    pub proof fn lemma_listed(&self)
        requires
            self.wf(),
        ensures
            self.listed().no_duplicates(),
            self.listed().to_set() == self@,
            self@.finite(),
            self@.len() == self.listed().len(),
    {
        lemma_ascending_distinct(self.listed());
    }

    pub fn new() -> (r: Self)
        ensures
            r.wf(),
            r@ == Set::<Seq<char>>::empty(),
            r.listed() == Seq::<Seq<char>>::empty(),
    {
        let r = NameSet { names: Vec::new() };
        assert(r.listed() =~= Seq::<Seq<char>>::empty());
        assert(r@ =~= Set::<Seq<char>>::empty());
        r
    }

    pub fn len(&self) -> (r: usize)
        requires
            self.wf(),
        ensures
            r == self@.len(),
            r == self.listed().len(),
    {
        proof {
            self.lemma_listed();
        }
        self.names.len()
    }

    pub fn is_empty(&self) -> (r: bool)
        requires
            self.wf(),
        ensures
            r == (self@ == Set::<Seq<char>>::empty()),
            r == (self.listed().len() == 0),
    {
        proof {
            if self.listed().len() == 0 {
                assert(self@ =~= Set::<Seq<char>>::empty());
            } else {
                assert(self@.contains(self.listed()[0]));
            }
        }
        self.names.len() == 0
    }

    /// The names in order.
    pub fn as_slice(&self) -> (r: &[String])
        ensures
            r@.map_values(text()) == self.listed(),
    {
        self.names.as_slice()
    }

    /// The name at position `i` of the order.
    pub fn get(&self, i: usize) -> (r: &str)
        requires
            i < self.listed().len(),
        ensures
            r@ == self.listed()[i as int],
    {
        self.names[i].as_str()
    }

    /// Where `name` is, or belongs.
    fn locate(&self, name: &str) -> (r: (bool, usize))
        requires
            self.wf(),
        ensures
            r.1 <= self.listed().len(),
            r.0 ==> r.1 < self.listed().len() && self.listed()[r.1 as int] == name@,
            forall|i: int| 0 <= i < r.1 ==> name_less(#[trigger] self.listed()[i], name@),
            !r.0 ==> forall|i: int| r.1 <= i < self.listed().len() ==> name_less(name@, #[trigger] self.listed()[i]),
            r.0 == self@.contains(name@),
    {
        let mut lo: usize = 0;
        let mut hi: usize = self.names.len();
        let ghost l = self.listed();
        while lo < hi
            invariant
                self.wf(),
                l == self.listed(),
                lo <= hi <= l.len(),
                forall|i: int| 0 <= i < lo ==> name_less(#[trigger] l[i], name@),
                forall|i: int| hi <= i < l.len() ==> name_less(name@, #[trigger] l[i]),
            decreases hi - lo,
        {
            let mid: usize = lo + (hi - lo) / 2;
            match order_names(self.names[mid].as_str(), name) {
                NameOrder::Same => {
                    assert(l[mid as int] == name@);
                    return (true, mid);
                },
                NameOrder::Before => {
                    assert(name_less(l[mid as int], name@));
                    assert forall|i: int| 0 <= i < mid + 1 implies name_less(#[trigger] l[i], name@) by {
                        if i < mid {
                            lemma_less_transitive(l[i], l[mid as int], name@);
                        }
                    }
                    lo = mid + 1;
                },
                NameOrder::After => {
                    assert(name_less(name@, l[mid as int]));
                    assert forall|i: int| mid <= i < l.len() implies name_less(name@, #[trigger] l[i]) by {
                        if i > mid {
                            lemma_less_transitive(name@, l[mid as int], l[i]);
                        }
                    }
                    hi = mid;
                },
            }
        }
        proof {
            if l.to_set().contains(name@) {
                let i = choose|i: int| 0 <= i < l.len() && l[i] == name@;
                lemma_less_irreflexive(name@);
            }
        }
        (false, lo)
    }

    pub fn contains(&self, name: &str) -> (r: bool)
        requires
            self.wf(),
        ensures
            r == self@.contains(name@),
    {
        self.locate(name).0
    }

    /// Adds a name. Returns `false` if it was there already.
    pub fn insert(&mut self, name: &str) -> (r: bool)
        requires
            old(self).wf(),
        ensures
            final(self).wf(),
            r == !old(self)@.contains(name@),
            final(self)@ == old(self)@.insert(name@),
    {
        let ghost l = self.listed();
        let (found, i) = self.locate(name);
        if found {
            assert(self@ =~= old(self)@.insert(name@));
            return false;
        }
        let s = name.to_string();
        self.names.insert(i, s);
        proof {
            let m = self.listed();
            assert(m =~= l.insert(i as int, name@));
            assert forall|x: int, y: int| 0 <= x < y < m.len() implies name_less(#[trigger] m[x], #[trigger] m[y]) by {
                let x2 = if x < i { x } else { x - 1 };
                let y2 = if y < i { y } else { y - 1 };
                if x != i && y != i {
                    assert(name_less(l[x2], l[y2]));
                } else if x == i {
                    assert(name_less(name@, l[y2]));
                } else {
                    assert(name_less(l[x2], name@));
                }
            }
            l.insert_ensures(i as int, name@);
            assert(m.to_set() =~= l.to_set().insert(name@)) by {
                assert forall|n: Seq<char>| m.to_set().contains(n) == l.to_set().insert(name@).contains(n) by {
                    if m.to_set().contains(n) {
                        let x = choose|x: int| 0 <= x < m.len() && m[x] == n;
                        if x != i {
                            let x2 = if x < i { x } else { x - 1 };
                            assert(l[x2] == n);
                        }
                    }
                    if l.to_set().contains(n) {
                        let x = choose|x: int| 0 <= x < l.len() && l[x] == n;
                        let x2 = if x < i { x } else { x + 1 };
                        assert(m[x2] == n);
                    }
                    assert(m[i as int] == name@);
                }
            }
        }
        true
    }

    /// Removes a name. Returns `false` if it was not there.
    pub fn remove(&mut self, name: &str) -> (r: bool)
        requires
            old(self).wf(),
        ensures
            final(self).wf(),
            r == old(self)@.contains(name@),
            final(self)@ == old(self)@.remove(name@),
    {
        let ghost l = self.listed();
        let (found, i) = self.locate(name);
        if !found {
            assert(self@ =~= old(self)@.remove(name@));
            return false;
        }
        self.names.remove(i);
        proof {
            let m = self.listed();
            assert(m =~= l.remove(i as int));
            lemma_ascending_distinct(l);
            assert forall|x: int, y: int| 0 <= x < y < m.len() implies name_less(#[trigger] m[x], #[trigger] m[y]) by {
                let x2 = if x < i { x } else { x + 1 };
                let y2 = if y < i { y } else { y + 1 };
                assert(name_less(l[x2], l[y2]));
            }
            assert forall|n: Seq<char>| m.to_set().contains(n) == l.to_set().remove(name@).contains(n) by {
                if m.to_set().contains(n) {
                    let x = choose|x: int| 0 <= x < m.len() && m[x] == n;
                    let x2 = if x < i { x } else { x + 1 };
                    assert(l[x2] == n);
                    assert(l[i as int] == name@);
                }
                if l.to_set().contains(n) && n != name@ {
                    let x = choose|x: int| 0 <= x < l.len() && l[x] == n;
                    let x2 = if x < i { x } else { x - 1 };
                    assert(m[x2] == n);
                }
            }
            assert(m.to_set() =~= l.to_set().remove(name@));
        }
        true
    }

    pub fn is_subset(&self, other: &NameSet) -> (r: bool)
        requires
            self.wf(),
            other.wf(),
        ensures
            r == self@.subset_of(other@),
    {
        let mut i: usize = 0;
        while i < self.names.len()
            invariant
                self.wf(),
                other.wf(),
                i <= self.listed().len(),
                forall|j: int| 0 <= j < i ==> other@.contains(#[trigger] self.listed()[j]),
            decreases self.listed().len() - i,
        {
            if !other.contains(self.names[i].as_str()) {
                assert(self@.contains(self.listed()[i as int]));
                return false;
            }
            i += 1;
        }
        assert forall|n: Seq<char>| self@.contains(n) implies other@.contains(n) by {
            let j = choose|j: int| 0 <= j < self.listed().len() && self.listed()[j] == n;
        }
        true
    }
}

impl Clone for NameSet {
    fn clone(&self) -> (r: Self)
        ensures
            r.listed() == self.listed(),
            r@ == self@,
    {
        let mut names: Vec<String> = Vec::new();
        let mut i: usize = 0;
        while i < self.names.len()
            invariant
                i <= self.names@.len(),
                names@.len() == i,
                forall|j: int| 0 <= j < i ==> (#[trigger] names@[j])@ == self.names@[j]@,
            decreases self.names@.len() - i,
        {
            names.push(self.names[i].clone());
            i += 1;
        }
        let r = NameSet { names };
        assert(r.listed() =~= self.listed());
        r
    }
}

/// Ascending listings of the same names are the same.
pub proof fn lemma_ascending_unique(a: Seq<Seq<char>>, b: Seq<Seq<char>>)
    requires
        ascending_names(a),
        ascending_names(b),
        a.to_set() == b.to_set(),
    ensures
        a == b,
    decreases a.len(),
{
    lemma_ascending_distinct(a);
    lemma_ascending_distinct(b);
    if a.len() > 0 {
        let x = a.last();
        let y = b.last();
        assert(a.to_set().contains(x));
        assert(b.to_set().contains(y));
        let i = choose|i: int| 0 <= i < b.len() && b[i] == x;
        let j = choose|j: int| 0 <= j < a.len() && a[j] == y;
        if i < b.len() - 1 {
            assert(name_less(b[i], b[b.len() - 1]));
            if j < a.len() - 1 {
                assert(name_less(a[j], a[a.len() - 1]));
                lemma_less_asymmetric(x, y);
            } else {
                lemma_less_irreflexive(x);
            }
        }
        assert(x == y);
        let a2 = a.drop_last();
        let b2 = b.drop_last();
        assert(ascending_names(a2));
        assert(ascending_names(b2));
        assert forall|n: Seq<char>| a2.to_set().contains(n) == b2.to_set().contains(n) by {
            if a2.to_set().contains(n) {
                let k = choose|k: int| 0 <= k < a2.len() && a2[k] == n;
                assert(a[k] == n);
                assert(a.to_set().contains(n));
                let q = choose|q: int| 0 <= q < b.len() && b[q] == n;
                if q == b.len() - 1 {
                    assert(a[k] == a[a.len() - 1]);
                }
                assert(b2[q] == n);
            }
            if b2.to_set().contains(n) {
                let k = choose|k: int| 0 <= k < b2.len() && b2[k] == n;
                assert(b[k] == n);
                assert(b.to_set().contains(n));
                let q = choose|q: int| 0 <= q < a.len() && a[q] == n;
                if q == a.len() - 1 {
                    assert(b[k] == b[b.len() - 1]);
                }
                assert(a2[q] == n);
            }
        }
        assert(a2.to_set() =~= b2.to_set());
        lemma_ascending_unique(a2, b2);
        assert(a =~= a2.push(x));
        assert(b =~= b2.push(y));
    } else {
        assert(a =~= b);
    }
}

/// A map from names, in ascending order.
#[derive(Clone, Debug, PartialEq)]
pub struct NameMap<V> {
    entries: Vec<(String, V)>,
}

impl<V> NameMap<V> {
    /// The keys in order.
    pub closed spec fn keys(&self) -> Seq<Seq<char>> {
        self.entries@.map_values(|e: (String, V)| e.0@)
    }

    /// The values in the order of their keys.
    pub closed spec fn values(&self) -> Seq<V> {
        self.entries@.map_values(|e: (String, V)| e.1)
    }

    pub open spec fn wf(&self) -> bool {
        ascending_names(self.keys())
    }

    /// The value under a key of the map.
    pub open spec fn lookup(&self, name: Seq<char>) -> V {
        self.values()[self.keys().index_of(name)]
    }

    pub proof fn lemma_shape(&self)
        ensures
            self.keys().len() == self.values().len(),
    {
    }

    /// Looking a key up finds the value next to it.
    pub proof fn lemma_lookup(&self, i: int)
        requires
            self.wf(),
            0 <= i < self.keys().len(),
        ensures
            self.keys().index_of(self.keys()[i]) == i,
            self.lookup(self.keys()[i]) == self.values()[i],
            self@.contains_key(self.keys()[i]),
            self@[self.keys()[i]] == self.values()[i],
    {
        lemma_ascending_distinct(self.keys());
        assert(self.keys().contains(self.keys()[i]));
    }
}

impl<V> View for NameMap<V> {
    type V = Map<Seq<char>, V>;

    open spec fn view(&self) -> Map<Seq<char>, V> {
        Map::new(|n: Seq<char>| self.keys().contains(n), |n: Seq<char>| self.lookup(n))
    }
}

impl<V> NameMap<V> {
    pub fn new() -> (r: Self)
        ensures
            r.wf(),
            r@ == Map::<Seq<char>, V>::empty(),
            r.keys() == Seq::<Seq<char>>::empty(),
    {
        let r = NameMap { entries: Vec::new() };
        assert(r.keys() =~= Seq::<Seq<char>>::empty());
        assert(r@ =~= Map::<Seq<char>, V>::empty());
        r
    }

    pub fn len(&self) -> (r: usize)
        ensures
            r == self.keys().len(),
            r == self.values().len(),
    {
        self.entries.len()
    }

    pub fn is_empty(&self) -> (r: bool)
        ensures
            r == (self.keys().len() == 0),
    {
        self.entries.len() == 0
    }

    /// The key at position `i` of the order.
    pub fn key_at(&self, i: usize) -> (r: &str)
        requires
            i < self.keys().len(),
        ensures
            r@ == self.keys()[i as int],
    {
        self.entries[i].0.as_str()
    }

    /// The value at position `i` of the order.
    pub fn value_at(&self, i: usize) -> (r: &V)
        requires
            i < self.keys().len(),
        ensures
            *r == self.values()[i as int],
    {
        &self.entries[i].1
    }

    /// Where `name` is, or belongs.
    pub fn locate(&self, name: &str) -> (r: (bool, usize))
        requires
            self.wf(),
        ensures
            r.1 <= self.keys().len(),
            r.0 ==> r.1 < self.keys().len() && self.keys()[r.1 as int] == name@,
            forall|i: int| 0 <= i < r.1 ==> name_less(#[trigger] self.keys()[i], name@),
            !r.0 ==> forall|i: int| r.1 <= i < self.keys().len() ==> name_less(name@, #[trigger] self.keys()[i]),
            r.0 == self.keys().contains(name@),
    {
        let mut lo: usize = 0;
        let mut hi: usize = self.entries.len();
        let ghost l = self.keys();
        while lo < hi
            invariant
                self.wf(),
                l == self.keys(),
                lo <= hi <= l.len(),
                forall|i: int| 0 <= i < lo ==> name_less(#[trigger] l[i], name@),
                forall|i: int| hi <= i < l.len() ==> name_less(name@, #[trigger] l[i]),
            decreases hi - lo,
        {
            let mid: usize = lo + (hi - lo) / 2;
            match order_names(self.entries[mid].0.as_str(), name) {
                NameOrder::Same => {
                    assert(l[mid as int] == name@);
                    return (true, mid);
                },
                NameOrder::Before => {
                    assert(name_less(l[mid as int], name@));
                    assert forall|i: int| 0 <= i < mid + 1 implies name_less(#[trigger] l[i], name@) by {
                        if i < mid {
                            lemma_less_transitive(l[i], l[mid as int], name@);
                        }
                    }
                    lo = mid + 1;
                },
                NameOrder::After => {
                    assert(name_less(name@, l[mid as int]));
                    assert forall|i: int| mid <= i < l.len() implies name_less(name@, #[trigger] l[i]) by {
                        if i > mid {
                            lemma_less_transitive(name@, l[mid as int], l[i]);
                        }
                    }
                    hi = mid;
                },
            }
        }
        proof {
            if l.contains(name@) {
                let i = choose|i: int| 0 <= i < l.len() && l[i] == name@;
                lemma_less_irreflexive(name@);
            }
        }
        (false, lo)
    }

    pub fn contains_key(&self, name: &str) -> (r: bool)
        requires
            self.wf(),
        ensures
            r == self@.contains_key(name@),
    {
        self.locate(name).0
    }

    pub fn get(&self, name: &str) -> (r: Option<&V>)
        requires
            self.wf(),
        ensures
            r is Some <==> self@.contains_key(name@),
            r is Some ==> *r->0 == self@[name@],
    {
        let (found, i) = self.locate(name);
        if found {
            proof {
                self.lemma_lookup(i as int);
            }
            Some(&self.entries[i].1)
        } else {
            None
        }
    }

    /// Puts a value under a name, replacing what was there.
    pub fn insert(&mut self, name: &str, value: V)
        requires
            old(self).wf(),
        ensures
            final(self).wf(),
            final(self)@ == old(self)@.insert(name@, value),
            final(self).keys().to_set() == old(self).keys().to_set().insert(name@),
    {
        let ghost l = self.keys();
        let ghost before = *self;
        let (found, i) = self.locate(name);
        if found {
            self.entries[i].1 = value;
            proof {
                assert(self.keys() =~= l);
                assert(self.values() =~= before.values().update(i as int, value));
                lemma_ascending_distinct(l);
                assert(self@ =~= before@.insert(name@, value)) by {
                    assert forall|n: Seq<char>| l.contains(n) implies #[trigger] self@[n] == before@.insert(
                        name@,
                        value,
                    )[n] by {
                        let k = choose|k: int| 0 <= k < l.len() && l[k] == n;
                        self.lemma_lookup(k);
                        before.lemma_lookup(k);
                    }
                }
                assert(l.to_set() =~= l.to_set().insert(name@));
            }
        } else {
            let s = name.to_string();
            self.entries.insert(i, (s, value));
            proof {
                let m = self.keys();
                assert(m =~= l.insert(i as int, name@));
                assert(self.values() =~= before.values().insert(i as int, value));
                lemma_insert_ascending(l, i as int, name@);
                assert forall|n: Seq<char>| m.contains(n) == (l.contains(n) || n == name@) by {
                    if m.contains(n) {
                        let x = choose|x: int| 0 <= x < m.len() && m[x] == n;
                        if x != i {
                            let x2 = if x < i { x } else { x - 1 };
                            assert(l[x2] == n);
                        }
                    }
                    if l.contains(n) {
                        let x = choose|x: int| 0 <= x < l.len() && l[x] == n;
                        let x2 = if x < i { x } else { x + 1 };
                        assert(m[x2] == n);
                    }
                    assert(m[i as int] == name@);
                }
                assert forall|n: Seq<char>| m.contains(n) implies #[trigger] self@[n] == before@.insert(
                    name@,
                    value,
                )[n] by {
                    let k = choose|k: int| 0 <= k < m.len() && m[k] == n;
                    self.lemma_lookup(k);
                    if k != i {
                        let k2 = if k < i { k } else { k - 1 };
                        before.lemma_lookup(k2);
                        assert(l[k2] == n);
                        assert(n != name@);
                    }
                }
                assert(self@ =~= before@.insert(name@, value));
                assert(m.to_set() =~= l.to_set().insert(name@));
            }
        }
    }

    /// Takes a name and its value out.
    pub fn remove(&mut self, name: &str) -> (r: Option<V>)
        requires
            old(self).wf(),
        ensures
            final(self).wf(),
            final(self)@ == old(self)@.remove(name@),
            r is Some <==> old(self)@.contains_key(name@),
            r is Some ==> r->0 == old(self)@[name@],
            final(self).keys().len() == old(self).keys().len() - if r is Some { 1int } else { 0 },
    {
        let ghost l = self.keys();
        let ghost before = *self;
        let (found, i) = self.locate(name);
        if !found {
            assert(self@ =~= before@.remove(name@));
            return None;
        }
        proof {
            self.lemma_lookup(i as int);
        }
        let e = self.entries.remove(i);
        proof {
            let m = self.keys();
            assert(m =~= l.remove(i as int));
            assert(self.values() =~= before.values().remove(i as int));
            lemma_ascending_distinct(l);
            assert forall|x: int, y: int| 0 <= x < y < m.len() implies name_less(#[trigger] m[x], #[trigger] m[y]) by {
                let x2 = if x < i { x } else { x + 1 };
                let y2 = if y < i { y } else { y + 1 };
                assert(name_less(l[x2], l[y2]));
            }
            assert forall|n: Seq<char>| m.contains(n) == (l.contains(n) && n != name@) by {
                if m.contains(n) {
                    let x = choose|x: int| 0 <= x < m.len() && m[x] == n;
                    let x2 = if x < i { x } else { x + 1 };
                    assert(l[x2] == n);
                    assert(l[i as int] == name@);
                }
                if l.contains(n) && n != name@ {
                    let x = choose|x: int| 0 <= x < l.len() && l[x] == n;
                    let x2 = if x < i { x } else { x - 1 };
                    assert(m[x2] == n);
                }
            }
            assert forall|n: Seq<char>| m.contains(n) implies #[trigger] self@[n] == before@[n] by {
                let k = choose|k: int| 0 <= k < m.len() && m[k] == n;
                let k2 = if k < i { k } else { k + 1 };
                self.lemma_lookup(k);
                before.lemma_lookup(k2);
            }
            assert(self@ =~= before@.remove(name@));
        }
        Some(e.1)
    }
}

/// Putting a name where it belongs keeps the order.
pub proof fn lemma_insert_ascending(l: Seq<Seq<char>>, i: int, name: Seq<char>)
    requires
        ascending_names(l),
        0 <= i <= l.len(),
        forall|k: int| 0 <= k < i ==> name_less(#[trigger] l[k], name),
        forall|k: int| i <= k < l.len() ==> name_less(name, #[trigger] l[k]),
    ensures
        ascending_names(l.insert(i, name)),
{
    let m = l.insert(i, name);
    assert forall|x: int, y: int| 0 <= x < y < m.len() implies name_less(#[trigger] m[x], #[trigger] m[y]) by {
        let x2 = if x < i { x } else { x - 1 };
        let y2 = if y < i { y } else { y - 1 };
        if x != i && y != i {
            assert(name_less(l[x2], l[y2]));
        } else if x == i {
            assert(name_less(name, l[y2]));
        } else {
            assert(name_less(l[x2], name));
        }
    }
}

} // verus!
