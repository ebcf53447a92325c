//! Kinds of continuous queries and their named input streams.
use vstd::prelude::*;

use crate::names::NameMap;

verus! {

/// Query languages.
#[derive(Clone, Copy, Debug, PartialEq, Eq, Hash, Structural)]
#[non_exhaustive]
pub enum QueryType {
    /// RSP-QL or CQELS-QL.
    Sparql,
    /// openCypher over streams.
    Cypher,
    /// A language of the user's own.
    Custom,
}

impl QueryType {
    pub open spec fn rendered(&self) -> Seq<char> {
        match self {
            QueryType::Sparql => "SPARQL"@,
            QueryType::Cypher => "CYPHER"@,
            QueryType::Custom => "CUSTOM"@,
        }
    }

    pub fn to_text(&self) -> (r: String)
        ensures
            r@ == self.rendered(),
    {
        match self {
            QueryType::Sparql => "SPARQL".to_string(),
            QueryType::Cypher => "CYPHER".to_string(),
            QueryType::Custom => "CUSTOM".to_string(),
        }
    }
}

/// The named input streams of a query.
pub struct QueryInputs<S> {
    streams: NameMap<S>,
}

impl<S> QueryInputs<S> {
    pub closed spec fn wf(&self) -> bool {
        self.streams.wf()
    }

    pub closed spec fn inputs(&self) -> Map<Seq<char>, S> {
        self.streams@
    }

    pub fn new() -> (r: Self)
        ensures
            r.wf(),
            r.inputs() == Map::<Seq<char>, S>::empty(),
    {
        QueryInputs { streams: NameMap::new() }
    }

    /// Registers a stream under a name, in place of what was there.
    pub fn add_stream(&mut self, name: &str, stream: S)
        requires
            old(self).wf(),
        ensures
            final(self).wf(),
            final(self).inputs() == old(self).inputs().insert(name@, stream),
    {
        self.streams.insert(name, stream);
    }

    /// Takes a stream out.
    pub fn take_stream(&mut self, name: &str) -> (r: Option<S>)
        requires
            old(self).wf(),
        ensures
            final(self).wf(),
            final(self).inputs() == old(self).inputs().remove(name@),
            r is Some <==> old(self).inputs().contains_key(name@),
            r is Some ==> r->0 == old(self).inputs()[name@],
    {
        self.streams.remove(name)
    }

    pub fn has_stream(&self, name: &str) -> (r: bool)
        requires
            self.wf(),
        ensures
            r == self.inputs().contains_key(name@),
    {
        self.streams.contains_key(name)
    }

    /// The registered names, in order.
    pub fn stream_names(&self) -> (r: Vec<&str>)
        requires
            self.wf(),
        ensures
            crate::names::ascending_names(r@.map_values(|n: &str| n@)),
            r@.map_values(|n: &str| n@).to_set() == self.inputs().dom(),
    {
        let mut r: Vec<&str> = Vec::new();
        let mut i: usize = 0;
        while i < self.streams.len()
            invariant
                i <= self.streams.keys().len(),
                r@.len() == i,
                forall|j: int| 0 <= j < i ==> (#[trigger] r@[j])@ == self.streams.keys()[j],
            decreases self.streams.keys().len() - i,
        {
            r.push(self.streams.key_at(i));
            i += 1;
        }
        proof {
            assert(r@.map_values(|n: &str| n@) =~= self.streams.keys());
            assert(self.streams.keys().to_set() =~= self.inputs().dom());
        }
        r
    }
}

impl<S> Default for QueryInputs<S> {
    fn default() -> (r: Self)
        ensures
            r.wf(),
            r.inputs() == Map::<Seq<char>, S>::empty(),
    {
        Self::new()
    }
}

} // verus!
