//! A store of static RDF data.
//!
//! The triples live in an in-memory `oxigraph` store. What that store holds has
//! the name [`stored`]; the operations of this module are stated over it.
use oxigraph::store::Store;
use oxrdf::{GraphNameRef, LiteralRef, NamedNode, NamedNodeRef, QuadRef, Term as Node, TermRef};
use vstd::prelude::*;

use crate::matching::{expand_iri, holds, iri_of, match_triple_pattern, matched};
use crate::model::{BindingSet, IriTerm, Statement, StatementView, Term, TermView};
use crate::names::NameMap;
use crate::parser::ast::{text_map, variable_term, TriplePattern, TripleView};
use crate::parser::error::CqelsError;
use crate::text::append_text;

verus! {

/// A statement with the graph that it stands in; none is the default graph.
pub struct QuadView {
    pub statement: StatementView,
    pub graph: Option<Seq<char>>,
}

#[verifier::external_type_specification]
#[verifier::external_body]
pub struct ExStore(oxigraph::store::Store);

/// What an `oxigraph` store holds.
pub uninterp spec fn stored(store: oxigraph::store::Store) -> Set<QuadView>;

/// An `oxigraph` store that holds IRIs and plain string literals alone.
pub uninterp spec fn plain(store: oxigraph::store::Store) -> bool;

/// What `oxrdf::NamedNode::new` makes of a text: the IRI, or what is wrong with
/// it.
pub uninterp spec fn parsed_iri(iri: Seq<char>) -> Result<Seq<char>, Seq<char>>;

/// Calls `oxrdf::NamedNode::new`. Claims that the result is a function of the
/// text, and that an accepted IRI is kept as it is written.
#[verifier::external_body]
fn parse_iri(iri: &str) -> (r: Result<String, String>)
    ensures
        match (r, parsed_iri(iri@)) {
            (Ok(s), Ok(text)) => s@ == text && s@ == iri@,
            (Err(e), Err(text)) => e@ == text,
            _ => false,
        },
{
    NamedNode::new(iri).map(|n| n.into_string()).map_err(|e| e.to_string())
}

/// Calls `Store::new`, which makes a store in memory. Claims that this succeeds
/// and that the store is empty, and so holds nothing but plain terms.
#[verifier::external_body]
fn open_store() -> (r: Result<oxigraph::store::Store, String>)
    ensures
        r is Ok,
        stored(r->Ok_0) == Set::<QuadView>::empty(),
        plain(r->Ok_0),
{
    Store::new().map_err(|e| e.to_string())
}

/// Calls `Store::insert` with an IRI or a plain string literal as object.
/// Claims that it succeeds, that the store then holds the quad besides what it
/// held, that it holds plain terms alone if it did so before, and that the
/// result says whether the quad is new.
#[verifier::external_body]
fn insert_quad(
    store: &mut oxigraph::store::Store,
    subject: &str,
    predicate: &str,
    object: &Term,
    graph: Option<&str>,
) -> (r: Result<bool, String>)
    requires
        parsed_iri(subject@) is Ok,
        parsed_iri(predicate@) is Ok,
        object@ is Iri ==> parsed_iri(object@.content()) is Ok,
        graph is Some ==> parsed_iri(graph->0@) is Ok,
        plain(*old(store)),
    ensures
        r is Ok,
        plain(*final(store)),
        stored(*final(store)) == stored(*old(store)).insert(quad(subject@, predicate@, object@, graph_view(graph))),
        r->Ok_0 == !stored(*old(store)).contains(quad(subject@, predicate@, object@, graph_view(graph))),
{
    let object = match object {
        Term::Iri(o) => TermRef::NamedNode(NamedNodeRef::new_unchecked(&o.iri)),
        Term::Literal(o) => TermRef::Literal(LiteralRef::new_simple_literal(&o.value)),
    };
    let graph = match graph {
        Some(g) => GraphNameRef::NamedNode(NamedNodeRef::new_unchecked(g)),
        None => GraphNameRef::DefaultGraph,
    };
    let subject = NamedNodeRef::new_unchecked(subject);
    let predicate = NamedNodeRef::new_unchecked(predicate);
    store.insert(QuadRef::new(subject, predicate, object, graph)).map_err(|e| e.to_string())
}

/// Calls `Store::quads_for_pattern` on a store of plain terms. Claims that it
/// finds, each once and in no order that is stated, the statements of the graph
/// whose terms are the given IRIs, where one is given.
#[verifier::external_body]
fn find_statements(
    store: &oxigraph::store::Store,
    subject: Option<&str>,
    predicate: Option<&str>,
    object: Option<&str>,
    graph: Option<&str>,
) -> (r: Vec<Statement>)
    requires
        plain(*store),
    ensures
        lists(
            statement_views(r@),
            stored(*store),
            graph_view(graph),
            graph_view(subject),
            graph_view(predicate),
            graph_view(object),
        ),
{
    let graph = graph.map(NamedNodeRef::new_unchecked).map_or(GraphNameRef::DefaultGraph, Into::into);
    let subject = subject.map(NamedNodeRef::new_unchecked).map(Into::into);
    let object = object.map(NamedNodeRef::new_unchecked).map(Into::into);
    let term = |t: Node| match t {
        Node::NamedNode(n) => Term::iri(n.as_str()),
        Node::Literal(l) => Term::literal(l.value()),
        other => Term::iri(&other.to_string()),
    };
    store.quads_for_pattern(subject, predicate.map(NamedNodeRef::new_unchecked), object, Some(graph)).flatten().map(
        |q| Statement::new(term(q.subject.into()), IriTerm::new(q.predicate.as_str()), term(q.object))
    ).collect()
}

pub open spec fn graph_view(graph: Option<&str>) -> Option<Seq<char>> {
    match graph {
        Some(g) => Some(g@),
        None => None,
    }
}

pub open spec fn statement_views(statements: Seq<Statement>) -> Seq<StatementView> {
    statements.map_values(|s: Statement| s@)
}

pub open spec fn quad(subject: Seq<char>, predicate: Seq<char>, object: TermView, graph: Option<Seq<char>>) -> QuadView {
    QuadView { statement: StatementView { subject: TermView::Iri(subject), predicate, object }, graph }
}

/// A listing, without repetitions, of the statements of a graph whose terms are
/// the given IRIs, where one is given.
pub open spec fn lists(
    found: Seq<StatementView>,
    quads: Set<QuadView>,
    graph: Option<Seq<char>>,
    subject: Option<Seq<char>>,
    predicate: Option<Seq<char>>,
    object: Option<Seq<char>>,
) -> bool {
    &&& found.no_duplicates()
    &&& forall|t: StatementView| #[trigger]
        found.contains(t) <==> quads.contains(QuadView { statement: t, graph }) && filtered(
            t,
            subject,
            predicate,
            object,
        )
}

/// The terms of the statement are the given IRIs, where one is given.
pub open spec fn filtered(
    t: StatementView,
    subject: Option<Seq<char>>,
    predicate: Option<Seq<char>>,
    object: Option<Seq<char>>,
) -> bool {
    &&& subject is Some ==> t.subject == TermView::Iri(subject->0)
    &&& predicate is Some ==> t.predicate == predicate->0
    &&& object is Some ==> t.object == TermView::Iri(object->0)
}

/// The IRI that a term of a pattern restricts a query to: none for a variable,
/// for a prefixed name with an unknown prefix, and where what the term is
/// written for is no IRI.
pub open spec fn resolved(term: Seq<char>, prefixes: Map<Seq<char>, Seq<char>>) -> Option<Seq<char>> {
    if variable_term(term) {
        None
    } else {
        match iri_of(term, prefixes) {
            Some(iri) => if parsed_iri(iri) is Ok {
                Some(iri)
            } else {
                None
            },
            None => None,
        }
    }
}

/// A statement of the graph that answers the pattern.
pub open spec fn answering(
    quads: Set<QuadView>,
    graph: Option<Seq<char>>,
    pattern: TripleView,
    prefixes: Map<Seq<char>, Seq<char>>,
    t: StatementView,
) -> bool {
    &&& quads.contains(QuadView { statement: t, graph })
    &&& filtered(
        t,
        resolved(pattern.subject, prefixes),
        resolved(pattern.predicate, prefixes),
        resolved(pattern.object, prefixes),
    )
    &&& matched(pattern, prefixes, t) is Some
}

/// A listing, without repetitions, of the statements that answer the pattern.
pub open spec fn lists_answers(
    found: Seq<StatementView>,
    quads: Set<QuadView>,
    graph: Option<Seq<char>>,
    pattern: TripleView,
    prefixes: Map<Seq<char>, Seq<char>>,
) -> bool {
    &&& found.no_duplicates()
    &&& forall|t: StatementView| #[trigger]
        found.contains(t) <==> answering(quads, graph, pattern, prefixes, t)
}

/// The solutions are what the statements bind the variables to, at time zero.
pub open spec fn solves(
    solutions: Seq<BindingSet>,
    found: Seq<StatementView>,
    pattern: TripleView,
    prefixes: Map<Seq<char>, Seq<char>>,
) -> bool {
    &&& solutions.len() == found.len()
    &&& forall|i: int|
        #![trigger solutions[i]]
        0 <= i < solutions.len() ==> solutions[i].time() == 0 && matched(pattern, prefixes, found[i]) is Some && holds(
            solutions[i],
            matched(pattern, prefixes, found[i])->0,
        )
}

/// One solution for each statement of the graph that answers the pattern, in
/// some order.
pub open spec fn answers(
    solutions: Seq<BindingSet>,
    quads: Set<QuadView>,
    graph: Option<Seq<char>>,
    pattern: TripleView,
    prefixes: Map<Seq<char>, Seq<char>>,
) -> bool {
    exists|found: Seq<StatementView>| #[trigger]
        lists_answers(found, quads, graph, pattern, prefixes) && solves(solutions, found, pattern, prefixes)
}

/// Can the statement stand in the store? Its subject is an IRI, and its IRIs
/// are well formed.
pub open spec fn loadable(t: StatementView) -> bool {
    &&& t.subject is Iri
    &&& parsed_iri(t.subject.content()) is Ok
    &&& parsed_iri(t.predicate) is Ok
    &&& t.object is Iri ==> parsed_iri(t.object.content()) is Ok
}

/// What is wrong with a text that is no IRI.
pub open spec fn iri_error(iri: Seq<char>) -> Seq<char> {
    "invalid IRI: "@ + parsed_iri(iri)->Err_0
}

/// Why a statement cannot be loaded: the first thing that is wrong with it.
pub open spec fn rejection(t: StatementView) -> Seq<char> {
    if !(t.subject is Iri) {
        "a literal cannot be the subject of a statement"@
    } else if parsed_iri(t.subject.content()) is Err {
        iri_error(t.subject.content())
    } else if parsed_iri(t.predicate) is Err {
        iri_error(t.predicate)
    } else {
        iri_error(t.object.content())
    }
}

/// The error that stops loading, if one does.
pub open spec fn load_error(statements: Seq<StatementView>) -> Option<Seq<char>> {
    if loadable_run(statements) < statements.len() {
        Some(rejection(statements[loadable_run(statements) as int]))
    } else {
        None
    }
}

/// The loading failed with the message, where there is one, and succeeded where
/// there is none.
pub open spec fn ends_with(r: Result<(), CqelsError>, message: Option<Seq<char>>) -> bool {
    match (r, message) {
        (Ok(_), None) => true,
        (Err(CqelsError::Evaluation { message: m }), Some(text)) => m@ == text,
        _ => false,
    }
}

/// The quads with statements added to a graph.
pub open spec fn loaded(quads: Set<QuadView>, statements: Seq<StatementView>, graph: Option<Seq<char>>) -> Set<QuadView>
    decreases statements.len(),
{
    if statements.len() == 0 {
        quads
    } else {
        loaded(quads, statements.drop_last(), graph).insert(QuadView { statement: statements.last(), graph })
    }
}

/// Number of statements in front of the first that cannot be loaded.
pub open spec fn loadable_run(statements: Seq<StatementView>) -> nat
    decreases statements.len(),
{
    if statements.len() == 0 {
        0
    } else if loadable_run(statements.drop_last()) < statements.len() - 1 || !loadable(statements.last()) {
        loadable_run(statements.drop_last())
    } else {
        statements.len()
    }
}

proof fn lemma_run_bounded(statements: Seq<StatementView>)
    ensures
        loadable_run(statements) <= statements.len(),
    decreases statements.len(),
{
    if statements.len() > 0 {
        lemma_run_bounded(statements.drop_last());
    }
}

/// A run that ends within a part is the run of the whole.
proof fn lemma_run_of_part(statements: Seq<StatementView>, k: int)
    requires
        0 <= k <= statements.len(),
        loadable_run(statements.take(k)) < k,
    ensures
        loadable_run(statements) == loadable_run(statements.take(k)),
    decreases statements.len() - k,
{
    if k < statements.len() {
        assert(statements.take(k + 1).drop_last() =~= statements.take(k));
        lemma_run_of_part(statements, k + 1);
    } else {
        assert(statements.take(k) =~= statements);
    }
}

/// Persistent RDF data that patterns are resolved against.
pub trait RdfStore: Send + Sync {
    /// What the store holds.
    spec fn quads(&self) -> Set<QuadView>;

    /// The store is sound.
    spec fn wf(&self) -> bool;

    /// Matches the statements of the default graph.
    fn query_pattern(&self, pattern: &TriplePattern, prefixes: &NameMap<String>) -> (r: Vec<BindingSet>)
        requires
            self.wf(),
            prefixes.wf(),
        ensures
            answers(r@, self.quads(), None, pattern@, text_map(prefixes@)),
    ;

    /// Matches the statements of a named graph. No graph is named by what is no
    /// IRI.
    fn query_named_graph_pattern(
        &self,
        graph_uri: &str,
        pattern: &TriplePattern,
        prefixes: &NameMap<String>,
    ) -> (r: Vec<BindingSet>)
        requires
            self.wf(),
            prefixes.wf(),
        ensures
            parsed_iri(graph_uri@) is Ok ==> answers(
                r@,
                self.quads(),
                Some(graph_uri@),
                pattern@,
                text_map(prefixes@),
            ),
            parsed_iri(graph_uri@) is Err ==> r@.len() == 0,
    ;

    /// Loads statements into the default graph, up to the first that cannot be
    /// loaded.
    fn load_statements(&mut self, statements: &[Statement]) -> (r: Result<(), CqelsError>)
        requires
            old(self).wf(),
        ensures
            final(self).wf(),
            ends_with(r, load_error(statement_views(statements@))),
            final(self).quads() == loaded(
                old(self).quads(),
                statement_views(statements@).take(loadable_run(statement_views(statements@)) as int),
                None,
            ),
    ;

    /// Loads statements into a named graph, up to the first that cannot be
    /// loaded; none where the graph URI is no IRI.
    fn load_named_graph(&mut self, graph_uri: &str, statements: &[Statement]) -> (r: Result<(), CqelsError>)
        requires
            old(self).wf(),
        ensures
            final(self).wf(),
            ends_with(
                r,
                match parsed_iri(graph_uri@) {
                    Ok(_) => load_error(statement_views(statements@)),
                    Err(text) => Some("invalid graph URI: "@ + text),
                },
            ),
            final(self).quads() == if parsed_iri(graph_uri@) is Ok {
                loaded(
                    old(self).quads(),
                    statement_views(statements@).take(loadable_run(statement_views(statements@)) as int),
                    Some(graph_uri@),
                )
            } else {
                old(self).quads()
            },
    ;
}

/// The IRI that a term of a pattern restricts a query to.
pub fn resolve_pattern_term(term: &str, prefixes: &NameMap<String>) -> (r: Option<String>)
    requires
        prefixes.wf(),
    ensures
        match (r, resolved(term@, text_map(prefixes@))) {
            (Some(s), Some(iri)) => s@ == iri,
            (None, None) => true,
            _ => false,
        },
{
    if TriplePattern::is_variable(term) {
        return None;
    }
    match expand_iri(term, prefixes) {
        Some(iri) => match parse_iri(iri.as_str()) {
            Ok(node) => Some(node),
            Err(_) => None,
        },
        None => None,
    }
}

fn as_text(s: &Option<String>) -> (r: Option<&str>)
    ensures
        graph_view(r) == crate::parser::ast::opt_text(*s),
{
    match s {
        Some(s) => Some(s.as_str()),
        None => None,
    }
}

/// Matches the found statements one after the other.
pub fn match_found(found: &Vec<Statement>, pattern: &TriplePattern, prefixes: &NameMap<String>) -> (r: Vec<BindingSet>)
    requires
        prefixes.wf(),
    ensures
        solves(r@, matching(statement_views(found@), pattern@, text_map(prefixes@)), pattern@, text_map(prefixes@)),
{
    let ghost views = statement_views(found@);
    let ghost p = text_map(prefixes@);
    let mut r: Vec<BindingSet> = Vec::new();
    let mut i: usize = 0;
    while i < found.len()
        invariant
            i <= found@.len(),
            prefixes.wf(),
            views == statement_views(found@),
            p == text_map(prefixes@),
            solves(r@, matching(views.take(i as int), pattern@, p), pattern@, p),
        decreases found@.len() - i,
    {
        assert(views.take(i + 1).drop_last() =~= views.take(i as int));
        assert(views.take(i + 1).last() == found@[i as int]@);
        let ghost done = matching(views.take(i as int), pattern@, p);
        let ghost before = r@;
        match match_triple_pattern(pattern, &found[i], prefixes, 0) {
            Some(solution) => {
                r.push(solution);
                assert(matching(views.take(i + 1), pattern@, p) == done.push(views[i as int]));
                assert forall|j: int| 0 <= j < before.len() implies #[trigger] r@[j] == before[j] by {}
            },
            None => {
                assert(matching(views.take(i + 1), pattern@, p) == done);
            },
        }
        i += 1;
    }
    assert(views.take(i as int) =~= views);
    r
}

/// The statements that match the pattern, in order.
pub open spec fn matching(
    found: Seq<StatementView>,
    pattern: TripleView,
    prefixes: Map<Seq<char>, Seq<char>>,
) -> Seq<StatementView>
    decreases found.len(),
{
    if found.len() == 0 {
        seq![]
    } else if matched(pattern, prefixes, found.last()) is Some {
        matching(found.drop_last(), pattern, prefixes).push(found.last())
    } else {
        matching(found.drop_last(), pattern, prefixes)
    }
}

proof fn lemma_matching(found: Seq<StatementView>, pattern: TripleView, prefixes: Map<Seq<char>, Seq<char>>)
    requires
        found.no_duplicates(),
    ensures
        matching(found, pattern, prefixes).no_duplicates(),
        forall|t: StatementView| #[trigger]
            matching(found, pattern, prefixes).contains(t) <==> found.contains(t) && matched(pattern, prefixes, t) is Some,
    decreases found.len(),
{
    if found.len() > 0 {
        let rest = found.drop_last();
        let last = found.last();
        assert(rest.no_duplicates());
        lemma_matching(rest, pattern, prefixes);
        let m = matching(rest, pattern, prefixes);
        assert(found =~= rest.push(last));
        assert(!rest.contains(last)) by {
            if rest.contains(last) {
                let j = choose|j: int| 0 <= j < rest.len() && rest[j] == last;
                assert(found[j] == found[found.len() - 1]);
            }
        }
        assert forall|t: StatementView| #[trigger]
            matching(found, pattern, prefixes).contains(t) <==> found.contains(t) && matched(pattern, prefixes, t) is Some by {
            broadcast use vstd::seq_lib::group_seq_properties;

        }
        assert(!m.contains(last));
    }
}

/// Finds the statements that the pattern may match, in the default graph or in
/// the named one, and matches them.
fn query_store_pattern(
    store: &oxigraph::store::Store,
    graph_uri: Option<&str>,
    pattern: &TriplePattern,
    prefixes: &NameMap<String>,
) -> (r: Vec<BindingSet>)
    requires
        plain(*store),
        prefixes.wf(),
    ensures
        graph_uri is None || parsed_iri(graph_uri->0@) is Ok ==> answers(
            r@,
            stored(*store),
            graph_view(graph_uri),
            pattern@,
            text_map(prefixes@),
        ),
        graph_uri is Some && parsed_iri(graph_uri->0@) is Err ==> r@.len() == 0,
{
    let subject = resolve_pattern_term(pattern.subject.as_str(), prefixes);
    let predicate = resolve_pattern_term(pattern.predicate.as_str(), prefixes);
    let object = resolve_pattern_term(pattern.object.as_str(), prefixes);
    let graph: Option<String> = match graph_uri {
        Some(uri) => match parse_iri(uri) {
            Ok(node) => Some(node),
            Err(_) => return Vec::new(),
        },
        None => None,
    };
    let found = find_statements(store, as_text(&subject), as_text(&predicate), as_text(&object), as_text(&graph));
    let r = match_found(&found, pattern, prefixes);
    proof {
        let p = text_map(prefixes@);
        let views = statement_views(found@);
        lemma_matching(views, pattern@, p);
        let answering_ones = matching(views, pattern@, p);
        assert(lists_answers(answering_ones, stored(*store), graph_view(graph_uri), pattern@, p));
    }
    r
}

fn evaluation_error(prefix: &str, text: &str) -> (r: CqelsError)
    ensures
        ends_with(Err(r), Some(prefix@ + text@)),
{
    let mut message = String::new();
    append_text(&mut message, prefix);
    append_text(&mut message, text);
    assert(message@ =~= prefix@ + text@);
    CqelsError::Evaluation { message }
}

/// Checks that an IRI is well formed.
fn check_iri(iri: &str) -> (r: Result<(), CqelsError>)
    ensures
        ends_with(r, if parsed_iri(iri@) is Ok { None } else { Some(iri_error(iri@)) }),
{
    match parse_iri(iri) {
        Ok(_) => Ok(()),
        Err(text) => Err(evaluation_error("invalid IRI: ", text.as_str())),
    }
}

/// Checks that a statement can stand in the store.
fn check_statement(statement: &Statement) -> (r: Result<(), CqelsError>)
    ensures
        ends_with(r, if loadable(statement@) { None } else { Some(rejection(statement@)) }),
{
    if !statement.subject.is_iri() {
        return Err(CqelsError::Evaluation { message: "a literal cannot be the subject of a statement".to_string() });
    }
    let subject = check_iri(statement.subject.content());
    if subject.is_err() {
        return subject;
    }
    let predicate = check_iri(statement.predicate.iri.as_str());
    if predicate.is_err() {
        return predicate;
    }
    if statement.object.is_iri() {
        check_iri(statement.object.content())
    } else {
        Ok(())
    }
}

/// Loads statements into a graph, up to the first that cannot be loaded.
fn load_into(store: &mut oxigraph::store::Store, graph: Option<&str>, statements: &[Statement]) -> (r: Result<
    (),
    CqelsError,
>)
    requires
        graph is Some ==> parsed_iri(graph->0@) is Ok,
        plain(*old(store)),
    ensures
        plain(*final(store)),
        ends_with(r, load_error(statement_views(statements@))),
        stored(*final(store)) == loaded(
            stored(*old(store)),
            statement_views(statements@).take(loadable_run(statement_views(statements@)) as int),
            graph_view(graph),
        ),
{
    let ghost views = statement_views(statements@);
    let ghost before = stored(*store);
    let mut i: usize = 0;
    assert(views.take(0) =~= seq![]);
    while i < statements.len()
        invariant
            i <= statements@.len(),
            views == statement_views(statements@),
            before == stored(*old(store)),
            graph is Some ==> parsed_iri(graph->0@) is Ok,
            plain(*store),
            loadable_run(views.take(i as int)) == i,
            stored(*store) == loaded(before, views.take(i as int), graph_view(graph)),
        decreases statements@.len() - i,
    {
        let statement = &statements[i];
        assert(views.take(i + 1).drop_last() =~= views.take(i as int));
        assert(views.take(i + 1).last() == statement@);
        let checked = check_statement(statement);
        if checked.is_err() {
            proof {
                lemma_run_of_part(views, i + 1);
            }
            return checked;
        }
        match insert_quad(
            store,
            statement.subject.content(),
            statement.predicate.iri.as_str(),
            &statement.object,
            graph,
        ) {
            Ok(_) => {},
            Err(text) => {
                return Err(evaluation_error("store insert failed: ", text.as_str()));
            },
        }
        i += 1;
    }
    assert(views.take(i as int) =~= views);
    Ok(())
}

/// An RDF store in memory.
pub struct OxigraphRdfStore {
    store: oxigraph::store::Store,
}

impl OxigraphRdfStore {
    pub closed spec fn held(&self) -> Set<QuadView> {
        stored(self.store)
    }

    pub closed spec fn holds_plain_terms(&self) -> bool {
        plain(self.store)
    }

    /// An empty store.
    pub fn new() -> (r: Result<Self, CqelsError>)
        ensures
            r is Ok,
            r->Ok_0.wf(),
            r->Ok_0.quads() == Set::<QuadView>::empty(),
    {
        match open_store() {
            Ok(store) => Ok(OxigraphRdfStore { store }),
            Err(text) => Err(evaluation_error("oxigraph store creation failed: ", text.as_str())),
        }
    }
}

impl Default for OxigraphRdfStore {
    fn default() -> (r: Self)
        ensures
            r.wf(),
            r.quads() == Set::<QuadView>::empty(),
    {
        Self::new().unwrap()
    }
}

impl RdfStore for OxigraphRdfStore {
    open spec fn quads(&self) -> Set<QuadView> {
        self.held()
    }

    open spec fn wf(&self) -> bool {
        self.holds_plain_terms()
    }

    fn query_pattern(&self, pattern: &TriplePattern, prefixes: &NameMap<String>) -> (r: Vec<BindingSet>) {
        query_store_pattern(&self.store, None, pattern, prefixes)
    }

    fn query_named_graph_pattern(
        &self,
        graph_uri: &str,
        pattern: &TriplePattern,
        prefixes: &NameMap<String>,
    ) -> (r: Vec<BindingSet>) {
        query_store_pattern(&self.store, Some(graph_uri), pattern, prefixes)
    }

    fn load_statements(&mut self, statements: &[Statement]) -> (r: Result<(), CqelsError>) {
        load_into(&mut self.store, None, statements)
    }

    fn load_named_graph(&mut self, graph_uri: &str, statements: &[Statement]) -> (r: Result<(), CqelsError>) {
        match parse_iri(graph_uri) {
            Ok(_) => load_into(&mut self.store, Some(graph_uri), statements),
            Err(text) => Err(evaluation_error("invalid graph URI: ", text.as_str())),
        }
    }
}

/// An empty store.
pub fn create_rdf_store() -> (r: Result<OxigraphRdfStore, CqelsError>)
    ensures
        r is Ok,
        r->Ok_0.wf(),
        r->Ok_0.quads() == Set::<QuadView>::empty(),
{
    OxigraphRdfStore::new()
}

/// What is loaded is held, and nothing is lost: the quads after loading are
/// those before it and the loaded statements in their graph.
pub proof fn law_loading_adds_the_statements(
    quads: Set<QuadView>,
    statements: Seq<StatementView>,
    graph: Option<Seq<char>>,
    q: QuadView,
)
    ensures
        loaded(quads, statements, graph).contains(q) <==> quads.contains(q) || (q.graph == graph && statements.contains(
            q.statement,
        )),
    decreases statements.len(),
{
    if statements.len() > 0 {
        law_loading_adds_the_statements(quads, statements.drop_last(), graph, q);
        assert(statements =~= statements.drop_last().push(statements.last()));
        broadcast use vstd::seq_lib::group_seq_properties;

    }
}

/// Loading stops at the first statement that cannot be loaded.
pub proof fn law_loading_stops_at_the_first_error(statements: Seq<StatementView>)
    ensures
        loadable_run(statements) <= statements.len(),
        forall|i: int| 0 <= i < loadable_run(statements) ==> loadable(#[trigger] statements[i]),
        loadable_run(statements) < statements.len() ==> !loadable(statements[loadable_run(statements) as int]),
    decreases statements.len(),
{
    lemma_run_bounded(statements);
    if statements.len() > 0 {
        let rest = statements.drop_last();
        law_loading_stops_at_the_first_error(rest);
        assert(statements =~= rest.push(statements.last()));
    }
}

/// Graphs are apart: what is loaded into one does not change the answers from
/// another.
pub proof fn law_graphs_are_apart(
    solutions: Seq<BindingSet>,
    quads: Set<QuadView>,
    statements: Seq<StatementView>,
    graph: Option<Seq<char>>,
    other: Option<Seq<char>>,
    pattern: TripleView,
    prefixes: Map<Seq<char>, Seq<char>>,
)
    requires
        graph != other,
    ensures
        answers(solutions, loaded(quads, statements, other), graph, pattern, prefixes) <==> answers(
            solutions,
            quads,
            graph,
            pattern,
            prefixes,
        ),
{
    let more = loaded(quads, statements, other);
    assert forall|t: StatementView|
        answering(more, graph, pattern, prefixes, t) == answering(quads, graph, pattern, prefixes, t) by {
        law_loading_adds_the_statements(quads, statements, other, QuadView { statement: t, graph });
    }
    if answers(solutions, more, graph, pattern, prefixes) {
        let found = choose|found: Seq<StatementView>| #[trigger]
            lists_answers(found, more, graph, pattern, prefixes) && solves(solutions, found, pattern, prefixes);
        assert(lists_answers(found, quads, graph, pattern, prefixes));
    }
    if answers(solutions, quads, graph, pattern, prefixes) {
        let found = choose|found: Seq<StatementView>| #[trigger]
            lists_answers(found, quads, graph, pattern, prefixes) && solves(solutions, found, pattern, prefixes);
        assert(lists_answers(found, more, graph, pattern, prefixes));
    }
}

/// A loaded statement is found again: where it answers a pattern, the answers
/// hold a solution that binds the variables to its terms.
pub proof fn law_loaded_statements_are_found(
    solutions: Seq<BindingSet>,
    quads: Set<QuadView>,
    statements: Seq<StatementView>,
    graph: Option<Seq<char>>,
    pattern: TripleView,
    prefixes: Map<Seq<char>, Seq<char>>,
    t: StatementView,
)
    requires
        statements.contains(t),
        matched(pattern, prefixes, t) is Some,
        filtered(
            t,
            resolved(pattern.subject, prefixes),
            resolved(pattern.predicate, prefixes),
            resolved(pattern.object, prefixes),
        ),
        answers(solutions, loaded(quads, statements, graph), graph, pattern, prefixes),
    ensures
        exists|i: int|
            0 <= i < solutions.len() && holds(#[trigger] solutions[i], matched(pattern, prefixes, t)->0),
{
    let more = loaded(quads, statements, graph);
    law_loading_adds_the_statements(quads, statements, graph, QuadView { statement: t, graph });
    assert(answering(more, graph, pattern, prefixes, t));
    let found = choose|found: Seq<StatementView>| #[trigger]
        lists_answers(found, more, graph, pattern, prefixes) && solves(solutions, found, pattern, prefixes);
    assert(found.contains(t));
    let i = choose|i: int| 0 <= i < found.len() && found[i] == t;
    assert(holds(solutions[i], matched(pattern, prefixes, t)->0));
}

/// The filter of a query loses nothing: a statement of IRIs that matches the
/// pattern passes it.
pub proof fn law_filter_keeps_matching_statements(
    pattern: TripleView,
    prefixes: Map<Seq<char>, Seq<char>>,
    t: StatementView,
)
    requires
        t.subject is Iri,
        t.object is Iri,
        matched(pattern, prefixes, t) is Some,
    ensures
        filtered(
            t,
            resolved(pattern.subject, prefixes),
            resolved(pattern.predicate, prefixes),
            resolved(pattern.object, prefixes),
        ),
{
}

} // verus!
