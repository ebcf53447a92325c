//! Matching of statements against triple patterns.
use vstd::prelude::*;

use crate::model::{BindingSet, Statement, StatementView, TermView, Value};
use crate::names::{same_name, NameMap};
use crate::parser::ast::{text_map, variable_term, TriplePattern, TripleView};
use crate::text::{append_text, slice_text, to_chars};

verus! {

/// A term between a pair of delimiters.
pub open spec fn enclosed(term: Seq<char>, open: char, close: char) -> bool {
    term.len() >= 2 && term[0] == open && term.last() == close
}

/// What stands between the delimiters.
pub open spec fn inner(term: Seq<char>) -> Seq<char> {
    term.subrange(1, term.len() - 1)
}

/// The first place of a colon at or after `i`; the length where there is none.
pub open spec fn colon_from(term: Seq<char>, i: int) -> int
    decreases term.len() - i,
{
    if i < 0 || i >= term.len() {
        term.len() as int
    } else if term[i] == ':' {
        i
    } else {
        colon_from(term, i + 1)
    }
}

pub open spec fn has_colon(term: Seq<char>) -> bool {
    colon_from(term, 0) < term.len()
}

/// The IRI that a constant term is written for: what stands between angle
/// brackets; for a prefixed name, what the prefix stands for and then the local
/// part; and any other term itself. A prefixed name with an unknown prefix has
/// none.
pub open spec fn iri_of(term: Seq<char>, prefixes: Map<Seq<char>, Seq<char>>) -> Option<Seq<char>> {
    if enclosed(term, '<', '>') {
        Some(inner(term))
    } else if has_colon(term) {
        let at = colon_from(term, 0);
        let prefix = term.subrange(0, at);
        if prefixes.contains_key(prefix) {
            Some(prefixes[prefix] + term.subrange(at + 1, term.len() as int))
        } else {
            None
        }
    } else {
        Some(term)
    }
}

/// The value of the literal that a constant term is written for: what stands
/// between quotes, or a term without colon and brackets itself.
pub open spec fn literal_of(term: Seq<char>) -> Option<Seq<char>> {
    if enclosed(term, '"', '"') {
        Some(inner(term))
    } else if enclosed(term, '<', '>') || has_colon(term) {
        None
    } else {
        Some(term)
    }
}

/// Is the constant written for this node?
pub open spec fn denotes(term: Seq<char>, prefixes: Map<Seq<char>, Seq<char>>, node: TermView) -> bool {
    match node {
        TermView::Iri(iri) => iri_of(term, prefixes) == Some(iri),
        TermView::Literal(value) => literal_of(term) == Some(value),
    }
}

/// The bindings with one more term of a pattern matched: a variable that is
/// free is bound to the node's content, one that is bound must be bound to it,
/// and a constant must be written for the node.
pub open spec fn bound(
    bindings: Option<Map<Seq<char>, Seq<char>>>,
    term: Seq<char>,
    prefixes: Map<Seq<char>, Seq<char>>,
    node: TermView,
) -> Option<Map<Seq<char>, Seq<char>>> {
    match bindings {
        None => None,
        Some(b) => if variable_term(term) {
            let name = term.skip(1);
            if !b.contains_key(name) {
                Some(b.insert(name, node.content()))
            } else if b[name] == node.content() {
                Some(b)
            } else {
                None
            }
        } else if denotes(term, prefixes, node) {
            Some(b)
        } else {
            None
        },
    }
}

/// What a statement binds the variables of a pattern to.
pub open spec fn matched(
    pattern: TripleView,
    prefixes: Map<Seq<char>, Seq<char>>,
    statement: StatementView,
) -> Option<Map<Seq<char>, Seq<char>>> {
    let subject = bound(Some(Map::empty()), pattern.subject, prefixes, statement.subject);
    let predicate = bound(subject, pattern.predicate, prefixes, TermView::Iri(statement.predicate));
    bound(predicate, pattern.object, prefixes, statement.object)
}

/// A solution binds the variables to the texts.
pub open spec fn holds(solution: BindingSet, bindings: Map<Seq<char>, Seq<char>>) -> bool {
    &&& solution.wf()
    &&& solution.values().dom() == bindings.dom()
    &&& forall|v: Seq<char>| #[trigger]
        bindings.contains_key(v) ==> (solution.values()[v] matches Value::String(s) && s@ == bindings[v])
}

fn is_enclosed(chars: &Vec<char>, open: char, close: char) -> (r: bool)
    ensures
        r == enclosed(chars@, open, close),
{
    chars.len() >= 2 && chars[0] == open && chars[chars.len() - 1] == close
}

fn find_colon(chars: &Vec<char>) -> (r: usize)
    ensures
        r == colon_from(chars@, 0),
        r <= chars@.len(),
{
    let mut i: usize = 0;
    while i < chars.len()
        invariant
            i <= chars@.len(),
            colon_from(chars@, 0) == colon_from(chars@, i as int),
        decreases chars@.len() - i,
    {
        if chars[i] == ':' {
            return i;
        }
        i += 1;
    }
    i
}

/// The IRI that a constant term is written for.
pub fn expand_iri(term: &str, prefixes: &NameMap<String>) -> (r: Option<String>)
    requires
        prefixes.wf(),
    ensures
        match (r, iri_of(term@, text_map(prefixes@))) {
            (Some(s), Some(iri)) => s@ == iri,
            (None, None) => true,
            _ => false,
        },
{
    let chars = to_chars(term);
    if is_enclosed(&chars, '<', '>') {
        return Some(slice_text(chars.as_slice(), 1, chars.len() - 1));
    }
    let at = find_colon(&chars);
    if at < chars.len() {
        let prefix = slice_text(chars.as_slice(), 0, at);
        match prefixes.get(prefix.as_str()) {
            Some(base) => {
                let mut r = String::new();
                append_text(&mut r, base.as_str());
                let local = slice_text(chars.as_slice(), at + 1, chars.len());
                append_text(&mut r, local.as_str());
                assert(r@ =~= base@ + local@);
                Some(r)
            },
            None => None,
        }
    } else {
        Some(term.to_string())
    }
}

/// The value of the literal that a constant term is written for.
pub fn expand_literal(term: &str) -> (r: Option<String>)
    ensures
        match (r, literal_of(term@)) {
            (Some(s), Some(value)) => s@ == value,
            (None, None) => true,
            _ => false,
        },
{
    let chars = to_chars(term);
    if is_enclosed(&chars, '"', '"') {
        return Some(slice_text(chars.as_slice(), 1, chars.len() - 1));
    }
    if is_enclosed(&chars, '<', '>') || find_colon(&chars) < chars.len() {
        None
    } else {
        Some(term.to_string())
    }
}

/// Matches one term of a pattern against a node, an IRI or a literal.
fn bind_term(
    solution: &mut BindingSet,
    term: &str,
    prefixes: &NameMap<String>,
    is_iri: bool,
    content: &str,
    Ghost(bindings): Ghost<Map<Seq<char>, Seq<char>>>,
    Ghost(node): Ghost<TermView>,
) -> (r: bool)
    requires
        holds(*old(solution), bindings),
        prefixes.wf(),
        is_iri == (node is Iri),
        content@ == node.content(),
    ensures
        final(solution).time() == old(solution).time(),
        r == (bound(Some(bindings), term@, text_map(prefixes@), node) is Some),
        r ==> holds(*final(solution), bound(Some(bindings), term@, text_map(prefixes@), node)->0),
{
    if TriplePattern::is_variable(term) {
        let chars = to_chars(term);
        let name = slice_text(chars.as_slice(), 1, chars.len());
        assert(name@ =~= term@.skip(1));
        match solution.get(name.as_str()) {
            Some(value) => {
                assert(solution.values().dom().contains(name@));
                assert(bindings.contains_key(name@));
                match value {
                    Value::String(s) => same_name(s.as_str(), content),
                    _ => false,
                }
            },
            None => {
                assert(!solution.values().dom().contains(name@));
                solution.insert(name.as_str(), Value::String(content.to_string()));
                assert(solution.values().dom() =~= bindings.insert(name@, content@).dom());
                true
            },
        }
    } else {
        let written = if is_iri {
            expand_iri(term, prefixes)
        } else {
            expand_literal(term)
        };
        match written {
            Some(s) => same_name(s.as_str(), content),
            None => false,
        }
    }
}

/// Matches a statement against a pattern; the solution has the given time.
pub fn match_triple_pattern(
    pattern: &TriplePattern,
    statement: &Statement,
    prefixes: &NameMap<String>,
    timestamp: i64,
) -> (r: Option<BindingSet>)
    requires
        prefixes.wf(),
    ensures
        match (r, matched(pattern@, text_map(prefixes@), statement@)) {
            (Some(solution), Some(bindings)) => holds(solution, bindings) && solution.time() == timestamp,
            (None, None) => true,
            _ => false,
        },
{
    let mut solution = BindingSet::new(timestamp);
    let ghost p = text_map(prefixes@);
    let ghost b0 = Map::<Seq<char>, Seq<char>>::empty();
    assert(solution.values().dom() =~= b0.dom());
    if !bind_term(
        &mut solution,
        pattern.subject.as_str(),
        prefixes,
        statement.subject.is_iri(),
        statement.subject.content(),
        Ghost(b0),
        Ghost(statement.subject@),
    ) {
        return None;
    }
    let ghost b1 = bound(Some(b0), pattern.subject@, p, statement.subject@)->0;
    if !bind_term(
        &mut solution,
        pattern.predicate.as_str(),
        prefixes,
        true,
        statement.predicate.iri.as_str(),
        Ghost(b1),
        Ghost(TermView::Iri(statement.predicate.iri@)),
    ) {
        return None;
    }
    let ghost b2 = bound(Some(b1), pattern.predicate@, p, TermView::Iri(statement.predicate.iri@))->0;
    if !bind_term(
        &mut solution,
        pattern.object.as_str(),
        prefixes,
        statement.object.is_iri(),
        statement.object.content(),
        Ghost(b2),
        Ghost(statement.object@),
    ) {
        return None;
    }
    Some(solution)
}

/// A pattern of three different variables matches every statement and binds
/// them to its terms.
pub proof fn law_variables_match_every_statement(
    pattern: TripleView,
    prefixes: Map<Seq<char>, Seq<char>>,
    statement: StatementView,
)
    requires
        variable_term(pattern.subject),
        variable_term(pattern.predicate),
        variable_term(pattern.object),
        pattern.subject.skip(1) != pattern.predicate.skip(1),
        pattern.subject.skip(1) != pattern.object.skip(1),
        pattern.predicate.skip(1) != pattern.object.skip(1),
    ensures
        matched(pattern, prefixes, statement) == Some(
            map![
                pattern.subject.skip(1) => statement.subject.content(),
                pattern.predicate.skip(1) => statement.predicate,
                pattern.object.skip(1) => statement.object.content()
            ],
        ),
{
}

/// A pattern without variables matches a statement only where each of its
/// terms is written for the statement's, and then binds nothing.
pub proof fn law_constants_match_what_they_are_written_for(
    pattern: TripleView,
    prefixes: Map<Seq<char>, Seq<char>>,
    statement: StatementView,
)
    requires
        !variable_term(pattern.subject),
        !variable_term(pattern.predicate),
        !variable_term(pattern.object),
    ensures
        matched(pattern, prefixes, statement) == if denotes(pattern.subject, prefixes, statement.subject) && denotes(
            pattern.predicate,
            prefixes,
            TermView::Iri(statement.predicate),
        ) && denotes(pattern.object, prefixes, statement.object) {
            Some(Map::<Seq<char>, Seq<char>>::empty())
        } else {
            None
        },
{
}

/// A term of a pattern agrees with a node: a variable is bound to the content of
/// the node, and a constant is written for it.
pub open spec fn agrees_with(
    bindings: Map<Seq<char>, Seq<char>>,
    term: Seq<char>,
    prefixes: Map<Seq<char>, Seq<char>>,
    node: TermView,
) -> bool {
    if term.len() > 0 && (term[0] == '?' || term[0] == '$') {
        bindings.contains_key(term.skip(1)) && bindings[term.skip(1)] == node.content()
    } else {
        denotes(term, prefixes, node)
    }
}

/// The term is a variable of this name.
pub open spec fn names(term: Seq<char>, name: Seq<char>) -> bool {
    term.len() > 0 && (term[0] == '?' || term[0] == '$') && term.skip(1) == name
}

/// A pattern matches a statement exactly if some bindings make each of its terms
/// agree with that of the statement. The solution then binds the variables of the
/// pattern and no others, so that each term agrees. A variable that stands twice is
/// bound to one text.
pub proof fn law_match_makes_the_terms_agree(
    pattern: TripleView,
    prefixes: Map<Seq<char>, Seq<char>>,
    statement: StatementView,
    other: Map<Seq<char>, Seq<char>>,
)
    ensures
        matched(pattern, prefixes, statement) matches Some(b) ==> {
            &&& agrees_with(b, pattern.subject, prefixes, statement.subject)
            &&& agrees_with(b, pattern.predicate, prefixes, TermView::Iri(statement.predicate))
            &&& agrees_with(b, pattern.object, prefixes, statement.object)
            &&& forall|name: Seq<char>| #[trigger]
                b.contains_key(name) ==> names(pattern.subject, name) || names(pattern.predicate, name) || names(
                    pattern.object,
                    name,
                )
        },
        agrees_with(other, pattern.subject, prefixes, statement.subject) && agrees_with(
            other,
            pattern.predicate,
            prefixes,
            TermView::Iri(statement.predicate),
        ) && agrees_with(other, pattern.object, prefixes, statement.object) ==> matched(
            pattern,
            prefixes,
            statement,
        ) is Some,
{
    let none = Map::<Seq<char>, Seq<char>>::empty();
    let s = bound(Some(none), pattern.subject, prefixes, statement.subject);
    let p = bound(s, pattern.predicate, prefixes, TermView::Iri(statement.predicate));
    let o = bound(p, pattern.object, prefixes, statement.object);
    if agrees_with(other, pattern.subject, prefixes, statement.subject) && agrees_with(
        other,
        pattern.predicate,
        prefixes,
        TermView::Iri(statement.predicate),
    ) && agrees_with(other, pattern.object, prefixes, statement.object) {
        assert(s is Some && forall|n: Seq<char>| #[trigger] (s->0).contains_key(n) ==> (s->0)[n] == other[n]);
        assert(p is Some && forall|n: Seq<char>| #[trigger] (p->0).contains_key(n) ==> (p->0)[n] == other[n]);
        assert(o is Some);
    }
}

/// What stands between angle brackets is an IRI. A prefix with a colon and a local
/// part stands for the IRI of the prefix with the local part behind it, where the
/// prefix is known, and else for none. What stands between quotes is a literal.
pub proof fn law_constants_are_expanded(
    prefixes: Map<Seq<char>, Seq<char>>,
    prefix: Seq<char>,
    local: Seq<char>,
    inner_text: Seq<char>,
)
    requires
        forall|i: int| 0 <= i < prefix.len() ==> #[trigger] prefix[i] != ':',
        prefix.len() > 0 ==> prefix[0] != '<' && prefix[0] != '"',
    ensures
        iri_of(seq!['<'] + inner_text + seq!['>'], prefixes) == Some(inner_text),
        iri_of(prefix + seq![':'] + local, prefixes) == if prefixes.contains_key(prefix) {
            Some(prefixes[prefix] + local)
        } else {
            None
        },
        iri_of(prefix, prefixes) == Some(prefix),
        literal_of(seq!['"'] + inner_text + seq!['"']) == Some(inner_text),
        literal_of(prefix) == Some(prefix),
        literal_of(prefix + seq![':'] + local) is None,
{
    let a = seq!['<'] + inner_text + seq!['>'];
    assert(inner(a) =~= inner_text);
    let q = seq!['"'] + inner_text + seq!['"'];
    assert(inner(q) =~= inner_text);
    let term = prefix + seq![':'] + local;
    lemma_colon_found(term, prefix.len() as int, 0);
    assert(term.subrange(0, prefix.len() as int) =~= prefix);
    assert(term.subrange(prefix.len() as int + 1, term.len() as int) =~= local);
    lemma_no_colon(prefix, 0);
    assert(term[prefix.len() as int] == ':');
    if prefix.len() > 0 {
        assert(term[0] == prefix[0]);
    }
}

proof fn lemma_colon_found(term: Seq<char>, at: int, i: int)
    requires
        0 <= i <= at < term.len(),
        term[at] == ':',
        forall|j: int| 0 <= j < at ==> #[trigger] term[j] != ':',
    ensures
        colon_from(term, i) == at,
    decreases at - i,
{
    if i < at {
        lemma_colon_found(term, at, i + 1);
    }
}

proof fn lemma_no_colon(term: Seq<char>, i: int)
    requires
        0 <= i <= term.len(),
        forall|j: int| 0 <= j < term.len() ==> #[trigger] term[j] != ':',
    ensures
        colon_from(term, i) == term.len(),
    decreases term.len() - i,
{
    if i < term.len() {
        lemma_no_colon(term, i + 1);
    }
}

} // verus!
