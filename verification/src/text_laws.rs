//! What the texts of values say of them.
use vstd::prelude::*;

use crate::model::{Statement, Term};
use crate::parser::ast::{AggregateSpec, TriplePattern, WindowSpec, WindowType};
use crate::parser::ast_cypher::{label_texts, PropertyFilter};
use crate::parser::reading_laws::law_number_is_read_back;
use crate::text::{decimal_digits, decimal_text, joined, number_upto};

verus! {

/// Does a part stand in a text at a position?
pub open spec fn stands(text: Seq<char>, at: int, part: Seq<char>) -> bool {
    0 <= at && at + part.len() <= text.len() && text.subrange(at, at + part.len()) == part
}

/// A number is read back from its text, which begins with a minus sign where the
/// number is negative.
pub proof fn law_signed_number_is_read_back(n: i64)
    ensures
        ({
            let s = decimal_text(n as int);
            if n < 0 {
                s.len() > 0 && s[0] == '-' && number_upto(s.skip(1), u64::MAX as nat) == Some((-n) as nat)
            } else {
                number_upto(s, u64::MAX as nat) == Some(n as nat)
            }
        }),
{
    let s = decimal_text(n as int);
    if n < 0 {
        law_number_is_read_back((-n) as nat, u64::MAX as nat);
        assert(s.skip(1) =~= decimal_digits((-n) as nat));
    } else {
        law_number_is_read_back(n as nat, u64::MAX as nat);
    }
}

/// Joined texts stand in their order, each behind the separator but the first.
pub proof fn law_joined_texts_are_set_apart(parts: Seq<Seq<char>>, last: Seq<char>, separator: Seq<char>)
    ensures
        ({
            let before = joined(parts, separator);
            let all = joined(parts.push(last), separator);
            if parts.len() == 0 {
                before.len() == 0 && all == last
            } else {
                &&& stands(all, 0, before)
                &&& stands(all, before.len() as int, separator)
                &&& stands(all, (before.len() + separator.len()) as int, last)
                &&& all.len() == before.len() + separator.len() + last.len()
            }
        }),
{
    assert(parts.push(last).drop_last() =~= parts);
    if parts.len() > 0 {
        let before = joined(parts, separator);
        let all = joined(parts.push(last), separator);
        assert(all == before + separator + last);
        lemma_three(before, separator, last);
    }
}

proof fn lemma_three(a: Seq<char>, b: Seq<char>, c: Seq<char>)
    ensures
        stands(a + b + c, 0, a),
        stands(a + b + c, a.len() as int, b),
        stands(a + b + c, (a.len() + b.len()) as int, c),
{
    let s = a + b + c;
    assert(s.subrange(0, a.len() as int) =~= a);
    assert(s.subrange(a.len() as int, (a.len() + b.len()) as int) =~= b);
    assert(s.subrange((a.len() + b.len()) as int, (a.len() + b.len() + c.len()) as int) =~= c);
}

proof fn lemma_five(a: Seq<char>, b: Seq<char>, c: Seq<char>, d: Seq<char>, e: Seq<char>)
    ensures
        ({
            let s = a + b + c + d + e;
            &&& stands(s, 0, a)
            &&& stands(s, a.len() as int, b)
            &&& stands(s, (a.len() + b.len()) as int, c)
            &&& stands(s, (a.len() + b.len() + c.len()) as int, d)
            &&& stands(s, (a.len() + b.len() + c.len() + d.len()) as int, e)
        }),
{
    let s = a + b + c + d + e;
    let at_b = a.len() as int;
    let at_c = (a.len() + b.len()) as int;
    let at_d = (a.len() + b.len() + c.len()) as int;
    let at_e = (a.len() + b.len() + c.len() + d.len()) as int;
    assert(s.subrange(0, at_b) =~= a);
    assert(s.subrange(at_b, at_c) =~= b);
    assert(s.subrange(at_c, at_d) =~= c);
    assert(s.subrange(at_d, at_e) =~= d);
    assert(s.subrange(at_e, s.len() as int) =~= e);
}

/// A triple is written subject first, then predicate, then object, with a blank
/// between each two.
pub proof fn law_triple_text_lists_its_terms(p: TriplePattern)
    ensures
        ({
            let r = p.rendered();
            let s = p.subject@.len();
            let m = p.predicate@.len();
            &&& r.len() == s + m + p.object@.len() + 2
            &&& stands(r, 0, p.subject@)
            &&& r[s as int] == ' '
            &&& stands(r, (s + 1) as int, p.predicate@)
            &&& r[(s + m + 1) as int] == ' '
            &&& stands(r, (s + m + 2) as int, p.object@)
        }),
{
    reveal_strlit(" ");
    lemma_five(p.subject@, " "@, p.predicate@, " "@, p.object@);
}

/// An IRI is written in angle brackets and a literal in quotes.
pub open spec fn written_as(text: Seq<char>, term: Term) -> bool {
    match term {
        Term::Iri(iri) => text.len() == iri.iri@.len() + 2 && text[0] == '<' && text.last() == '>' && stands(
            text,
            1,
            iri.iri@,
        ),
        Term::Literal(l) => text.len() == l.value@.len() + 2 && text[0] == '"' && text.last() == '"' && stands(
            text,
            1,
            l.value@,
        ),
    }
}

/// A statement is written subject first, then predicate, then object, with a blank
/// between each two.
pub proof fn law_statement_text_lists_its_terms(p: Statement)
    ensures
        ({
            let r = p.rendered();
            let s = p.subject.rendered();
            let o = p.object.rendered();
            let m = p.predicate.iri@.len() + 2;
            &&& written_as(s, p.subject)
            &&& written_as(o, p.object)
            &&& r.len() == s.len() + m + o.len() + 2
            &&& stands(r, 0, s)
            &&& r[s.len() as int] == ' '
            &&& r[(s.len() + 1) as int] == '<'
            &&& stands(r, (s.len() + 2) as int, p.predicate.iri@)
            &&& r[(s.len() + m) as int] == '>'
            &&& r[(s.len() + m + 1) as int] == ' '
            &&& stands(r, (s.len() + m + 2) as int, o)
        }),
{
    let s = p.subject.rendered();
    let o = p.object.rendered();
    lemma_term(p.subject);
    lemma_term(p.object);
    lemma_five(s, seq![' '], p.predicate.rendered(), seq![' '], o);
    lemma_five(s, seq![' '] + seq!['<'], p.predicate.iri@, seq!['>'] + seq![' '], o);
    let r = p.rendered();
    assert(r =~= s + (seq![' '] + seq!['<']) + p.predicate.iri@ + (seq!['>'] + seq![' ']) + o);
}

proof fn lemma_term(term: Term)
    ensures
        written_as(term.rendered(), term),
{
    match term {
        Term::Iri(iri) => {
            lemma_three(seq!['<'], iri.iri@, seq!['>']);
        },
        Term::Literal(l) => {
            lemma_three(seq!['"'], l.value@, seq!['"']);
        },
    }
}

/// The text of a window says its span and its step, or its numbers.
pub proof fn law_window_text_says_its_extent(w: WindowSpec)
    ensures
        ({
            let r = w.rendered();
            match (w.window_type, w.duration, w.step, w.triple_count, w.triple_slide) {
                (WindowType::Range, Some(d), _, _, _) => stands(r, 0, "RANGE "@) && r.skip(6) == d.rendered(),
                (WindowType::Slide, Some(d), Some(s), _, _) => {
                    let n = d.rendered().len();
                    &&& stands(r, 0, "SLIDE "@)
                    &&& stands(r, 6, d.rendered())
                    &&& stands(r, (n + 6) as int, " STEP "@)
                    &&& r.skip((n + 12) as int) == s.rendered()
                },
                (WindowType::Triples, _, _, Some(count), _) => stands(r, 0, "TRIPLES "@) && number_upto(
                    r.skip(8),
                    u64::MAX as nat,
                ) == Some(count as nat),
                (WindowType::TriplesSlide, _, _, Some(count), Some(slide)) => exists|n: int|
                    8 <= n <= r.len() - 7 && stands(r, 0, "TRIPLES "@) && number_upto(
                        #[trigger] r.subrange(8, n),
                        u64::MAX as nat,
                    ) == Some(count as nat) && stands(r, n, " SLIDE "@) && number_upto(r.skip(n + 7), u64::MAX as nat)
                        == Some(slide as nat),
                _ => true,
            }
        }),
{
    reveal_strlit("RANGE ");
    reveal_strlit("SLIDE ");
    reveal_strlit(" STEP ");
    reveal_strlit("TRIPLES ");
    reveal_strlit(" SLIDE ");
    let r = w.rendered();
    match (w.window_type, w.duration, w.step, w.triple_count, w.triple_slide) {
        (WindowType::Range, Some(d), _, _, _) => {
            lemma_three("RANGE "@, d.rendered(), Seq::empty());
            assert(r =~= "RANGE "@ + d.rendered() + Seq::empty());
            assert(r.skip(6) =~= d.rendered());
        },
        (WindowType::Slide, Some(d), Some(s), _, _) => {
            lemma_five("SLIDE "@, d.rendered(), " STEP "@, s.rendered(), Seq::empty());
            assert(r =~= "SLIDE "@ + d.rendered() + " STEP "@ + s.rendered() + Seq::empty());
            assert(r.skip((d.rendered().len() + 12) as int) =~= s.rendered());
        },
        (WindowType::Triples, _, _, Some(count), _) => {
            let c = decimal_digits(count as nat);
            lemma_three("TRIPLES "@, c, Seq::empty());
            assert(r =~= "TRIPLES "@ + c + Seq::empty());
            assert(r.skip(8) =~= c);
            law_number_is_read_back(count as nat, u64::MAX as nat);
        },
        (WindowType::TriplesSlide, _, _, Some(count), Some(slide)) => {
            let c = decimal_digits(count as nat);
            let d = decimal_digits(slide as nat);
            let n = 8 + c.len() as int;
            lemma_five("TRIPLES "@, c, " SLIDE "@, d, Seq::empty());
            assert(r =~= "TRIPLES "@ + c + " SLIDE "@ + d + Seq::empty());
            assert(r.subrange(8, n) =~= c);
            assert(r.skip(n + 7) =~= d);
            law_number_is_read_back(count as nat, u64::MAX as nat);
            law_number_is_read_back(slide as nat, u64::MAX as nat);
            assert(number_upto(r.subrange(8, n), u64::MAX as nat) == Some(count as nat));
        },
        _ => {},
    }
}

/// The text of an aggregate is the call of its function on its argument, and then
/// its alias.
pub proof fn law_aggregate_text_is_its_call(a: AggregateSpec)
    ensures
        ({
            let r = a.rendered();
            let f = a.function.rendered().len();
            let n = a.argument@.len();
            &&& stands(r, 0, a.function.rendered())
            &&& r[f as int] == '('
            &&& stands(r, (f + 1) as int, a.argument@)
            &&& r[(f + n + 1) as int] == ')'
            &&& stands(r, (r.len() - a.alias@.len()) as int, a.alias@)
        }),
{
    reveal_strlit("(");
    reveal_strlit(") AS ");
    lemma_five(a.function.rendered(), "("@, a.argument@, ") AS "@, a.alias@);
    let r = a.rendered();
    let f = a.function.rendered().len();
    let n = a.argument@.len();
    assert(r.subrange((f + n + 1) as int, (f + n + 6) as int)[0] == r[(f + n + 1) as int]);
}

/// Each label is written behind a colon, behind the labels before it.
pub proof fn law_labels_are_written_in_order(labels: Seq<Seq<char>>, last: Seq<char>)
    ensures
        ({
            let before = label_texts(labels);
            let all = label_texts(labels.push(last));
            &&& all.len() == before.len() + last.len() + 1
            &&& stands(all, 0, before)
            &&& all[before.len() as int] == ':'
            &&& stands(all, (before.len() + 1) as int, last)
        }),
{
    reveal_strlit(":");
    assert(labels.push(last).drop_last() =~= labels);
    lemma_three(label_texts(labels), ":"@, last);
}

/// The text of a filter says whose property is compared, how, and with what.
pub proof fn law_filter_text_is_its_comparison(p: PropertyFilter)
    ensures
        ({
            let r = p.rendered();
            let v = p.variable@.len();
            let n = p.property@.len();
            let o = p.operator.rendered().len();
            &&& r.len() == v + n + o + p.value@.len() + 3
            &&& stands(r, 0, p.variable@)
            &&& r[v as int] == '.'
            &&& stands(r, (v + 1) as int, p.property@)
            &&& r[(v + n + 1) as int] == ' '
            &&& stands(r, (v + n + 2) as int, p.operator.rendered())
            &&& r[(v + n + o + 2) as int] == ' '
            &&& stands(r, (v + n + o + 3) as int, p.value@)
        }),
{
    reveal_strlit(".");
    reveal_strlit(" ");
    let head = p.variable@ + "."@ + p.property@;
    let r = p.rendered();
    lemma_three(p.variable@, "."@, p.property@);
    lemma_five(head, " "@, p.operator.rendered(), " "@, p.value@);
    lemma_five(p.variable@, "."@, p.property@, " "@, p.operator.rendered() + " "@ + p.value@);
    assert(r =~= p.variable@ + "."@ + p.property@ + " "@ + (p.operator.rendered() + " "@ + p.value@));
}

} // verus!
