//! Parsing expressions and the trees that they give.
use vstd::prelude::*;

use crate::parser::grammar::{body, build, is_silent, silent, Language, Rule, RULE_LIMIT};

verus! {

/// Kinds of characters.
#[derive(Clone, Copy, Debug, PartialEq, Eq, Structural)]
pub enum Class {
    /// A digit.
    Digit,
    /// What a name starts with.
    NameStart,
    /// What a name consists of.
    NamePart,
    /// What a prefixed name consists of.
    NameInner,
    /// What stands between the brackets of an IRI.
    IriInner,
    /// What stands in double quotes without a backslash.
    NotDoubleQuote,
    /// What stands in single quotes without a backslash.
    NotSingleQuote,
    /// Any character.
    Any,
}

/// A letter, an underscore, or anything beyond ASCII.
pub open spec fn starts_name(c: char) -> bool {
    'a' <= c && c <= 'z' || 'A' <= c && c <= 'Z' || c == '_' || c > '\x7f'
}

pub open spec fn in_class(class: Class, c: char) -> bool {
    match class {
        Class::Digit => '0' <= c && c <= '9',
        Class::NameStart => starts_name(c),
        Class::NamePart => starts_name(c) || '0' <= c && c <= '9',
        Class::NameInner => starts_name(c) || '0' <= c && c <= '9' || c == '-',
        Class::IriInner => c > ' ' && c != '<' && c != '>' && c != '"' && c != '{' && c != '}' && c != '|' && c != '^'
            && c != '`' && c != '\\',
        Class::NotDoubleQuote => c != '"' && c != '\\',
        Class::NotSingleQuote => c != '\'' && c != '\\',
        Class::Any => true,
    }
}

fn is_in_class(class: Class, c: char) -> (r: bool)
    ensures
        r == in_class(class, c),
{
    let name = 'a' <= c && c <= 'z' || 'A' <= c && c <= 'Z' || c == '_' || c > '\x7f';
    match class {
        Class::Digit => '0' <= c && c <= '9',
        Class::NameStart => name,
        Class::NamePart => name || '0' <= c && c <= '9',
        Class::NameInner => name || '0' <= c && c <= '9' || c == '-',
        Class::IriInner => c > ' ' && c != '<' && c != '>' && c != '"' && c != '{' && c != '}' && c != '|' && c != '^'
            && c != '`' && c != '\\',
        Class::NotDoubleQuote => c != '"' && c != '\\',
        Class::NotSingleQuote => c != '\'' && c != '\\',
        Class::Any => true,
    }
}

/// A parsing expression.
pub enum Peg {
    /// Matches nothing.
    Never,
    /// A word in any case, not followed by more of a name.
    Word(&'static str),
    /// A text as it stands.
    Text(&'static str),
    /// A text in any case.
    AnyCase(&'static str),
    /// A character of a class.
    One(Class),
    /// White space and comments, if any.
    Gap,
    /// The end of the input.
    End,
    /// One after the other.
    Chain(Box<Peg>, Box<Peg>),
    /// The first, or else the second.
    Either(Box<Peg>, Box<Peg>),
    /// As often as it matches.
    Many(Box<Peg>),
    /// Once or not at all.
    Maybe(Box<Peg>),
    /// Where it does not match; nothing is consumed.
    Not(Box<Peg>),
    /// What a rule matches.
    Call(Rule),
}

#[verifier::allow_in_spec]
pub fn never() -> Peg
    returns
        Peg::Never,
{
    Peg::Never
}

#[verifier::allow_in_spec]
pub fn word(t: &'static str) -> Peg
    returns
        Peg::Word(t),
{
    Peg::Word(t)
}

#[verifier::allow_in_spec]
pub fn text(t: &'static str) -> Peg
    returns
        Peg::Text(t),
{
    Peg::Text(t)
}

#[verifier::allow_in_spec]
pub fn any_case(t: &'static str) -> Peg
    returns
        Peg::AnyCase(t),
{
    Peg::AnyCase(t)
}

#[verifier::allow_in_spec]
pub fn one(class: Class) -> Peg
    returns
        Peg::One(class),
{
    Peg::One(class)
}

#[verifier::allow_in_spec]
pub fn gap() -> Peg
    returns
        Peg::Gap,
{
    Peg::Gap
}

#[verifier::allow_in_spec]
pub fn end() -> Peg
    returns
        Peg::End,
{
    Peg::End
}

#[verifier::allow_in_spec]
pub fn call(rule: Rule) -> Peg
    returns
        Peg::Call(rule),
{
    Peg::Call(rule)
}

impl Peg {
    /// This, and then that.
    #[verifier::allow_in_spec]
    pub fn chain(self, next: Peg) -> Peg
        returns
            Peg::Chain(Box::new(self), Box::new(next)),
    {
        Peg::Chain(Box::new(self), Box::new(next))
    }

    /// This, or else that.
    #[verifier::allow_in_spec]
    pub fn or(self, other: Peg) -> Peg
        returns
            Peg::Either(Box::new(self), Box::new(other)),
    {
        Peg::Either(Box::new(self), Box::new(other))
    }

    #[verifier::allow_in_spec]
    pub fn many(self) -> Peg
        returns
            Peg::Many(Box::new(self)),
    {
        Peg::Many(Box::new(self))
    }

    #[verifier::allow_in_spec]
    pub fn maybe(self) -> Peg
        returns
            Peg::Maybe(Box::new(self)),
    {
        Peg::Maybe(Box::new(self))
    }

    #[verifier::allow_in_spec]
    pub fn not(self) -> Peg
        returns
            Peg::Not(Box::new(self)),
    {
        Peg::Not(Box::new(self))
    }

    /// This, and then that after a gap.
    #[verifier::allow_in_spec]
    pub fn lay(self, next: Peg) -> Peg
        returns
            self.chain(Peg::Gap.chain(next)),
    {
        self.chain(Peg::Gap.chain(next))
    }

    /// This, and then that as often as it comes, each after a gap.
    #[verifier::allow_in_spec]
    pub fn lay_many(self, next: Peg) -> Peg
        returns
            self.chain(Peg::Gap.chain(next).many()),
    {
        self.chain(Peg::Gap.chain(next).many())
    }

    /// This, and then that after a gap if it comes.
    #[verifier::allow_in_spec]
    pub fn lay_maybe(self, next: Peg) -> Peg
        returns
            self.chain(Peg::Gap.chain(next).maybe()),
    {
        self.chain(Peg::Gap.chain(next).maybe())
    }
}

/// A node of a tree: a rule, what it matched, and how many nodes below it
/// follow in the listing.
#[derive(Clone, Copy, Debug, PartialEq, Eq, Structural)]
pub struct Node {
    pub rule: Rule,
    pub start: usize,
    pub end: usize,
    pub size: usize,
}

/// The upper case of an ASCII letter; other characters stay.
pub open spec fn upper(c: char) -> char {
    if 'a' <= c && c <= 'z' {
        ((c as u32 - 32) as u8) as char
    } else {
        c
    }
}

pub fn to_upper(c: char) -> (r: char)
    ensures
        r == upper(c),
{
    if 'a' <= c && c <= 'z' {
        (c as u32 - 32) as u8 as char
    } else {
        c
    }
}

/// The text stands at a position.
pub open spec fn text_at(input: Seq<char>, pos: int, t: Seq<char>) -> bool {
    pos + t.len() <= input.len() && input.subrange(pos, pos + t.len()) == t
}

/// The text stands at a position, in any case.
pub open spec fn any_case_at(input: Seq<char>, pos: int, t: Seq<char>) -> bool {
    &&& pos + t.len() <= input.len()
    &&& forall|i: int| 0 <= i < t.len() ==> upper(input[pos + i]) == upper(#[trigger] t[i])
}

/// The end of the line that begins at a position.
pub open spec fn line_end(input: Seq<char>, pos: nat) -> nat
    decreases input.len() - pos,
{
    if pos >= input.len() || input[pos as int] == '\n' {
        pos
    } else {
        line_end(input, pos + 1)
    }
}

/// A comment begins at a position.
pub open spec fn comment_at(language: Language, input: Seq<char>, pos: nat) -> bool {
    match language {
        Language::CqelsQl => pos < input.len() && input[pos as int] == '#',
        Language::CypherQl => pos + 1 < input.len() && input[pos as int] == '/' && input[(pos + 1) as int] == '/',
    }
}

pub open spec fn is_space(c: char) -> bool {
    c == ' ' || c == '\t' || c == '\n' || c == '\r'
}

/// The first position from which on there is neither white space nor a
/// comment.
pub open spec fn after_gap(language: Language, input: Seq<char>, pos: nat) -> nat
    decreases input.len() - pos,
{
    if pos >= input.len() {
        pos
    } else if is_space(input[pos as int]) {
        after_gap(language, input, pos + 1)
    } else if comment_at(language, input, pos) {
        let stop = line_end(input, pos + 1);
        if stop <= pos || stop > input.len() {
            pos
        } else {
            after_gap(language, input, stop)
        }
    } else {
        pos
    }
}

/// What an expression matches at a position: where the match ends, and the
/// nodes of the rules that were called, each before those below it.
///
/// `calls` bounds the rule calls until something is consumed: a rule that
/// calls itself without consuming anything does not match.
pub open spec fn matched(language: Language, input: Seq<char>, e: Peg, pos: nat, calls: nat) -> Option<(nat, Seq<Node>)>
    decreases input.len() - pos, calls, e,
    when pos <= input.len()
{
    match e {
        Peg::Never => None,
        Peg::Word(t) => if any_case_at(input, pos as int, t@) && !(pos + t@.len() < input.len() && in_class(
            Class::NamePart,
            input[(pos + t@.len()) as int],
        )) {
            Some((pos + t@.len(), Seq::empty()))
        } else {
            None
        },
        Peg::Text(t) => if text_at(input, pos as int, t@) {
            Some((pos + t@.len(), Seq::empty()))
        } else {
            None
        },
        Peg::AnyCase(t) => if any_case_at(input, pos as int, t@) {
            Some((pos + t@.len(), Seq::empty()))
        } else {
            None
        },
        Peg::One(class) => if pos < input.len() && in_class(class, input[pos as int]) {
            Some((pos + 1, Seq::empty()))
        } else {
            None
        },
        Peg::Gap => Some((after_gap(language, input, pos), Seq::empty())),
        Peg::End => if pos == input.len() {
            Some((pos, Seq::empty()))
        } else {
            None
        },
        Peg::Chain(a, b) => match matched(language, input, *a, pos, calls) {
            None => None,
            Some((p, first)) => if p < pos || p > input.len() {
                None
            } else {
                match matched(language, input, *b, p, calls_at(pos, p, calls)) {
                    None => None,
                    Some((q, second)) => Some((q, first + second)),
                }
            },
        },
        Peg::Either(a, b) => match matched(language, input, *a, pos, calls) {
            None => matched(language, input, *b, pos, calls),
            Some(m) => Some(m),
        },
        Peg::Many(a) => match matched(language, input, *a, pos, calls) {
            None => Some((pos, Seq::empty())),
            Some((p, first)) => if p <= pos || p > input.len() {
                Some((pos, Seq::empty()))
            } else {
                match matched(language, input, e, p, RULE_LIMIT as nat) {
                    None => Some((p, first)),
                    Some((q, rest)) => Some((q, first + rest)),
                }
            },
        },
        Peg::Maybe(a) => match matched(language, input, *a, pos, calls) {
            None => Some((pos, Seq::empty())),
            Some(m) => Some(m),
        },
        Peg::Not(a) => match matched(language, input, *a, pos, calls) {
            None => Some((pos, Seq::empty())),
            Some(m) => None,
        },
        Peg::Call(rule) => if calls == 0 {
            None
        } else {
            match matched(language, input, body(language, rule), pos, (calls - 1) as nat) {
                None => None,
                Some((p, below)) => Some((p, node_over(rule, pos, p, below))),
            }
        },
    }
}

/// How many rule calls are left after going from one position to another.
pub open spec fn calls_at(from: nat, to: nat, calls: nat) -> nat {
    if to > from {
        RULE_LIMIT as nat
    } else {
        calls
    }
}

/// The nodes below a rule, with the node of the rule before them unless the
/// rule is silent.
pub open spec fn node_over(rule: Rule, start: nat, end: nat, below: Seq<Node>) -> Seq<Node> {
    if silent(rule) {
        below
    } else {
        seq![Node { rule, start: start as usize, end: end as usize, size: below.len() as usize }] + below
    }
}

/// The nodes of a query, where the input is one.
pub open spec fn parsed(language: Language, input: Seq<char>) -> Option<Seq<Node>> {
    match matched(language, input, Peg::Call(Rule::Query), 0, RULE_LIMIT as nat) {
        None => None,
        Some((p, nodes)) => Some(nodes),
    }
}

/// An input and what it is parsed as.
pub struct Source {
    pub language: Language,
    pub input: Vec<char>,
}

impl Source {
    fn find_line_end(&self, pos: usize) -> (r: usize)
        requires
            pos <= self.input@.len(),
        ensures
            r == line_end(self.input@, pos as nat),
            pos <= r <= self.input@.len(),
    {
        let mut p: usize = pos;
        while p < self.input.len() && self.input[p] != '\n'
            invariant
                pos <= p <= self.input@.len(),
                line_end(self.input@, pos as nat) == line_end(self.input@, p as nat),
            decreases self.input@.len() - p,
        {
            p += 1;
        }
        p
    }

    fn is_comment_at(&self, pos: usize) -> (r: bool)
        requires
            pos < self.input@.len(),
        ensures
            r == comment_at(self.language, self.input@, pos as nat),
    {
        match self.language {
            Language::CqelsQl => self.input[pos] == '#',
            Language::CypherQl => {
                self.input[pos] == '/' && pos < self.input.len() - 1 && self.input[pos + 1] == '/'
            },
        }
    }

    fn skip_gap(&self, pos: usize) -> (r: usize)
        requires
            pos <= self.input@.len(),
        ensures
            r == after_gap(self.language, self.input@, pos as nat),
            pos <= r <= self.input@.len(),
    {
        let mut p: usize = pos;
        loop
            invariant
                pos <= p <= self.input@.len(),
                after_gap(self.language, self.input@, pos as nat) == after_gap(self.language, self.input@, p as nat),
            decreases self.input@.len() - p,
        {
            if p >= self.input.len() {
                return p;
            }
            let c = self.input[p];
            if c == ' ' || c == '\t' || c == '\n' || c == '\r' {
                p += 1;
            } else if self.is_comment_at(p) {
                p = self.find_line_end(p + 1);
            } else {
                return p;
            }
        }
    }

    fn is_text_at(&self, pos: usize, t: &str) -> (r: Option<usize>)
        requires
            pos <= self.input@.len(),
        ensures
            r is Some <==> text_at(self.input@, pos as int, t@),
            r is Some ==> r->0 == pos + t@.len(),
    {
        let mut p: usize = pos;
        for c in iter: t.chars()
            invariant
                iter.seq() == t@,
                pos <= p <= self.input@.len(),
                iter.index() <= t@.len(),
                p == pos + iter.index(),
                forall|i: int| 0 <= i < iter.index() ==> self.input@[pos + i] == #[trigger] t@[i],
        {
            let ghost k = iter.index();
            if p >= self.input.len() || self.input[p] != c {
                proof {
                    if text_at(self.input@, pos as int, t@) {
                        assert(self.input@.subrange(pos as int, pos + t@.len())[k] == self.input@[pos + k]);
                    }
                }
                return None;
            }
            p += 1;
        }
        assert(self.input@.subrange(pos as int, pos + t@.len()) =~= t@);
        Some(p)
    }

    fn is_any_case_at(&self, pos: usize, t: &str) -> (r: Option<usize>)
        requires
            pos <= self.input@.len(),
        ensures
            r is Some <==> any_case_at(self.input@, pos as int, t@),
            r is Some ==> r->0 == pos + t@.len(),
    {
        let mut p: usize = pos;
        for c in iter: t.chars()
            invariant
                iter.seq() == t@,
                pos <= p <= self.input@.len(),
                iter.index() <= t@.len(),
                p == pos + iter.index(),
                forall|i: int| 0 <= i < iter.index() ==> upper(self.input@[pos + i]) == upper(#[trigger] t@[i]),
        {
            let ghost k = iter.index();
            if p >= self.input.len() {
                return None;
            }
            if to_upper(self.input[p]) != to_upper(c) {
                assert(upper(self.input@[pos + k]) != upper(t@[k]));
                return None;
            }
            p += 1;
        }
        Some(p)
    }

    /// Matches an expression and appends the nodes.
    fn run(&self, e: &Peg, pos: usize, calls: usize, nodes: &mut Vec<Node>) -> (r: Option<usize>)
        requires
            pos <= self.input@.len(),
        ensures
            match matched(self.language, self.input@, *e, pos as nat, calls as nat) {
                None => r is None && final(nodes)@ == old(nodes)@,
                Some((p, found)) => r is Some && r->0 == p && final(nodes)@ == old(nodes)@ + found,
            },
            r is Some ==> pos <= r->0 <= self.input@.len(),
        decreases self.input@.len() - pos, calls, *e,
    {
        let ghost before = nodes@;
        let mark: usize = nodes.len();
        proof {
            assert(before + Seq::<Node>::empty() =~= before);
        }
        match e {
            Peg::Never => None,
            Peg::Word(t) => match self.is_any_case_at(pos, t) {
                None => None,
                Some(p) => {
                    if p < self.input.len() && is_in_class(Class::NamePart, self.input[p]) {
                        None
                    } else {
                        Some(p)
                    }
                },
            },
            Peg::Text(t) => self.is_text_at(pos, t),
            Peg::AnyCase(t) => self.is_any_case_at(pos, t),
            Peg::One(class) => {
                if pos < self.input.len() && is_in_class(*class, self.input[pos]) {
                    Some(pos + 1)
                } else {
                    None
                }
            },
            Peg::Gap => Some(self.skip_gap(pos)),
            Peg::End => if pos == self.input.len() {
                Some(pos)
            } else {
                None
            },
            Peg::Chain(a, b) => match self.run(a, pos, calls, nodes) {
                None => None,
                Some(p) => {
                    let ghost first = matched(self.language, self.input@, **a, pos as nat, calls as nat)->Some_0.1;
                    assert(nodes@ == before + first);
                    let left: usize = if p > pos {
                        RULE_LIMIT
                    } else {
                        calls
                    };
                    match self.run(b, p, left, nodes) {
                        None => {
                            nodes.truncate(mark);
                            assert(nodes@ =~= before);
                            None
                        },
                        Some(q) => {
                            let ghost second = matched(
                                self.language,
                                self.input@,
                                **b,
                                p as nat,
                                left as nat,
                            )->Some_0.1;
                            assert(nodes@ =~= before + (first + second));
                            Some(q)
                        },
                    }
                },
            },
            Peg::Either(a, b) => match self.run(a, pos, calls, nodes) {
                None => self.run(b, pos, calls, nodes),
                Some(p) => Some(p),
            },
            Peg::Many(a) => {
                let ghost total = matched(self.language, self.input@, *e, pos as nat, calls as nat);
                let ghost mut acc: Seq<Node> = Seq::empty();
                let mut p: usize = pos;
                let mut left: usize = calls;
                proof {
                    lemma_many_matches(self.language, self.input@, **a, pos as nat, calls as nat);
                    assert(acc + total->Some_0.1 =~= total->Some_0.1);
                    assert(before + acc =~= before);
                }
                loop
                    invariant
                        *e == Peg::Many(*a),
                        before == old(nodes)@,
                        pos <= p <= self.input@.len(),
                        p == pos ==> left == calls,
                        nodes@ == before + acc,
                        total == matched(self.language, self.input@, *e, pos as nat, calls as nat),
                        matched(self.language, self.input@, *e, p as nat, left as nat) is Some,
                        total == Some(
                            (
                                matched(self.language, self.input@, *e, p as nat, left as nat)->Some_0.0,
                                acc + matched(self.language, self.input@, *e, p as nat, left as nat)->Some_0.1,
                            ),
                        ),
                    decreases self.input@.len() - p,
                {
                    let here: usize = nodes.len();
                    match self.run(a, p, left, nodes) {
                        None => {
                            assert(acc + Seq::<Node>::empty() =~= acc);
                            return Some(p);
                        },
                        Some(q) => {
                            if q <= p {
                                nodes.truncate(here);
                                assert(nodes@ =~= before + acc);
                                assert(acc + Seq::<Node>::empty() =~= acc);
                                return Some(p);
                            }
                            proof {
                                let first = matched(
                                    self.language,
                                    self.input@,
                                    **a,
                                    p as nat,
                                    left as nat,
                                )->Some_0.1;
                                lemma_many_matches(
                                    self.language,
                                    self.input@,
                                    **a,
                                    q as nat,
                                    RULE_LIMIT as nat,
                                );
                                let rest = matched(
                                    self.language,
                                    self.input@,
                                    *e,
                                    q as nat,
                                    RULE_LIMIT as nat,
                                )->Some_0.1;
                                assert(acc + (first + rest) =~= (acc + first) + rest);
                                assert(before + acc + first =~= before + (acc + first));
                                acc = acc + first;
                            }
                            p = q;
                            left = RULE_LIMIT;
                        },
                    }
                }
            },
            Peg::Maybe(a) => match self.run(a, pos, calls, nodes) {
                None => Some(pos),
                Some(p) => Some(p),
            },
            Peg::Not(a) => {
                let mut aside: Vec<Node> = Vec::new();
                match self.run(a, pos, calls, &mut aside) {
                    None => Some(pos),
                    Some(_) => None,
                }
            },
            Peg::Call(rule) => {
                if calls == 0 {
                    return None;
                }
                let inner = build(self.language, *rule);
                if is_silent(*rule) {
                    return self.run(&inner, pos, calls - 1, nodes);
                }
                nodes.push(Node { rule: *rule, start: pos, end: pos, size: 0 });
                match self.run(&inner, pos, calls - 1, nodes) {
                    None => {
                        nodes.truncate(mark);
                        assert(nodes@ =~= before);
                        None
                    },
                    Some(p) => {
                        let ghost below = matched(
                            self.language,
                            self.input@,
                            inner,
                            pos as nat,
                            (calls - 1) as nat,
                        )->Some_0.1;
                        let size: usize = nodes.len() - mark - 1;
                        assert(size == below.len());
                        nodes.set(mark, Node { rule: *rule, start: pos, end: p, size });
                        assert(nodes@ =~= before + node_over(*rule, pos as nat, p as nat, below));
                        Some(p)
                    },
                }
            },
        }
    }

    /// The nodes of the query that the input is.
    pub fn parse(&self) -> (r: Option<Vec<Node>>)
        ensures
            match parsed(self.language, self.input@) {
                None => r is None,
                Some(nodes) => r is Some && r->0@ == nodes,
            },
    {
        let mut nodes: Vec<Node> = Vec::new();
        match self.run(&Peg::Call(Rule::Query), 0, RULE_LIMIT, &mut nodes) {
            None => None,
            Some(_) => {
                let ghost found = parsed(self.language, self.input@)->0;
                assert(nodes@ =~= found);
                Some(nodes)
            },
        }
    }
}

proof fn lemma_many_matches(language: Language, input: Seq<char>, a: Peg, pos: nat, calls: nat)
    requires
        pos <= input.len(),
    ensures
        matched(language, input, Peg::Many(Box::new(a)), pos, calls) is Some,
{
}

} // verus!
