//! What may stand between the words of a query.
use vstd::prelude::*;

use crate::parser::grammar::Language;
use crate::parser::peg::{after_gap, line_end};

verus! {

/// Does the rest of a line from `pos` on begin with the mark of a comment?
pub open spec fn marked(language: Language, input: Seq<char>, pos: int) -> bool {
    match language {
        Language::CqelsQl => pos < input.len() && input[pos] == '#',
        Language::CypherQl => pos + 1 < input.len() && input[pos] == '/' && input[pos + 1] == '/',
    }
}

/// Is the character at `k` white space, or does it belong to a comment that begins
/// at or after `from`?
pub open spec fn left_out(language: Language, input: Seq<char>, from: int, k: int) -> bool {
    ||| input[k] == ' ' || input[k] == '\t' || input[k] == '\n' || input[k] == '\r'
    ||| exists|c: int| from <= c <= k && #[trigger] marked(language, input, c) && no_break(input, c, k)
}

/// Is there no line break behind `from`, up to and with `to`?
pub open spec fn no_break(input: Seq<char>, from: int, to: int) -> bool {
    forall|j: int| from < j <= to ==> #[trigger] input[j] != '\n'
}

/// A line ends at the first line break, or where the text ends.
pub proof fn law_line_ends_at_the_first_break(input: Seq<char>, pos: nat)
    requires
        pos <= input.len(),
    ensures
        ({
            let end = line_end(input, pos);
            &&& pos <= end <= input.len()
            &&& end < input.len() ==> input[end as int] == '\n'
            &&& forall|j: int| pos <= j < end ==> #[trigger] input[j] != '\n'
        }),
    decreases input.len() - pos,
{
    if pos < input.len() && input[pos as int] != '\n' {
        law_line_ends_at_the_first_break(input, pos + 1);
    }
}

/// A gap is made of white space and comments, and goes as far as they do.
pub proof fn law_gap_is_white_space_and_comments(language: Language, input: Seq<char>, pos: nat)
    requires
        pos <= input.len(),
    ensures
        ({
            let end = after_gap(language, input, pos);
            &&& pos <= end <= input.len()
            &&& end < input.len() ==> !marked(language, input, end as int) && input[end as int] != ' '
                && input[end as int] != '\t' && input[end as int] != '\n' && input[end as int] != '\r'
            &&& forall|k: int| pos <= k < end ==> #[trigger] left_out(language, input, pos as int, k)
        }),
    decreases input.len() - pos,
{
    let end = after_gap(language, input, pos);
    if pos < input.len() {
        let c = input[pos as int];
        if c == ' ' || c == '\t' || c == '\n' || c == '\r' {
            law_gap_is_white_space_and_comments(language, input, pos + 1);
            assert forall|k: int| pos <= k < end implies #[trigger] left_out(language, input, pos as int, k) by {
                if k > pos {
                    assert(left_out(language, input, (pos + 1) as int, k));
                }
            }
        } else if marked(language, input, pos as int) {
            law_line_ends_at_the_first_break(input, pos + 1);
            let stop = line_end(input, pos + 1);
            law_gap_is_white_space_and_comments(language, input, stop);
            assert forall|k: int| pos <= k < end implies #[trigger] left_out(language, input, pos as int, k) by {
                if k < stop {
                    assert(no_break(input, pos as int, k));
                } else {
                    assert(left_out(language, input, stop as int, k));
                }
            }
        }
    }
}

} // verus!
