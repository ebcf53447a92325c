//! Texts in capitals, and places in a text counted in bytes.
use vstd::prelude::*;

use crate::parser::peg::{text_at, upper};
use crate::text::to_chars;

verus! {

/// What `str::to_uppercase` makes of a text.
pub uninterp spec fn uppercased(text: Seq<char>) -> Seq<char>;

/// A text of ASCII characters alone.
pub open spec fn is_ascii_text(text: Seq<char>) -> bool {
    forall|i: int| 0 <= i < text.len() ==> (#[trigger] text[i]) as u32 <= 0x7f
}

/// The ASCII capitals of a text.
pub open spec fn ascii_capitals(text: Seq<char>) -> Seq<char> {
    text.map_values(|c: char| upper(c))
}

/// Calls `str::to_uppercase`. Claims that the result is a function of the text,
/// and that in a text of ASCII characters the letters `a` to `z` become `A` to
/// `Z` and nothing else changes.
#[verifier::external_body]
pub(crate) fn uppercase(text: &str) -> (r: String)
    ensures
        r@ == uppercased(text@),
        is_ascii_text(text@) ==> r@ == ascii_capitals(text@),
{
    text.to_uppercase()
}

/// A text in capitals.
pub open spec fn capitals(text: Seq<char>) -> Seq<char> {
    if is_ascii_text(text) {
        ascii_capitals(text)
    } else {
        uppercased(text)
    }
}

/// The bytes of a character in UTF-8.
pub open spec fn width(c: char) -> nat {
    let u = c as u32;
    if u < 0x80 {
        1
    } else if u < 0x800 {
        2
    } else if u < 0x10000 {
        3
    } else {
        4
    }
}

/// The bytes of a text in UTF-8.
pub open spec fn bytes_in(text: Seq<char>) -> nat
    decreases text.len(),
{
    if text.len() == 0 {
        0
    } else {
        bytes_in(text.drop_last()) + width(text.last())
    }
}

/// How many characters stand in the first `n` bytes of a text, unless these end
/// within a character or behind the text.
pub open spec fn chars_in_bytes(text: Seq<char>, n: nat) -> Option<int>
    decreases text.len(),
{
    if bytes_in(text) == n {
        Some(text.len() as int)
    } else if text.len() == 0 {
        None
    } else {
        chars_in_bytes(text.drop_last(), n)
    }
}

/// The part of a text from one byte to another, unless these are no ends of
/// characters of it in this order.
pub open spec fn byte_slice(text: Seq<char>, start: nat, end: nat) -> Option<Seq<char>> {
    match (chars_in_bytes(text, start), chars_in_bytes(text, end)) {
        (Some(i), Some(j)) => if i <= j {
            Some(text.subrange(i, j))
        } else {
            None
        },
        _ => None,
    }
}

proof fn lemma_bytes_grow(text: Seq<char>, i: int)
    requires
        0 <= i < text.len(),
    ensures
        bytes_in(text.take(i + 1)) == bytes_in(text.take(i)) + width(text[i]),
{
    assert(text.take(i + 1).drop_last() =~= text.take(i));
    assert(text.take(i + 1).last() == text[i]);
}

proof fn lemma_bytes_ascend(text: Seq<char>, i: int, j: int)
    requires
        0 <= i <= j <= text.len(),
    ensures
        bytes_in(text.take(i)) + (j - i) <= bytes_in(text.take(j)),
    decreases j - i,
{
    if i < j {
        lemma_bytes_ascend(text, i, j - 1);
        lemma_bytes_grow(text, j - 1);
    }
}

/// Cutting off what ends behind the bytes changes nothing.
proof fn lemma_chars_of_part(text: Seq<char>, n: nat, i: int)
    requires
        0 <= i <= text.len(),
        i < text.len() ==> bytes_in(text.take(i + 1)) > n,
    ensures
        chars_in_bytes(text, n) == chars_in_bytes(text.take(i), n),
    decreases text.len(),
{
    if i < text.len() {
        lemma_bytes_ascend(text, i + 1, text.len() as int);
        assert(text.take(text.len() as int) =~= text);
        let front = text.drop_last();
        assert(front.take(i) =~= text.take(i));
        if i < front.len() {
            assert(front.take(i + 1) =~= text.take(i + 1));
        }
        lemma_chars_of_part(front, n, i);
    } else {
        assert(text.take(i) =~= text);
    }
}

fn width_of(c: char) -> (r: u128)
    ensures
        r == width(c),
{
    let u: u32 = c as u32;
    if u < 0x80 {
        1
    } else if u < 0x800 {
        2
    } else if u < 0x10000 {
        3
    } else {
        4
    }
}

/// The bytes of the first characters of a text.
pub fn count_bytes(text: &Vec<char>, to: usize) -> (r: u128)
    requires
        to <= text@.len(),
    ensures
        r == bytes_in(text@.take(to as int)),
        r <= 4 * to,
{
    let mut r: u128 = 0;
    let mut i: usize = 0;
    while i < to
        invariant
            i <= to <= text@.len(),
            r == bytes_in(text@.take(i as int)),
            r <= 4 * i,
        decreases to - i,
    {
        proof {
            lemma_bytes_grow(text@, i as int);
        }
        r = r + width_of(text[i]);
        i += 1;
    }
    r
}

/// How many characters stand in the first bytes of a text.
pub fn count_chars(text: &Vec<char>, n: u128) -> (r: Option<usize>)
    ensures
        match chars_in_bytes(text@, n as nat) {
            None => r is None,
            Some(i) => r is Some && r->0 == i && 0 <= i <= text@.len(),
        },
{
    let mut sum: u128 = 0;
    let mut i: usize = 0;
    while i < text.len() && sum < n
        invariant
            i <= text@.len(),
            sum == bytes_in(text@.take(i as int)),
            sum <= 4 * i,
            i > 0 ==> bytes_in(text@.take(i - 1)) < n,
        decreases text@.len() - i,
    {
        proof {
            lemma_bytes_grow(text@, i as int);
            assert(text@.take(i + 1 - 1) =~= text@.take(i as int));
        }
        sum = sum + width_of(text[i]);
        i += 1;
    }
    proof {
        let part = text@.take(i as int);
        if i < text@.len() {
            lemma_bytes_grow(text@, i as int);
        }
        if sum >= n {
            lemma_chars_of_part(text@, n as nat, i as int);
        } else {
            assert(part =~= text@);
        }
        if sum != n {
            lemma_none_between(text@, n as nat, i as int);
        }
    }
    if sum == n {
        Some(i)
    } else {
        None
    }
}

/// Bytes that end behind one character and before the end of the next, or
/// behind the text, end within none.
proof fn lemma_none_between(text: Seq<char>, n: nat, i: int)
    requires
        0 <= i <= text.len(),
        i > 0 ==> bytes_in(text.take(i - 1)) < n,
        bytes_in(text.take(i)) != n,
        i < text.len() ==> bytes_in(text.take(i)) > n,
    ensures
        chars_in_bytes(text, n) is None,
    decreases text.len(),
{
    if i < text.len() {
        lemma_bytes_grow(text, i);
        lemma_chars_of_part(text, n, i);
        if i > 0 {
            assert(text.take(i).take(i - 1) =~= text.take(i - 1));
        }
        lemma_none_in(text.take(i), n, i);
    } else {
        assert(text.take(i) =~= text);
        lemma_none_in(text, n, i);
    }
}

proof fn lemma_none_in(text: Seq<char>, n: nat, i: int)
    requires
        i == text.len(),
        i > 0 ==> bytes_in(text.take(i - 1)) < n || bytes_in(text) < n,
        bytes_in(text) != n,
    ensures
        chars_in_bytes(text, n) is None,
    decreases text.len(),
{
    if i > 0 {
        let front = text.drop_last();
        assert(front =~= text.take(i - 1));
        lemma_bytes_ascend(text, i - 1, i);
        assert(text.take(i) =~= text);
        lemma_none_in(front, n, i - 1);
    }
}

/// Does a text stand at a position?
pub fn is_at(s: &Vec<char>, at: usize, t: &str) -> (r: bool)
    requires
        at <= s@.len(),
    ensures
        r == text_at(s@, at as int, t@),
{
    let mut p: usize = at;
    for c in iter: t.chars()
        invariant
            iter.seq() == t@,
            iter.index() <= t@.len(),
            at <= p <= s@.len(),
            p == at + iter.index(),
            forall|i: int| 0 <= i < iter.index() ==> s@[at + i] == #[trigger] t@[i],
    {
        let ghost k = iter.index();
        if p >= s.len() || s[p] != c {
            proof {
                if text_at(s@, at as int, t@) {
                    assert(s@.subrange(at as int, at + t@.len())[k] == s@[at + k]);
                }
            }
            return false;
        }
        p += 1;
    }
    assert(s@.subrange(at as int, at + t@.len()) =~= t@);
    true
}

/// A text has another in it.
pub open spec fn has_within(s: Seq<char>, t: Seq<char>) -> bool {
    exists|p: int| 0 <= p <= s.len() && #[trigger] text_at(s, p, t)
}

pub fn is_within(s: &str, t: &str) -> (r: bool)
    ensures
        r == has_within(s@, t@),
{
    let chars = to_chars(s);
    let mut p: usize = 0;
    while p < chars.len()
        invariant
            chars@ == s@,
            p <= chars@.len(),
            forall|q: int| 0 <= q < p ==> !#[trigger] text_at(chars@, q, t@),
        decreases chars@.len() - p,
    {
        if is_at(&chars, p, t) {
            return true;
        }
        p += 1;
    }
    is_at(&chars, p, t)
}

} // verus!
