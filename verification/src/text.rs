//! Strings as sequences of characters.
use vstd::prelude::*;

verus! {

/// Appends a character to a string, as the documentation of `String::push`
/// says.
pub assume_specification[ std::string::String::push ](s: &mut std::string::String, c: char)
    ensures
        final(s)@ == old(s)@.push(c),
;

/// The characters of a string.
pub fn to_chars(s: &str) -> (r: Vec<char>)
    ensures
        r@ == s@,
{
    let mut r: Vec<char> = Vec::new();
    for c in iter: s.chars()
        invariant
            iter.seq() == s@,
            r@ == s@.take(iter.index()),
            iter.index() <= s@.len(),
    {
        let ghost i = iter.index();
        r.push(c);
        assert(r@ =~= s@.take(i + 1));
    }
    assert(s@.take(s@.len() as int) =~= s@);
    r
}

/// The string of a part of a sequence of characters.
pub fn slice_text(chars: &[char], from: usize, to: usize) -> (r: String)
    requires
        from <= to <= chars@.len(),
    ensures
        r@ == chars@.subrange(from as int, to as int),
{
    let mut r = String::new();
    let mut i: usize = from;
    assert(r@ =~= chars@.subrange(from as int, from as int));
    while i < to
        invariant
            from <= i <= to <= chars@.len(),
            r@ == chars@.subrange(from as int, i as int),
        decreases to - i,
    {
        r.push(chars[i]);
        assert(r@ =~= chars@.subrange(from as int, i + 1));
        i += 1;
    }
    r
}

/// Appends a string to another.
pub fn append_text(s: &mut String, more: &str)
    ensures
        final(s)@ == old(s)@ + more@,
{
    s.append(more);
}

/// The digit for a number below ten.
pub open spec fn digit(n: nat) -> char {
    (('0' as u32) + n) as char
}

/// A number in decimal digits.
pub open spec fn decimal_digits(n: nat) -> Seq<char>
    decreases n,
{
    if n < 10 {
        seq![digit(n)]
    } else {
        decimal_digits(n / 10).push(digit(n % 10))
    }
}

/// A number as text.
pub open spec fn decimal_text(n: int) -> Seq<char> {
    if n < 0 {
        seq!['-'] + decimal_digits((-n) as nat)
    } else {
        decimal_digits(n as nat)
    }
}

fn digit_char(n: u64) -> (r: char)
    requires
        n < 10,
    ensures
        r == digit(n as nat),
{
    match n {
        0 => '0',
        1 => '1',
        2 => '2',
        3 => '3',
        4 => '4',
        5 => '5',
        6 => '6',
        7 => '7',
        8 => '8',
        _ => '9',
    }
}

fn push_digits(s: &mut String, n: u64)
    ensures
        final(s)@ == old(s)@ + decimal_digits(n as nat),
    decreases n,
{
    let ghost before = s@;
    if n < 10 {
        s.push(digit_char(n));
        assert(s@ =~= before + decimal_digits(n as nat));
    } else {
        push_digits(s, n / 10);
        s.push(digit_char(n % 10));
        assert(s@ =~= before + decimal_digits(n as nat));
    }
}

/// Writes a number that is not negative in decimal.
pub fn digits(n: u64) -> (r: String)
    ensures
        r@ == decimal_digits(n as nat),
{
    let mut s = String::new();
    push_digits(&mut s, n);
    assert(s@ =~= decimal_digits(n as nat));
    s
}

/// The characters are decimal digits, at least one.
pub open spec fn is_number(s: Seq<char>) -> bool {
    s.len() > 0 && forall|i: int| 0 <= i < s.len() ==> '0' <= #[trigger] s[i] && s[i] <= '9'
}

/// The number that decimal digits stand for.
pub open spec fn number_value(s: Seq<char>) -> nat
    decreases s.len(),
{
    if s.len() == 0 {
        0
    } else {
        number_value(s.drop_last()) * 10 + (s.last() as u32 - '0' as u32) as nat
    }
}

/// The number that a text stands for, where it is one and not over a limit.
pub open spec fn number_upto(s: Seq<char>, limit: nat) -> Option<nat> {
    if is_number(s) && number_value(s) <= limit {
        Some(number_value(s))
    } else {
        None
    }
}

proof fn lemma_number_grows(s: Seq<char>, i: int)
    requires
        is_number(s),
        0 <= i <= s.len(),
    ensures
        number_value(s.take(i)) <= number_value(s),
    decreases s.len() - i,
{
    if i < s.len() {
        lemma_number_grows(s, i + 1);
        assert(s.take(i + 1).drop_last() =~= s.take(i));
        assert('0' <= s[i] && s[i] <= '9');
    } else {
        assert(s.take(i) =~= s);
    }
}

/// Reads a number in decimal digits.
pub fn read_number(s: &str, limit: u64) -> (r: Option<u64>)
    ensures
        match number_upto(s@, limit as nat) {
            Some(n) => r is Some && r->0 == n,
            None => r is None,
        },
{
    let mut value: u64 = 0;
    let mut any = false;
    for c in iter: s.chars()
        invariant
            iter.seq() == s@,
            iter.index() <= s@.len(),
            any == (iter.index() > 0),
            value == number_value(s@.take(iter.index())),
            value <= limit,
            forall|i: int| 0 <= i < iter.index() ==> '0' <= #[trigger] s@[i] && s@[i] <= '9',
    {
        let ghost k = iter.index();
        if c < '0' || c > '9' {
            assert(!('0' <= s@[k] && s@[k] <= '9'));
            return None;
        }
        let d: u64 = (c as u32 - '0' as u32) as u64;
        proof {
            assert(s@.take(k + 1).drop_last() =~= s@.take(k));
            assert(number_value(s@.take(k + 1)) == value * 10 + d);
        }
        let more: u128 = value as u128 * 10 + d as u128;
        if more > limit as u128 {
            proof {
                if is_number(s@) {
                    lemma_number_grows(s@, k + 1);
                }
            }
            return None;
        }
        value = more as u64;
        any = true;
    }
    assert(s@.take(s@.len() as int) =~= s@);
    if any {
        Some(value)
    } else {
        None
    }
}

/// Writes a number in decimal.
pub fn decimal(n: i64) -> (r: String)
    ensures
        r@ == decimal_text(n as int),
{
    let mut s = String::new();
    if n < 0 {
        s.push('-');
        let m: u64 = (-(n + 1)) as u64 + 1;
        push_digits(&mut s, m);
        assert(s@ =~= decimal_text(n as int));
    } else {
        push_digits(&mut s, n as u64);
        assert(s@ =~= decimal_text(n as int));
    }
    s
}

/// Texts one behind the other, with a separator between them.
pub open spec fn joined(parts: Seq<Seq<char>>, separator: Seq<char>) -> Seq<char>
    decreases parts.len(),
{
    if parts.len() == 0 {
        Seq::empty()
    } else if parts.len() == 1 {
        parts[0]
    } else {
        joined(parts.drop_last(), separator) + separator + parts.last()
    }
}

pub fn join_texts(parts: &Vec<String>, separator: &str) -> (r: String)
    ensures
        r@ == joined(parts@.map_values(crate::names::text()), separator@),
{
    let ghost texts = parts@.map_values(crate::names::text());
    let mut r = String::new();
    let mut i: usize = 0;
    assert(r@ =~= joined(texts.take(0), separator@));
    while i < parts.len()
        invariant
            texts == parts@.map_values(crate::names::text()),
            i <= parts@.len(),
            r@ == joined(texts.take(i as int), separator@),
        decreases parts@.len() - i,
    {
        if i > 0 {
            r.append(separator);
        }
        r.append(parts[i].as_str());
        proof {
            assert(texts.take(i + 1).drop_last() =~= texts.take(i as int));
            assert(texts.take(i + 1).last() == parts@[i as int]@);
            if i == 0 {
                assert(texts.take(i as int) =~= Seq::empty());
                assert(r@ =~= parts@[0]@);
            }
        }
        i += 1;
    }
    assert(texts.take(i as int) =~= texts);
    r
}

/// White space, as Unicode has it.
pub open spec fn is_white_space(c: char) -> bool {
    let u = c as u32;
    ||| 0x9 <= u <= 0xD
    ||| u == 0x20
    ||| u == 0x85
    ||| u == 0xA0
    ||| u == 0x1680
    ||| 0x2000 <= u <= 0x200A
    ||| u == 0x2028
    ||| u == 0x2029
    ||| u == 0x202F
    ||| u == 0x205F
    ||| u == 0x3000
}

pub fn white_space(c: char) -> (r: bool)
    ensures
        r == is_white_space(c),
{
    let u: u32 = c as u32;
    (0x9 <= u && u <= 0xD) || u == 0x20 || u == 0x85 || u == 0xA0 || u == 0x1680 || (0x2000 <= u && u <= 0x200A) || u
        == 0x2028 || u == 0x2029 || u == 0x202F || u == 0x205F || u == 0x3000
}

} // verus!
