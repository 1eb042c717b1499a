//! Small verified operations on text: decimal numerals, ASCII case, and
//! searching one string for another.

use vstd::prelude::*;
use vstd::string::StringExecFns;

verus! {

/// Appends one character to a string.
///
/// Calls `String::push`, which std documents as appending the character to
/// the end of the string; the contract states exactly that.
#[verifier::external_body]
pub(crate) fn push_char(text: &mut String, c: char)
    ensures
        final(text)@ == old(text)@.push(c),
{
    text.push(c)
}

/// The character of a decimal digit.
pub open spec fn digit_char(d: nat) -> char {
    if d == 0 { '0' }
    else if d == 1 { '1' }
    else if d == 2 { '2' }
    else if d == 3 { '3' }
    else if d == 4 { '4' }
    else if d == 5 { '5' }
    else if d == 6 { '6' }
    else if d == 7 { '7' }
    else if d == 8 { '8' }
    else { '9' }
}

/// The decimal numeral of `n`, without leading zeros.
pub open spec fn decimal_text(n: nat) -> Seq<char>
    decreases n,
{
    if n < 10 {
        seq![digit_char(n)]
    } else {
        decimal_text(n / 10).push(digit_char(n % 10))
    }
}

pub fn digit_of(d: u64) -> (c: char)
    requires
        d < 10,
    ensures
        c == digit_char(d as nat),
{
    if d == 0 { '0' }
    else if d == 1 { '1' }
    else if d == 2 { '2' }
    else if d == 3 { '3' }
    else if d == 4 { '4' }
    else if d == 5 { '5' }
    else if d == 6 { '6' }
    else if d == 7 { '7' }
    else if d == 8 { '8' }
    else { '9' }
}

/// Appends the decimal numeral of `n`.
pub fn append_decimal(text: &mut String, n: u64)
    ensures
        final(text)@ == old(text)@ + decimal_text(n as nat),
    decreases n,
{
    if n >= 10 {
        append_decimal(text, n / 10);
    }
    push_char(text, digit_of(n % 10));
    assert(final(text)@ =~= old(text)@ + decimal_text(n as nat)) by {
        if n >= 10 {
            assert(decimal_text(n as nat) == decimal_text((n / 10) as nat).push(
                digit_char((n % 10) as nat),
            ));
        }
    }
}

/// The decimal numeral of `n`.
pub fn decimal(n: u64) -> (text: String)
    ensures
        text@ == decimal_text(n as nat),
{
    let mut text = String::new();
    append_decimal(&mut text, n);
    assert(text@ =~= decimal_text(n as nat));
    text
}

/// A string holding `text`.
pub fn owned(text: &str) -> (s: String)
    ensures
        s@ == text@,
{
    String::from_str(text)
}

/// Appends `more` to `text`.
pub fn append(text: &mut String, more: &str)
    ensures
        final(text)@ == old(text)@ + more@,
{
    text.append(more)
}

/// The characters of a string, one by one.
pub fn chars_of(text: &str) -> (chars: Vec<char>)
    ensures
        chars@ == text@,
{
    broadcast use vstd::string::group_string_axioms;

    let mut chars: Vec<char> = Vec::new();
    for c in it: text.chars()
        invariant
            chars@ == it.seq().take(it.index()),
            it.seq() == text@,
    {
        chars.push(c);
    }
    assert(chars@ =~= text@);
    chars
}

/// A string of the given characters.
pub fn string_of(chars: &Vec<char>) -> (text: String)
    ensures
        text@ == chars@,
{
    let mut text = String::new();
    let mut i: usize = 0;
    while i < chars.len()
        invariant
            i <= chars.len(),
            text@ == chars@.subrange(0, i as int),
        decreases chars.len() - i,
    {
        push_char(&mut text, chars[i]);
        i = i + 1;
        assert(text@ =~= chars@.subrange(0, i as int));
    }
    assert(chars@.subrange(0, chars.len() as int) =~= chars@);
    text
}

/// The ASCII lowercase of a character; any other character is unchanged.
pub open spec fn ascii_lower(c: char) -> char {
    if 'A' <= c && c <= 'Z' { ((c as u32) + 32) as char } else { c }
}

/// Every character lowercased as `ascii_lower` does.
pub open spec fn ascii_lowercase(s: Seq<char>) -> Seq<char> {
    s.map_values(|c: char| ascii_lower(c))
}

/// The ASCII lowercase of a character.
pub fn lower_ascii_char(c: char) -> (lower: char)
    ensures
        lower == ascii_lower(c),
{
    if 'A' <= c && c <= 'Z' {
        let code: u8 = ((c as u32) + 32) as u8;
        code as char
    } else {
        c
    }
}

/// The characters, ASCII lowercased.
pub fn lowercase_chars(s: &Vec<char>) -> (lower: Vec<char>)
    ensures
        lower@ == ascii_lowercase(s@),
{
    let mut lower: Vec<char> = Vec::new();
    let mut i: usize = 0;
    while i < s.len()
        invariant
            i <= s.len(),
            lower@ == ascii_lowercase(s@.subrange(0, i as int)),
        decreases s.len() - i,
    {
        lower.push(lower_ascii_char(s[i]));
        i = i + 1;
        assert(lower@ =~= ascii_lowercase(s@.subrange(0, i as int)));
    }
    assert(s@.subrange(0, s.len() as int) =~= s@);
    lower
}

/// Whether `needle` occurs in `haystack` at position `at`.
pub open spec fn occurs_at(haystack: Seq<char>, needle: Seq<char>, at: int) -> bool {
    0 <= at && at + needle.len() <= haystack.len() && haystack.subrange(at, at + needle.len())
        == needle
}

/// Whether `needle` occurs anywhere in `haystack`.
pub open spec fn contains_text(haystack: Seq<char>, needle: Seq<char>) -> bool {
    exists|at: int| occurs_at(haystack, needle, at)
}

fn occurs_at_exec(haystack: &Vec<char>, needle: &Vec<char>, at: usize) -> (b: bool)
    requires
        at + needle.len() <= haystack.len(),
    ensures
        b == occurs_at(haystack@, needle@, at as int),
{
    let mut i: usize = 0;
    while i < needle.len()
        invariant
            at + needle.len() <= haystack.len(),
            i <= needle.len(),
            forall|k: int| 0 <= k < i ==> haystack@[at + k] == needle@[k],
        decreases needle.len() - i,
    {
        if haystack[at + i] != needle[i] {
            assert(haystack@.subrange(at as int, at + needle.len())[i as int] != needle@[i as int]);
            return false;
        }
        i = i + 1;
    }
    assert(haystack@.subrange(at as int, at + needle.len()) =~= needle@);
    true
}

/// Whether `needle` occurs anywhere in `haystack`.
pub fn contains_chars(haystack: &Vec<char>, needle: &Vec<char>) -> (b: bool)
    ensures
        b == contains_text(haystack@, needle@),
{
    if needle.len() > haystack.len() {
        return false;
    }
    let last = haystack.len() - needle.len();
    let mut at: usize = 0;
    loop
        invariant
            last + needle.len() == haystack.len(),
            at <= last,
            forall|k: int| 0 <= k < at ==> !occurs_at(haystack@, needle@, k),
        decreases last - at,
    {
        if occurs_at_exec(haystack, needle, at) {
            return true;
        }
        if at == last {
            return false;
        }
        at = at + 1;
    }
}

/// Whether `needle` occurs anywhere in `haystack`.
pub fn contains_str(haystack: &str, needle: &str) -> (b: bool)
    ensures
        b == contains_text(haystack@, needle@),
{
    contains_chars(&chars_of(haystack), &chars_of(needle))
}

} // verus!
