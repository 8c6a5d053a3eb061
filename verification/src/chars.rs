//! Character classification and small string utilities.
//!
//! The matchers decide on characters through Unicode predicates of std.
//! Those predicates are pure functions of the character alone, so each is
//! given a name here, and a thin trusted wrapper ties the name to the std
//! call. Everything downstream speaks only of the names.

use vstd::prelude::*;

verus! {

/// Whether `c` is alphabetic in the sense of `char::is_alphabetic`.
pub uninterp spec fn is_alpha(c: char) -> bool;

/// Whether `c` is numeric in the sense of `char::is_numeric`.
pub uninterp spec fn is_num(c: char) -> bool;

/// Whether `c` is whitespace in the sense of `char::is_whitespace`.
pub uninterp spec fn is_space(c: char) -> bool;

/// Relies on `char::is_alphabetic`: the result depends on the character alone.
#[verifier::external_body]
pub fn char_is_alphabetic(c: char) -> (r: bool)
    ensures
        r == is_alpha(c),
{
    c.is_alphabetic()
}

/// Relies on `char::is_numeric`: the result depends on the character alone.
#[verifier::external_body]
pub fn char_is_numeric(c: char) -> (r: bool)
    ensures
        r == is_num(c),
{
    c.is_numeric()
}

/// Relies on `char::is_whitespace`: the result depends on the character alone.
#[verifier::external_body]
pub fn char_is_whitespace(c: char) -> (r: bool)
    ensures
        r == is_space(c),
{
    c.is_whitespace()
}

/// Relies on `char::is_alphanumeric`, which std documents as true exactly
/// when the character is alphabetic or numeric.
#[verifier::external_body]
pub fn char_is_alphanumeric(c: char) -> (r: bool)
    ensures
        r == (is_alpha(c) || is_num(c)),
{
    c.is_alphanumeric()
}

/// Relies on `String::push`: appends one character at the end.
#[verifier::external_body]
pub fn string_push(s: &mut String, c: char)
    ensures
        final(s)@ == old(s)@.push(c),
{
    s.push(c)
}

/// Relies on `str::chars`: yields the characters of the string in order.
#[verifier::external_body]
pub fn str_chars(s: &str) -> (v: Vec<char>)
    ensures
        v@ == s@,
{
    s.chars().collect()
}

/// The characters of a string, in order.
pub fn string_chars(s: &String) -> (v: Vec<char>)
    ensures
        v@ == s@,
{
    str_chars(s.as_str())
}

/// The text of the unresolvable-token report for a position and character;
/// a fixed function of the values alone.
pub uninterp spec fn unresolved_note(line: int, column: int, c: Option<char>) -> Seq<char>;

/// Relies on `format!`: renders the position and the offending character
/// into the unresolvable-token report.
#[verifier::external_body]
pub fn unresolved_message(line: usize, column: usize, c: Option<char>) -> (s: String)
    ensures
        s@ == unresolved_note(line as int, column as int, c),
{
    format!("Could not resolve token at {}, {}: '{:?}'.", line, column, c)
}

/// The text of the buffer-overflow report for a position and character; a
/// fixed function of the values alone.
pub uninterp spec fn overflow_note(line: int, column: int, c: char) -> Seq<char>;

/// Relies on `format!`: renders the position and the character that did
/// not fit into the buffer-overflow report.
#[verifier::external_body]
pub fn overflow_message(line: usize, column: usize, c: char) -> (s: String)
    ensures
        s@ == overflow_note(line as int, column as int, c),
{
    format!("Ran out of buffer space at {}, {}: '{}'.", line, column, c)
}

/// Copies the first `n` characters of `cs` into a fresh string.
pub fn collect_prefix(cs: &[char], n: usize) -> (s: String)
    requires
        n <= cs@.len(),
    ensures
        s@ == cs@.take(n as int),
{
    let mut s = String::new();
    let mut i: usize = 0;
    while i < n
        invariant
            i <= n,
            n <= cs@.len(),
            s@ == cs@.take(i as int),
        decreases n - i,
    {
        let c = cs[i];
        string_push(&mut s, c);
        proof {
            assert(cs@.take((i + 1) as int) == cs@.take(i as int).push(c));
        }
        i = i + 1;
    }
    s
}

} // verus!
