//! Text utilities.

use vstd::prelude::*;

verus! {

/// What `char::is_whitespace` answers for a character (the Unicode
/// `White_Space` property).
pub uninterp spec fn white_space(c: char) -> bool;

/// The first character of the Unicode upper-case mapping of a character.
pub uninterp spec fn upper_first(c: char) -> char;

/// The first character of the Unicode lower-case mapping of a character.
pub uninterp spec fn lower_first(c: char) -> char;

/// Relies on `char::is_whitespace`: whether `c` has the `White_Space` property.
#[verifier::external_body]
fn is_white_space(c: char) -> (r: bool)
    ensures
        r == white_space(c),
{
    c.is_whitespace()
}

/// Relies on `char::to_uppercase`: its first character (the mapping is never empty).
#[verifier::external_body]
fn to_upper_first(c: char) -> (r: char)
    ensures
        r == upper_first(c),
{
    c.to_uppercase().next().unwrap_or(c)
}

/// Relies on `char::to_lowercase`: its first character (the mapping is never empty).
#[verifier::external_body]
fn to_lower_first(c: char) -> (r: char)
    ensures
        r == lower_first(c),
{
    c.to_lowercase().next().unwrap_or(c)
}

/// Relies on `String::push`: appends one character.
#[verifier::external_body]
pub(crate) fn push_char(s: &mut String, c: char)
    ensures
        final(s)@ == old(s)@.push(c),
{
    s.push(c)
}

/// The character at position `i` of `title_case(s)`: whitespace is kept, the
/// first character of each word is upper-cased and the rest lower-cased.
pub open spec fn title_char(s: Seq<char>, i: int) -> char {
    if white_space(s[i]) {
        s[i]
    } else if i == 0 || white_space(s[i - 1]) {
        upper_first(s[i])
    } else {
        lower_first(s[i])
    }
}

/// Title-cases a string word by word, words being separated by whitespace.
pub fn title_case(s: &str) -> (r: String)
    ensures
        r@.len() == s@.len(),
        forall|i: int| 0 <= i < s@.len() ==> r@[i] == title_char(s@, i),
{
    let mut result = String::new();
    let mut capitalize_next = true;
    let n = s.unicode_len();
    let mut i: usize = 0;
    while i < n
        invariant
            n == s@.len(),
            0 <= i <= n,
            result@.len() == i,
            forall|j: int| 0 <= j < i ==> result@[j] == title_char(s@, j),
            capitalize_next == (i == 0 || white_space(s@[i - 1])),
        decreases n - i,
    {
        let c = s.get_char(i);
        if is_white_space(c) {
            capitalize_next = true;
            push_char(&mut result, c);
        } else if capitalize_next {
            push_char(&mut result, to_upper_first(c));
            capitalize_next = false;
        } else {
            push_char(&mut result, to_lower_first(c));
        }
        i = i + 1;
    }
    result
}

/// True when the option is `None` or holds an empty vector.
pub fn is_none_or_empty<T>(option: &Option<Vec<T>>) -> (r: bool)
    ensures
        r == match option {
            None => true,
            Some(v) => v@.len() == 0,
        },
{
    match option {
        None => true,
        Some(vec) => vec.len() == 0,
    }
}

} // verus!
