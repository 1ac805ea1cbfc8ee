//! The character classes of the lexer.

use vstd::prelude::*;

verus! {

/// The code points with the Unicode property `White_Space`.
pub open spec fn spec_is_whitespace(c: char) -> bool {
    let n = c as u32;
    (0x09 <= n && n <= 0x0D) || n == 0x20 || n == 0x85 || n == 0xA0 || n == 0x1680 || (0x2000 <= n
        && n <= 0x200A) || n == 0x2028 || n == 0x2029 || n == 0x202F || n == 0x205F || n == 0x3000
}

/// The characters that the grammar keeps for itself.
pub open spec fn is_reserved(c: char) -> bool {
    c == '=' || c == '[' || c == ']' || c == '{' || c == '}' || c == '$' || c == ',' || c == '~'
        || c == '"' || c == '#'
}

/// A character that may stand anywhere in a naked string, first and last place
/// included: neither white space nor reserved.
pub open spec fn spec_is_string_border(c: char) -> bool {
    !spec_is_whitespace(c) && !is_reserved(c)
}

/// A character that may stand inside a naked string: a border character or a
/// space.
pub open spec fn spec_is_string_middle(c: char) -> bool {
    spec_is_string_border(c) || c == ' '
}

pub open spec fn spec_is_newline(c: char) -> bool {
    c == '\n'
}

#[verifier::when_used_as_spec(spec_is_whitespace)]
pub fn is_whitespace(c: char) -> (r: bool)
    ensures
        r == spec_is_whitespace(c),
{
    let n: u32 = c as u32;
    (0x09 <= n && n <= 0x0D) || n == 0x20 || n == 0x85 || n == 0xA0 || n == 0x1680 || (0x2000 <= n
        && n <= 0x200A) || n == 0x2028 || n == 0x2029 || n == 0x202F || n == 0x205F || n == 0x3000
}

#[verifier::when_used_as_spec(spec_is_string_border)]
pub fn is_string_border(c: char) -> (r: bool)
    ensures
        r == spec_is_string_border(c),
{
    !is_whitespace(c) && c != '=' && c != '[' && c != ']' && c != '{' && c != '}' && c != '$' && c
        != ',' && c != '~' && c != '"' && c != '#'
}

#[verifier::when_used_as_spec(spec_is_string_middle)]
pub fn is_string_middle(c: char) -> (r: bool)
    ensures
        r == spec_is_string_middle(c),
{
    is_string_border(c) || c == ' '
}

#[verifier::when_used_as_spec(spec_is_newline)]
pub fn is_newline(c: char) -> (r: bool)
    ensures
        r == spec_is_newline(c),
{
    c == '\n'
}

} // verus!
