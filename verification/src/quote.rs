//! How the printer writes a string: unquoted, or between quotes and braces.

use vstd::prelude::*;
use crate::chars::{is_string_border, spec_is_string_border};
use crate::text::to_chars;

verus! {

/// The form in which a string is written.
#[derive(Debug, Clone, Copy, PartialEq, Eq, Structural)]
pub enum StringQuoteType {
    /// As it is, without quotes.
    Naked,
    /// Between double quotes, with this many braces on either side.
    Quoted(usize),
}

/// Whether the character at `i` may stand in an unquoted string: no backslash,
/// and either a border character or a single space between two border
/// characters.
pub open spec fn naked_at(s: Seq<char>, i: int) -> bool {
    &&& s[i] != '\\'
    &&& (is_string_border(s[i]) || (s[i] == ' ' && 0 < i && i + 1 < s.len() && is_string_border(
        s[i - 1],
    ) && is_string_border(s[i + 1])))
}

/// The strings that the lexer reads back unchanged when they stand unquoted.
pub open spec fn is_naked(s: Seq<char>) -> bool {
    &&& s.len() > 0
    &&& forall|i: int| 0 <= i < s.len() ==> naked_at(s, i)
}

/// The number of `}` that stand in a row from index `i` on.
pub open spec fn brace_run(s: Seq<char>, i: int) -> nat
    decreases s.len() - i,
{
    if 0 <= i < s.len() && s[i] == '}' {
        1 + brace_run(s, i + 1)
    } else {
        0
    }
}

/// The longest run of `}` that directly follows a `"` at index `i` or later.
pub open spec fn longest_run_from(s: Seq<char>, i: int) -> nat
    decreases s.len() - i,
{
    if 0 <= i < s.len() {
        let here = if s[i] == '"' {
            brace_run(s, i + 1)
        } else {
            0
        };
        let rest = longest_run_from(s, i + 1);
        if here >= rest {
            here
        } else {
            rest
        }
    } else {
        0
    }
}

/// The number of braces on either side of a quoted string: one more than
/// the longest run of `}` that directly follows a `"` in the string, where
/// that run counts for two at the least. No `"` inside the string is then
/// followed by as many `}` as close the string.
pub open spec fn quote_braces(s: Seq<char>) -> nat {
    let l = longest_run_from(s, 0);
    (if l >= 2 {
        l
    } else {
        2
    }) + 1
}

/// The form in which the printer writes `s`.
pub open spec fn quote_type(s: Seq<char>) -> StringQuoteType {
    if is_naked(s) {
        StringQuoteType::Naked
    } else {
        StringQuoteType::Quoted(quote_braces(s) as usize)
    }
}

pub proof fn lemma_brace_run_bound(s: Seq<char>, i: int)
    requires
        0 <= i <= s.len(),
    ensures
        brace_run(s, i) <= s.len() - i,
    decreases s.len() - i,
{
    if i < s.len() && s[i] == '}' {
        lemma_brace_run_bound(s, i + 1);
    }
}

pub proof fn lemma_longest_run_bound(s: Seq<char>, i: int)
    requires
        0 <= i <= s.len(),
    ensures
        longest_run_from(s, i) + 1 <= s.len() - i || longest_run_from(s, i) == 0,
    decreases s.len() - i,
{
    if i < s.len() {
        lemma_longest_run_bound(s, i + 1);
        lemma_brace_run_bound(s, i + 1);
    }
}

/// The form in which the printer writes the characters `chars`.
pub fn quote_type_of(chars: &Vec<char>) -> (r: StringQuoteType)
    ensures
        r == quote_type(chars@),
        r matches StringQuoteType::Quoted(n) ==> n == quote_braces(chars@),
{
    let n: usize = chars.len();
    let ghost s = chars@;
    let mut i: usize = n;
    let mut run: usize = 0;
    let mut longest: usize = 0;
    let mut naked = true;
    while i > 0
        invariant
            i <= n,
            n == s.len(),
            s == chars@,
            run == brace_run(s, i as int),
            longest == longest_run_from(s, i as int),
            naked == (forall|j: int| i <= j < n ==> naked_at(s, j)),
        decreases i,
    {
        proof {
            lemma_brace_run_bound(s, i as int);
            lemma_longest_run_bound(s, i as int);
        }
        i -= 1;
        let c = chars[i];
        let ok = c != '\\' && (is_string_border(c) || (c == ' ' && 0 < i && i + 1 < n
            && is_string_border(chars[i - 1]) && is_string_border(chars[i + 1])));
        assert(ok == naked_at(s, i as int));
        naked = naked && ok;
        if c == '"' && run > longest {
            longest = run;
        }
        if c == '}' {
            run = run + 1;
        } else {
            run = 0;
        }
    }
    if n > 0 && naked {
        StringQuoteType::Naked
    } else {
        proof {
            lemma_longest_run_bound(s, 0);
        }
        if longest >= 2 {
            StringQuoteType::Quoted(longest + 1)
        } else {
            StringQuoteType::Quoted(3)
        }
    }
}

/// The form in which the printer writes `s`: unquoted where the lexer reads
/// that back as one string equal to `s`, else quoted with `quote_braces(s)`
/// braces, enough that nothing inside `s` ends the string early.
pub fn get_string_quote_type(s: &str) -> (r: StringQuoteType)
    ensures
        r == quote_type(s@),
        r matches StringQuoteType::Quoted(n) ==> n == quote_braces(s@),
{
    let chars = to_chars(s);
    quote_type_of(&chars)
}

} // verus!
