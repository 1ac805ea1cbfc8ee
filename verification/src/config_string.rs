//! Strings as the lexer hands them on: the text between the delimiters, to be
//! decoded only when it is used.

use vstd::prelude::*;
use vstd::std_specs::cmp::PartialEqSpecImpl;
use crate::lexer::{Token, TokenKind, TokenKindView, TokenView};
use crate::span::Span;
use crate::text::{char_from_u32, push_char, push_chars, to_chars};

verus! {

/// What stands for a sequence that cannot be decoded.
pub open spec fn replacement() -> char {
    '\u{FFFD}'
}

/// The value of one hexadecimal digit.
pub open spec fn hex_digit(c: char) -> Option<nat> {
    if '0' <= c && c <= '9' {
        Some((c as u32 - '0' as u32) as nat)
    } else if 'a' <= c && c <= 'f' {
        Some((c as u32 - 'a' as u32 + 10) as nat)
    } else if 'A' <= c && c <= 'F' {
        Some((c as u32 - 'A' as u32 + 10) as nat)
    } else {
        None
    }
}

/// The number that the digits of `s` spell in base 16, most significant first;
/// nothing where a character is no hexadecimal digit.
pub open spec fn hex_digits(s: Seq<char>) -> Option<nat>
    decreases s.len(),
{
    if s.len() == 0 {
        Some(0)
    } else {
        match (hex_digits(s.drop_last()), hex_digit(s.last())) {
            (Some(a), Some(d)) => Some(16 * a + d),
            _ => None,
        }
    }
}

/// Whether `n` is the code of a character: not a surrogate and not beyond
/// `0x10FFFF`.
pub open spec fn is_scalar_value(n: nat) -> bool {
    n < 0xD800 || (0xE000 <= n && n <= 0x10FFFF)
}

/// The character whose code the hexadecimal digits `s` spell; the replacement
/// character where `s` is empty, holds anything but hexadecimal digits, or
/// spells no character's code.
pub open spec fn spec_hex_to_char(s: Seq<char>) -> char {
    match hex_digits(s) {
        Some(n) => if s.len() > 0 && is_scalar_value(n) {
            (n as u32) as char
        } else {
            replacement()
        },
        None => replacement(),
    }
}

/// The character that a backslash and `c` stand for.
pub open spec fn simple_escape(c: char) -> char {
    if c == 'n' {
        '\n'
    } else if c == 'r' {
        '\r'
    } else if c == 't' {
        '\t'
    } else if c == '0' {
        '\0'
    } else if c == '\\' {
        '\\'
    } else {
        replacement()
    }
}

/// Where the escape sequence that starts with the backslash at `i` ends:
/// `\u` takes up to four more characters, `\U` up to eight, any other escape
/// one; a backslash at the very end stands alone.
pub open spec fn escape_end(s: Seq<char>, i: int) -> int {
    if i + 1 >= s.len() {
        i + 1
    } else if s[i + 1] == 'u' {
        if i + 6 <= s.len() {
            i + 6
        } else {
            s.len() as int
        }
    } else if s[i + 1] == 'U' {
        if i + 10 <= s.len() {
            i + 10
        } else {
            s.len() as int
        }
    } else {
        i + 2
    }
}

/// What the escape sequence that starts with the backslash at `i` decodes to.
pub open spec fn escape_value(s: Seq<char>, i: int) -> Seq<char> {
    if i + 1 >= s.len() {
        Seq::empty()
    } else if s[i + 1] == 'u' || s[i + 1] == 'U' {
        seq![spec_hex_to_char(s.subrange(i + 2, escape_end(s, i)))]
    } else {
        seq![simple_escape(s[i + 1])]
    }
}

/// The decoded text of `s` from index `i` on.
pub open spec fn unescape_from(s: Seq<char>, i: int) -> Seq<char>
    decreases s.len() - i,
{
    if i < 0 || i >= s.len() {
        Seq::empty()
    } else if s[i] != '\\' {
        seq![s[i]] + unescape_from(s, i + 1)
    } else {
        escape_value(s, i) + unescape_from(s, escape_end(s, i))
    }
}

/// The text that an escaped string stands for: `\n`, `\r`, `\t`, `\0` and `\\`
/// stand for one character each, `\uXXXX` and `\UXXXXXXXX` for the character
/// with that hexadecimal code, and any other or malformed escape for the
/// replacement character.
pub open spec fn unescape(s: Seq<char>) -> Seq<char> {
    unescape_from(s, 0)
}

/// The model of a `ConfigString`.
pub struct ConfigStringView {
    /// Whether the text is taken as it stands.
    pub raw: bool,
    /// The text between the delimiters.
    pub content: Seq<char>,
    pub span: Span,
}

impl ConfigStringView {
    /// The text that the string stands for.
    pub open spec fn decoded(self) -> Seq<char> {
        if self.raw {
            self.content
        } else {
            unescape(self.content)
        }
    }
}

/// The two ways in which a string's text is to be read.
#[derive(Debug)]
pub enum StringKind {
    /// Backslash escapes are to be decoded.
    EscapedString(String),
    /// The text stands for itself.
    RawString(String),
}

/// A string of the source together with the place where it stood.
#[derive(Debug)]
pub struct ConfigString {
    pub kind: StringKind,
    pub span: Span,
}

impl PartialEq for StringKind {
    fn eq(&self, other: &StringKind) -> (r: bool) {
        match (self, other) {
            (StringKind::EscapedString(a), StringKind::EscapedString(b)) => *a == *b,
            (StringKind::RawString(a), StringKind::RawString(b)) => *a == *b,
            _ => false,
        }
    }
}

impl PartialEqSpecImpl for StringKind {
    open spec fn obeys_eq_spec() -> bool {
        true
    }

    /// Two kinds are equal where they read alike and hold the same text.
    open spec fn eq_spec(&self, other: &StringKind) -> bool {
        self.is_raw() == other.is_raw() && self.content() == other.content()
    }
}

impl Clone for StringKind {
    fn clone(&self) -> (r: StringKind)
        ensures
            r == *self,
    {
        match self {
            StringKind::EscapedString(s) => StringKind::EscapedString(s.clone()),
            StringKind::RawString(s) => StringKind::RawString(s.clone()),
        }
    }
}

impl Clone for ConfigString {
    fn clone(&self) -> (r: ConfigString)
        ensures
            r == *self,
    {
        ConfigString { kind: self.kind.clone(), span: self.span }
    }
}

impl StringKind {
    pub open spec fn is_raw(self) -> bool {
        self is RawString
    }

    pub open spec fn content(self) -> Seq<char> {
        match self {
            StringKind::EscapedString(s) => s@,
            StringKind::RawString(s) => s@,
        }
    }
}

impl View for ConfigString {
    type V = ConfigStringView;

    open spec fn view(&self) -> ConfigStringView {
        ConfigStringView { raw: self.kind.is_raw(), content: self.kind.content(), span: self.span }
    }
}

fn hex_digit_value(c: char) -> (r: Option<u32>)
    ensures
        match r {
            Some(d) => hex_digit(c) == Some(d as nat) && d < 16,
            None => hex_digit(c) is None,
        },
{
    if '0' <= c && c <= '9' {
        Some(c as u32 - '0' as u32)
    } else if 'a' <= c && c <= 'f' {
        Some(c as u32 - 'a' as u32 + 10)
    } else if 'A' <= c && c <= 'F' {
        Some(c as u32 - 'A' as u32 + 10)
    } else {
        None
    }
}

/// The character that the hexadecimal digits `chars[from..to]` spell.
fn hex_run_to_char(chars: &Vec<char>, from: usize, to: usize) -> (r: char)
    requires
        from <= to <= chars@.len(),
    ensures
        r == spec_hex_to_char(chars@.subrange(from as int, to as int)),
{
    let ghost run = chars@.subrange(from as int, to as int);
    let mut acc: u32 = 0;
    let mut i: usize = from;
    // Whether the digits read so far are all hexadecimal, and whether their
    // value has left the range of character codes for good.
    let mut ok = true;
    let mut beyond = false;
    while i < to
        invariant
            from <= i <= to <= chars@.len(),
            run == chars@.subrange(from as int, to as int),
            ok == (hex_digits(run.take(i - from)) is Some),
            ok && !beyond ==> hex_digits(run.take(i - from)) == Some(acc as nat) && acc <= 0x10FFFF,
            ok && beyond ==> hex_digits(run.take(i - from))->0 > 0x10FFFF,
        decreases to - i,
    {
        let ghost before = run.take(i - from);
        let ghost after = run.take(i + 1 - from);
        assert(after.drop_last() == before);
        assert(after.last() == chars@[i as int]);
        match hex_digit_value(chars[i]) {
            Some(d) => {
                if ok && !beyond {
                    acc = acc * 16 + d;
                    if acc > 0x10FFFF {
                        beyond = true;
                    }
                }
            },
            None => {
                ok = false;
            },
        }
        i += 1;
    }
    assert(run.take(to - from) == run);
    if ok && !beyond && from < to {
        match char_from_u32(acc) {
            Some(c) => c,
            None => '\u{FFFD}',
        }
    } else {
        '\u{FFFD}'
    }
}

/// The character whose code the hexadecimal digits `s` spell, or the
/// replacement character where they spell none.
pub fn hex_to_char(s: &str) -> (r: char)
    ensures
        r == spec_hex_to_char(s@),
{
    let chars = to_chars(s);
    let r = hex_run_to_char(&chars, 0, chars.len());
    assert(chars@.subrange(0, chars@.len() as int) == chars@);
    r
}

/// Appends to `dest` what the escaped text `chars` stands for.
pub fn push_unescaped(dest: &mut String, chars: &Vec<char>)
    ensures
        final(dest)@ == old(dest)@ + unescape(chars@),
{
    let n: usize = chars.len();
    let ghost s = chars@;
    let mut i: usize = 0;
    while i < n
        invariant
            i <= n,
            n == s.len(),
            s == chars@,
            old(dest)@ + unescape(s) == dest@ + unescape_from(s, i as int),
        decreases n - i,
    {
        let c = chars[i];
        let ghost d0 = dest@;
        if c != '\\' {
            push_char(dest, c);
            assert(d0 + (seq![c] + unescape_from(s, i + 1)) == d0.push(c) + unescape_from(
                s,
                i + 1,
            ));
            i += 1;
        } else if i + 1 >= n {
            assert(escape_value(s, i as int) + unescape_from(s, i + 1) == unescape_from(s, i + 1));
            i += 1;
        } else {
            let e = chars[i + 1];
            if e == 'u' || e == 'U' {
                let width: usize = if e == 'u' {
                    4
                } else {
                    8
                };
                let end: usize = if n - (i + 2) >= width {
                    i + 2 + width
                } else {
                    n
                };
                assert(end == escape_end(s, i as int));
                let h = hex_run_to_char(chars, i + 2, end);
                push_char(dest, h);
                assert(d0 + (seq![h] + unescape_from(s, end as int)) == d0.push(h) + unescape_from(
                    s,
                    end as int,
                ));
                i = end;
            } else {
                let x = if e == 'n' {
                    '\n'
                } else if e == 'r' {
                    '\r'
                } else if e == 't' {
                    '\t'
                } else if e == '0' {
                    '\0'
                } else if e == '\\' {
                    '\\'
                } else {
                    '\u{FFFD}'
                };
                push_char(dest, x);
                assert(d0 + (seq![x] + unescape_from(s, i + 2)) == d0.push(x) + unescape_from(
                    s,
                    i + 2,
                ));
                i += 2;
            }
        }
    }
}

/// The string that a string token holds.
pub open spec fn string_of_token(t: TokenView) -> ConfigStringView {
    match t.kind {
        TokenKindView::RawString(s) => ConfigStringView { raw: true, content: s, span: t.span },
        TokenKindView::EscapedString(s) => ConfigStringView {
            raw: false,
            content: s,
            span: t.span,
        },
        _ => ConfigStringView { raw: true, content: Seq::empty(), span: t.span },
    }
}

impl ConfigString {
    /// The string that the string token `tok` holds.
    pub fn from_token(tok: Token) -> (r: ConfigString)
        requires
            tok@.kind.is_string(),
        ensures
            r@ == string_of_token(tok@),
    {
        let span = tok.span;
        match tok.kind {
            TokenKind::RawString(s) => ConfigString { kind: StringKind::RawString(s), span },
            TokenKind::EscapedString(s) => ConfigString { kind: StringKind::EscapedString(s), span },
            _ => ConfigString { kind: StringKind::RawString(String::new()), span },
        }
    }

    /// The empty raw string, from nowhere in the source.
    pub fn new() -> (r: ConfigString)
        ensures
            r@ == (ConfigStringView { raw: true, content: Seq::empty(), span: Span::invalid() }),
    {
        ConfigString { kind: StringKind::RawString(String::new()), span: Span::new() }
    }

    /// Appends the text that the string stands for to `dest`.
    pub fn append_to_string(&self, dest: &mut String)
        ensures
            final(dest)@ == old(dest)@ + self@.decoded(),
    {
        match &self.kind {
            StringKind::RawString(s) => {
                let chars = to_chars(s.as_str());
                push_chars(dest, &chars, 0, chars.len());
                assert(chars@.subrange(0, chars@.len() as int) == chars@);
            },
            StringKind::EscapedString(s) => {
                let chars = to_chars(s.as_str());
                push_unescaped(dest, &chars);
            },
        }
    }

    /// The text that the string stands for.
    pub fn to_string(&self) -> (r: String)
        ensures
            r@ == self@.decoded(),
    {
        let mut dest = String::new();
        self.append_to_string(&mut dest);
        dest
    }
}

} // verus!
