//! What holds of the lexer, the printer and the builder together.

use vstd::prelude::*;
use crate::chars::spec_is_string_border;
use crate::config_element::{
    built, lookup_in, rendered, resolve, root_stack, ConfigElement, ConfigElementVisitor,
    ElementKindView, ElementView, FrameView,
};
use crate::config_string::{
    escape_end, escape_value, hex_digits, is_scalar_value, replacement, simple_escape,
    spec_hex_to_char, string_of_token, unescape, unescape_from,
};
use crate::error::ErrorView;
use crate::lexer::{
    blank_end, closes_at, find_close, lemma_blank_end, lemma_brace_run_covers, lemma_find_close,
    lemma_lexeme_advances, lemma_naked_scan, lemma_open_run, lexeme_at, lexemes, lexemes_from,
    naked_scan, open_run, punctuation, span_of, starts_quoted, Lexeme, TokenKindView,
};
use crate::parser::{document, table_contents};
use crate::printer::written;
use crate::quote::{
    brace_run, is_naked, longest_run_from, naked_at, quote_braces, quote_type,
};
use crate::source::SourceView;

verus! {

/// Text without a backslash stands for itself.
pub proof fn lemma_unescape_plain(s: Seq<char>, i: int)
    requires
        0 <= i <= s.len(),
        forall|k: int| i <= k < s.len() ==> s[k] != '\\',
    ensures
        unescape_from(s, i) == s.skip(i),
    decreases s.len() - i,
{
    if i < s.len() {
        lemma_unescape_plain(s, i + 1);
        assert(s.skip(i) == seq![s[i]] + s.skip(i + 1));
    } else {
        assert(s.skip(i) == Seq::<char>::empty());
    }
}

/// Decoding never makes a text longer, and it makes a text with a backslash
/// shorter.
pub proof fn lemma_unescape_len(s: Seq<char>, i: int)
    requires
        0 <= i <= s.len(),
    ensures
        unescape_from(s, i).len() <= s.len() - i,
        (exists|k: int| i <= k < s.len() && s[k] == '\\') ==> unescape_from(s, i).len() < s.len()
            - i,
    decreases s.len() - i,
{
    if i < s.len() {
        if s[i] != '\\' {
            lemma_unescape_len(s, i + 1);
            if exists|k: int| i <= k < s.len() && s[k] == '\\' {
                let k = choose|k: int| i <= k < s.len() && s[k] == '\\';
                assert(i + 1 <= k < s.len() && s[k] == '\\');
            }
        } else {
            lemma_unescape_len(s, escape_end(s, i));
        }
    }
}

/// The longest run of `}` behind a `"` is no shorter than the run behind any
/// one `"`.
pub proof fn lemma_longest_run(s: Seq<char>, i: int, k: int)
    requires
        0 <= i <= k < s.len(),
        s[k] == '"',
    ensures
        brace_run(s, k + 1) <= longest_run_from(s, i),
    decreases k - i,
{
    if i < k {
        lemma_longest_run(s, i + 1, k);
    }
}

/// Where `text` holds `s` from index `at` on, and the character behind `s` is
/// no `}`, the runs of `}` in `s` are runs of `text`.
proof fn lemma_brace_run_inside(text: Seq<char>, at: int, s: Seq<char>, k: int)
    requires
        0 <= at,
        at + s.len() < text.len(),
        text.subrange(at, at + s.len()) == s,
        text[at + s.len()] != '}',
        0 <= k <= s.len(),
    ensures
        brace_run(text, at + k) == brace_run(s, k),
    decreases s.len() - k,
{
    if k < s.len() {
        assert(text[at + k] == text.subrange(at, at + s.len())[k]);
        if s[k] == '}' {
            lemma_brace_run_inside(text, at, s, k + 1);
        }
    }
}

/// In a text that holds `s` from index `at` on, with no `"` in it that is
/// followed by `n` or more `}`, a string opened with `n` braces does not end
/// inside `s`.
proof fn lemma_no_close_inside(text: Seq<char>, at: int, s: Seq<char>, n: nat, k: int)
    requires
        0 <= at,
        at + s.len() < text.len(),
        text.subrange(at, at + s.len()) == s,
        text[at + s.len()] == '"',
        forall|j: int| 0 <= j < s.len() && s[j] == '"' ==> brace_run(s, j + 1) < n,
        0 <= k <= s.len(),
    ensures
        find_close(text, at + k, n) == find_close(text, at + s.len(), n),
    decreases s.len() - k,
{
    if k < s.len() {
        assert(text[at + k] == text.subrange(at, at + s.len())[k]);
        if s[k] == '"' {
            lemma_brace_run_inside(text, at, s, k + 1);
        }
        lemma_no_close_inside(text, at, s, n, k + 1);
    }
}

/// What may stand behind an unquoted string so that it ends there: the end
/// of the text, a character that cannot stand in a string, or a space that
/// no border character follows.
pub open spec fn ends_naked(text: Seq<char>, end: int) -> bool {
    ||| end >= text.len()
    ||| (!spec_is_string_border(text[end]) && text[end] != ' ')
    ||| (text[end] == ' ' && (end + 1 >= text.len() || !spec_is_string_border(text[end + 1])))
}

/// The scan of an unquoted string runs through a naked string that stands in
/// the text.
proof fn lemma_scan_runs(text: Seq<char>, at: int, s: Seq<char>, k: int)
    requires
        0 <= at,
        at + s.len() <= text.len(),
        text.subrange(at, at + s.len()) == s,
        is_naked(s),
        ends_naked(text, at + s.len()),
        0 <= k <= s.len(),
    ensures
        naked_scan(text, at + k) == (at + s.len(), false),
    decreases s.len() - k,
{
    if k < s.len() {
        assert(text[at + k] == text.subrange(at, at + s.len())[k]);
        assert(naked_at(s, k));
        if k + 1 < s.len() {
            assert(text[at + k + 1] == text.subrange(at, at + s.len())[k + 1]);
        }
        lemma_scan_runs(text, at, s, k + 1);
    }
}

/// The text that a string token stands for.
pub open spec fn token_text(lexeme: Lexeme) -> Option<Seq<char>> {
    match lexeme {
        Ok(t) => if t.kind.is_string() {
            Some(string_of_token(t).decoded())
        } else {
            None
        },
        Err(_) => None,
    }
}

/// A string as the printer writes it is read back by the lexer as one
/// string token that stands for the same string and ends where the written
/// string ends, wherever in a text it stands, provided that an unquoted
/// string is followed by something that ends it.
pub proof fn law_written_string_reads_back(src: SourceView, at: int, s: Seq<char>)
    requires
        0 <= at,
        at + written(s).len() <= src.text.len(),
        src.text.subrange(at, at + written(s).len()) == written(s),
        is_naked(s) ==> ends_naked(src.text, at + s.len()),
    ensures
        token_text(lexeme_at(src, at).0) == Some(s),
        lexeme_at(src, at).1 == at + written(s).len(),
        lexeme_at(src, at).0->Ok_0.span == span_of(src.text, at, at + written(s).len()),
{
    let text = src.text;
    let w = written(s);
    assert forall|k: int| 0 <= k < w.len() implies #[trigger] w[k] == text[at + k] by {
        assert(text[at + k] == text.subrange(at, at + w.len())[k]);
    }
    if is_naked(s) {
        assert(naked_at(s, 0));
        assert(text[at] == w[0]);
        lemma_open_run(text, at);
        lemma_scan_runs(text, at, s, 0);
        assert forall|k: int| 0 <= k < s.len() implies s[k] != '\\' by {
            assert(naked_at(s, k));
        }
        lemma_unescape_plain(s, 0);
        assert(s.skip(0) == s);
    } else {
        // The string is written raw, between braces.
        {
            let n = quote_braces(s);
            let len = s.len() as int;
            // The braces, then the opening quote.
            assert forall|j: int| at <= j < at + n implies text[j] == '{' by {
                assert(w[j - at] == '{');
            }
            assert(text[at + n] == '"') by {
                assert(w[n as int] == '"');
            }
            lemma_open_run_is(text, at, n);
            let from = at + n + 1;
            assert(text.subrange(from, from + s.len()) =~= s) by {
                assert forall|k: int| 0 <= k < s.len() implies #[trigger] s[k] == text[from + k] by {
                    assert(w[n + 1 + k] == s[k]);
                }
            }
            assert(text[from + s.len()] == '"') by {
                assert(w[n + 1 + len] == '"');
            }
            assert forall|j: int| from + len + 1 <= j < from + len + 1 + n implies text[j]
                == '}' by {
                assert(w[j - at] == '}');
            }
            // Nothing inside closes the string.
            assert forall|j: int| 0 <= j < s.len() && s[j] == '"' implies brace_run(s, j + 1)
                < n by {
                lemma_longest_run(s, 0, j);
            }
            lemma_no_close_inside(text, from, s, n, 0);
            lemma_brace_run_covers(text, from + s.len() + 1, from + s.len() + 1 + n);
            assert(closes_at(text, from + s.len(), n));
        }
    }
}

/// A run of exactly `n` opening braces stands at `at`.
proof fn lemma_open_run_is(text: Seq<char>, at: int, n: nat)
    requires
        0 <= at,
        at + n < text.len(),
        forall|j: int| at <= j < at + n ==> text[j] == '{',
        text[at + n] != '{',
    ensures
        open_run(text, at) == n,
    decreases n,
{
    if n > 0 {
        assert(text[at] == '{');
        lemma_open_run_is(text, at + 1, (n - 1) as nat);
    }
}

/// Whether the lexer reads the text of `src` as one string token that
/// stands for that very text.
pub open spec fn reads_back_as_itself(src: SourceView) -> bool {
    lexemes(src).len() == 1 && token_text(lexemes(src)[0]) == Some(src.text)
}

/// The printer writes a string unquoted if and only if the lexer reads the
/// unquoted string as a single string token that stands for the same
/// string.
pub proof fn law_naked_iff_reads_back(src: SourceView)
    ensures
        (quote_type(src.text) is Naked) <==> reads_back_as_itself(src),
{
    let s = src.text;
    let len = s.len() as int;
    if is_naked(s) {
        assert(naked_at(s, 0));
        assert(written(s) == s);
        assert(s.subrange(0, len) == s);
        law_written_string_reads_back(src, 0, s);
        assert(blank_end(s, 0, false) == 0);
        assert(lexemes_from(src, len) == Seq::<Lexeme>::empty());
        assert(lexemes(src) =~= seq![lexeme_at(src, 0).0]);
    }
    if reads_back_as_itself(src) {
        let j = blank_end(s, 0, false);
        lemma_blank_end(s, 0, false);
        assert(j < len);
        lemma_lexeme_advances(src, j);
        let lx = lexeme_at(src, j).0;
        let end = lexeme_at(src, j).1;
        assert(lexemes(src)[0] == lx);
        let tok = lx->Ok_0;
        if starts_quoted(s, j) {
            let n = open_run(s, j);
            lemma_open_run(s, j);
            let from = j + n + 1;
            lemma_find_close(s, from, n);
            let close = find_close(s, from, n)->0;
            let content = s.subrange(from, close);
            lemma_unescape_len(content, 0);
            assert(false);
        } else if punctuation(s[j]) is Some {
            assert(false);
        } else {
            lemma_naked_scan(s, j);
            let content = s.subrange(j, end);
            lemma_unescape_len(content, 0);
            assert(j == 0 && end == len);
            assert(content == s);
            assert forall|m: int| 0 <= m < len implies s[m] != '\\' by {
                if s[m] == '\\' {
                    assert(exists|k: int| 0 <= k < s.len() && s[k] == '\\');
                }
            }
            lemma_scan_accepts_upto(s, 0, len);
            assert forall|m: int| 0 <= m < len implies naked_at(s, m) by {
                if !spec_is_string_border(s[m]) {
                    assert(s[m] == ' ' && m + 1 < len && spec_is_string_border(s[m + 1]));
                    if m > 0 {
                        assert(spec_is_string_border(s[m - 1]) || (s[m - 1] == ' '
                            && spec_is_string_border(s[m])));
                    }
                }
            }
        }
    }
}

/// Where the scan of an unquoted string runs from `k` up to `end` over
/// characters that are no backslash, each of them is a border character or a
/// space before a border character of the string.
proof fn lemma_scan_accepts_upto(text: Seq<char>, k: int, end: int)
    requires
        0 <= k <= end <= text.len(),
        naked_scan(text, k) == (end, false),
        forall|m: int| k <= m < end ==> text[m] != '\\',
    ensures
        forall|m: int|
            k <= m < end ==> spec_is_string_border(#[trigger] text[m]) || (text[m] == ' ' && m
                + 1 < end && spec_is_string_border(text[m + 1])),
    decreases end - k,
{
    if k < end {
        assert(text[k] != '\\');
        if spec_is_string_border(text[k]) {
            lemma_naked_scan(text, k + 1);
            lemma_scan_accepts_upto(text, k + 1, end);
        } else if text[k] == ' ' && k + 1 < text.len() && spec_is_string_border(text[k + 1]) {
            lemma_naked_scan(text, k + 1);
            lemma_scan_accepts_upto(text, k + 1, end);
        } else {
            assert(naked_scan(text, k) == (k, false));
        }
    }
}

/// A text that ends in a new line and holds a backslash does not decode to
/// itself without that new line.
proof fn lemma_escaped_line_differs(c: Seq<char>, i: int)
    requires
        c.len() > 0,
        c.last() == '\n',
        0 <= i < c.len(),
        exists|k: int| i <= k < c.len() && c[k] == '\\',
    ensures
        unescape_from(c, i) != c.subrange(i, c.len() - 1),
    decreases c.len() - i,
{
    let len = c.len() as int;
    let k = choose|k: int| i <= k < c.len() && c[k] == '\\';
    let rest = c.subrange(i, len - 1);
    if unescape_from(c, i) == rest {
        if c[i] != '\\' {
            assert(i + 1 <= k);
            assert(rest.len() > 0);
            assert(unescape_from(c, i + 1) =~= unescape_from(c, i).skip(1));
            assert(c.subrange(i + 1, len - 1) =~= rest.skip(1));
            lemma_escaped_line_differs(c, i + 1);
        } else {
            // The escape takes two characters and gives one; behind it
            // nothing is escaped.
            assert(i + 1 < len);
            let e = escape_end(c, i);
            lemma_unescape_len(c, e);
            assert(escape_value(c, i).len() == 1);
            assert(unescape_from(c, i) == escape_value(c, i) + unescape_from(c, e));
            assert(unescape_from(c, i).len() == 1 + unescape_from(c, e).len());
            assert(rest.len() == len - 1 - i);
            assert(i + 2 <= e <= len);
            assert(e == i + 2);
            assert(c[i + 1] != 'u' && c[i + 1] != 'U');
            assert forall|m: int| i + 2 <= m < len implies c[m] != '\\' by {
                if c[m] == '\\' {
                    assert(exists|x: int| i + 2 <= x < c.len() && c[x] == '\\');
                }
            }
            lemma_unescape_plain(c, i + 2);
            // The escape stands for the backslash that starts it, so a
            // backslash follows that one, and another follows that.
            assert(unescape_from(c, i)[0] == simple_escape(c[i + 1]));
            assert(rest[0] == c[i]);
            assert(c[i + 1] == '\\');
            assert(i + 2 < len);
            assert(unescape_from(c, i)[1] == c.skip(i + 2)[0]);
            assert(rest[1] == c[i + 1]);
            assert(c[i + 2] == '\\');
        }
    }
}

/// Whether the lexer reads the text of `src`, which is `s` on a line of its
/// own, as one escaped string token that stands for `s`, and nothing more.
pub open spec fn line_reads_back(src: SourceView, s: Seq<char>) -> bool {
    &&& src.text == s.push('\n')
    &&& lexemes(src).len() == 1
    &&& match lexemes(src)[0] {
        Ok(t) => match t.kind {
            TokenKindView::EscapedString(c) => unescape(c) == s,
            _ => false,
        },
        Err(_) => false,
    }
}

/// The printer writes a string unquoted if and only if the lexer reads the
/// unquoted string on a line of its own as a single escaped string token
/// that stands for the same string.
pub proof fn law_naked_iff_line_reads_back(src: SourceView, s: Seq<char>)
    requires
        src.text == s.push('\n'),
    ensures
        (quote_type(s) is Naked) <==> line_reads_back(src, s),
{
    let text = src.text;
    let len = text.len() as int;
    let n = s.len() as int;
    assert(text.subrange(0, n) =~= s);
    assert(text[n] == '\n');
    if is_naked(s) {
        assert(naked_at(s, 0));
        assert(text[0] == s[0]);
        lemma_open_run(text, 0);
        lemma_scan_runs(text, 0, s, 0);
        assert forall|k: int| 0 <= k < s.len() implies s[k] != '\\' by {
            assert(naked_at(s, k));
        }
        lemma_unescape_plain(s, 0);
        assert(s.skip(0) == s);
        assert(blank_end(text, 0, false) == 0);
        assert(blank_end(text, n, false) == blank_end(text, n + 1, false));
        assert(lexemes_from(src, n) == Seq::<Lexeme>::empty());
        assert(lexemes(src) =~= seq![lexeme_at(src, 0).0]);
    }
    if line_reads_back(src, s) {
        let j = blank_end(text, 0, false);
        lemma_blank_end(text, 0, false);
        assert(j < len);
        lemma_lexeme_advances(src, j);
        let lx = lexeme_at(src, j).0;
        let end = lexeme_at(src, j).1;
        assert(lexemes(src)[0] == lx);
        if starts_quoted(text, j) {
            let braces = open_run(text, j);
            lemma_open_run(text, j);
            let from = j + braces + 1;
            lemma_find_close(text, from, braces);
            let close = find_close(text, from, braces)->0;
            let content = text.subrange(from, close);
            lemma_unescape_len(content, 0);
            assert(false);
        } else if punctuation(text[j]) is Some {
            assert(false);
        } else {
            lemma_naked_scan(text, j);
            let content = text.subrange(j, end);
            lemma_unescape_len(content, 0);
            assert(unescape(content) == s);
            if end == len {
                // The token would hold the new line: behind a backslash, or
                // as a border character, and it is neither.
                if exists|k: int| 0 <= k < content.len() && content[k] == '\\' {
                    assert(j == 0);
                    assert(content =~= text);
                    lemma_escaped_line_differs(text, 0);
                    assert(text.subrange(0, len - 1) =~= s);
                    assert(false);
                } else {
                    assert forall|m: int| j <= m < end implies text[m] != '\\' by {
                        if text[m] == '\\' {
                            assert(content[m - j] == '\\');
                        }
                    }
                    lemma_scan_accepts_upto(text, j, end);
                    assert(spec_is_string_border(text[len - 1]) || text[len - 1] == ' ');
                    assert(false);
                }
            } else {
                assert(j == 0 && end == n);
                assert(content =~= s);
                assert forall|m: int| 0 <= m < n implies s[m] != '\\' by {
                    if s[m] == '\\' {
                        assert(exists|k: int| 0 <= k < s.len() && s[k] == '\\');
                    }
                }
                assert forall|m: int| 0 <= m < end implies text[m] != '\\' by {
                    assert(text[m] == s[m]);
                }
                lemma_scan_accepts_upto(text, 0, end);
                assert forall|m: int| 0 <= m < n implies naked_at(s, m) by {
                    assert(text[m] == s[m]);
                    if !spec_is_string_border(s[m]) {
                        assert(text[m] == ' ' && m + 1 < n && spec_is_string_border(text[m + 1]));
                        assert(text[m + 1] == s[m + 1]);
                        if m > 0 {
                            assert(text[m - 1] == s[m - 1]);
                            assert(spec_is_string_border(text[m - 1]) || (text[m - 1] == ' '
                                && spec_is_string_border(text[m])));
                        }
                    }
                }
            }
        }
    }
}

/// A run of hexadecimal digits that is empty or malformed, or that spells no
/// character's code, decodes to the replacement character; any other run to
/// the character with that code.
pub proof fn law_hex_run(s: Seq<char>)
    ensures
        match hex_digits(s) {
            Some(n) => if s.len() > 0 && is_scalar_value(n) {
                spec_hex_to_char(s) as u32 == n
            } else {
                spec_hex_to_char(s) == replacement()
            },
            None => spec_hex_to_char(s) == replacement(),
        },
{
}

/// A reference in an element is not resolved by the frame of that very
/// element or of any frame with its name: such a frame is passed over.
pub proof fn law_own_name_is_passed_over(stack: Seq<FrameView>, frame: FrameView)
    ensures
        resolve(stack.push(frame), frame.name, stack.len() as int + 1) == resolve(
            stack,
            frame.name,
            stack.len() as int,
        ),
{
    lemma_resolve_prefix(stack, stack.push(frame), frame.name, stack.len() as int);
}

/// The innermost frame that has something under a name decides what the
/// name refers to, whatever the frames around it hold.
pub proof fn law_innermost_scope_wins(stack: Seq<FrameView>, frame: FrameView, name: Seq<char>)
    requires
        frame.name != name,
        lookup_in(frame.elem, name) is Some,
    ensures
        resolve(stack.push(frame), name, stack.len() as int + 1) == lookup_in(frame.elem, name),
{
}

/// What a name refers to in the lowest `k` frames depends on those frames
/// alone.
proof fn lemma_resolve_prefix(a: Seq<FrameView>, b: Seq<FrameView>, name: Seq<char>, k: int)
    requires
        0 <= k <= a.len() <= b.len(),
        forall|i: int| 0 <= i < k ==> a[i] == b[i],
    ensures
        resolve(a, name, k) == resolve(b, name, k),
    decreases k,
{
    if k > 0 {
        lemma_resolve_prefix(a, b, name, k - 1);
    }
}

/// Whether two documents hold the same entries, whatever the places in a
/// source that their elements came from.
pub open spec fn same_entries(a: ElementView, b: ElementView) -> bool {
    crate::reparse::strip(a).kind.entries() == crate::reparse::strip(b).kind.entries()
}

/// Round-trip stability: the text of a document that a parse has given
/// parses again, to a document with the same entries and hence the same
/// text.
///
/// `root` is what parsing `src` into the table `init` has given, and
/// `reread` is any source that holds the text of `root`. The table that was
/// parsed into must be plain: an array in it that asks for a line for each
/// element comes back from its text as an array that does not.
pub proof fn law_round_trip_is_stable(
    src: SourceView,
    init: ElementView,
    root: ElementView,
    reread: SourceView,
)
    requires
        crate::config_element::plain(init),
        init.kind.entries() is Some,
        built(src, init) == Ok::<ElementView, ErrorView>(root),
        reread.text == rendered(root),
    ensures
        built(reread, ConfigElement::empty_table()) is Ok,
        same_entries(built(reread, ConfigElement::empty_table())->Ok_0, root),
        rendered(built(reread, ConfigElement::empty_table())->Ok_0) == rendered(root),
{
    let empty = ConfigElement::empty_table();
    let start = root_stack(empty);
    // What a parse gives is a plain table.
    assert(crate::config_element::plain(root) && root.kind.entries() is Some) by {
        crate::scopes::lemma_document_is_plain(src, lexemes(src), init);
    }
    let es = root.kind.entries()->0;
    // Its text reads back as its atoms,
    let toks = lexemes(reread);
    let atoms = crate::reparse::entries_tail(es, 0);
    assert(crate::relex::atoms_of(toks) == atoms) by {
        crate::relex::lemma_document_reads(reread, root);
        crate::reparse::lemma_entries_tail(es, 0);
        assert(crate::relex::entries_atoms(es, 0) + atoms =~= atoms);
    }
    assert(crate::reparse::starts(toks, atoms)) by {
        assert forall|i: int| 0 <= i < atoms.len() implies crate::relex::atom_of(
            #[trigger] toks[i],
        ) == atoms[i] by {
            assert(crate::relex::atoms_of(toks)[i] == crate::relex::atom_of(toks[i]));
        }
    }
    // and its atoms parse to a table that is alike.
    let base = ElementKindView::Table(Seq::empty());
    assert(crate::reparse::strip(start.last().elem) == crate::reparse::strip(
        crate::reparse::table_of(base, es.take(0)),
    )) by {
        assert(es.take(0) =~= Seq::<(Seq<char>, ElementView)>::empty());
    }
    crate::reparse::lemma_entries_parse(reread, toks, start, base, es, 0);
    let got = table_contents::<ConfigElementVisitor>(reread, toks, start);
    let stack = got->Ok_0.1;
    assert(got->Ok_0.0.len() == 0);
    assert(document::<ConfigElementVisitor>(reread, toks, start) == Ok::<
        Seq<FrameView>,
        ErrorView,
    >(stack));
    let again = stack.first().elem;
    assert(built(reread, empty) == Ok::<ElementView, ErrorView>(again));
    // The root table is printed without its tag, if it has one.
    let plain_root = crate::reparse::table_of(base, es);
    crate::reparse::lemma_print_alike(
        crate::printer::PrinterView::fresh(),
        again,
        plain_root,
        None,
        true,
    );
    assert(rendered(plain_root) == rendered(root));
    assert(same_entries(again, root)) by {
        crate::reparse::lemma_strip(again);
        crate::reparse::lemma_strip(plain_root);
        crate::reparse::lemma_strip(root);
    }
}

} // verus!
