//! Errors and the text in which they report a place of the source.

use vstd::prelude::*;
use vstd::string::StringExecFns;
use crate::source::{
    byte_offset, column_of, index_at, lemma_byte_offset_monotonic, lemma_index_below, line_end,
    line_of, line_start, Place, Source, SourceView,
};
use crate::span::Span;
use crate::text::{grow_str, push_char};

verus! {

/// What went wrong, so that callers can treat errors differently.
#[derive(Debug, Clone, Copy, PartialEq, Eq, Structural)]
pub enum ErrorKind {
    /// The text is not a document. Parsing stops at the first such error.
    ParseFailure,
    /// A `$name` reference names nothing that is in scope.
    NotFound,
    /// A value could not be read from the element that stands for it.
    InvalidRepr,
    /// A table holds a field that the reader does not know.
    UnknownField,
    /// An error of a visitor of the caller's own, with a code of its choosing.
    Custom(i32),
}

/// The model of an `Error`.
pub struct ErrorView {
    pub kind: ErrorKind,
    pub text: Seq<char>,
}

/// An error: its kind and the text that reports it.
#[derive(Debug)]
pub struct Error {
    pub kind: ErrorKind,
    pub text: String,
}

impl Clone for Error {
    fn clone(&self) -> (r: Error)
        ensures
            r == *self,
    {
        Error { kind: self.kind, text: self.text.clone() }
    }
}

impl View for Error {
    type V = ErrorView;

    open spec fn view(&self) -> ErrorView {
        ErrorView { kind: self.kind, text: self.text@ }
    }
}

/// The character for the digit `d`.
pub open spec fn digit_char(d: nat) -> char {
    ((48 + d) as u8) as char
}

/// The decimal numeral of `n`.
pub open spec fn decimal(n: nat) -> Seq<char>
    decreases n,
{
    if n < 10 {
        seq![digit_char(n)]
    } else {
        decimal(n / 10).push(digit_char(n % 10))
    }
}

/// `n` copies of `c`.
pub open spec fn repeat(c: char, n: nat) -> Seq<char> {
    Seq::new(n, |i: int| c)
}

/// The number of tabs among the characters `text[a..b]`.
pub open spec fn tabs_between(text: Seq<char>, a: int, b: int) -> nat
    decreases b - a,
{
    if a >= b || b > text.len() || a < 0 {
        0
    } else if text[b - 1] == '\t' {
        tabs_between(text, a, b - 1) + 1
    } else {
        tabs_between(text, a, b - 1)
    }
}

/// The characters `text[a..b]` with four spaces in place of each tab.
pub open spec fn expand_tabs(text: Seq<char>, a: int, b: int) -> Seq<char>
    decreases b - a,
{
    if a >= b || b > text.len() || a < 0 {
        Seq::empty()
    } else if text[b - 1] == '\t' {
        expand_tabs(text, a, b - 1) + repeat(' ', 4)
    } else {
        expand_tabs(text, a, b - 1).push(text[b - 1])
    }
}

/// The last byte of a valid span; its first where the span is empty.
pub open spec fn last_byte(span: Span) -> int {
    if span.len == 0 {
        span.start as int
    } else {
        span.end() - 1
    }
}

/// The report of an error that has no place in a source.
pub open spec fn render_plain(msg: Seq<char>) -> Seq<char> {
    "error: "@ + msg + "\n"@
}

/// The line under a source line that points at column `col` with a caret.
/// Each tab before the column counts for the four spaces that stand for it.
pub open spec fn caret_line(text: Seq<char>, pos: int) -> Seq<char> {
    let i = index_at(text, pos);
    let col = column_of(text, pos);
    let pad = if col > 0 {
        repeat(' ', (col + 3 * tabs_between(text, line_start(text, i), i)) as nat)
    } else {
        Seq::empty()
    };
    pad.push('^')
}

/// The text of a report at one place: the file, the line counted from one
/// and the column, the message, the line of the source and the line that
/// points at the place.
pub open spec fn place_text(
    filename: Seq<char>,
    line: nat,
    col: nat,
    msg: Seq<char>,
    source_line: Seq<char>,
    pointer: Seq<char>,
) -> Seq<char> {
    filename.push(':') + decimal(line + 1).push(':') + decimal(col) + ": error: "@ + msg.push(
        '\n',
    ) + source_line.push('\n') + pointer.push('\n')
}

/// The text of a report on a range: as for one place, with the line and
/// column of the end of the range behind those of its start.
pub open spec fn range_text(
    filename: Seq<char>,
    line: nat,
    col: nat,
    end_line: nat,
    end_col: nat,
    msg: Seq<char>,
    source_line: Seq<char>,
    pointer: Seq<char>,
) -> Seq<char> {
    filename.push(':') + decimal(line + 1).push(':') + decimal(col).push('-') + decimal(
        end_line + 1,
    ).push(':') + decimal(end_col) + ": error: "@ + msg.push('\n') + source_line.push('\n')
        + pointer.push('\n')
}

/// The report of an error at byte `pos` of a source: the file, the line
/// counted from one and the column, the message, the line of the source and a
/// caret under the place.
pub open spec fn render_at(src: SourceView, pos: int, msg: Seq<char>) -> Seq<char> {
    let text = src.text;
    let i = index_at(text, pos);
    place_text(
        src.filename,
        line_of(text, pos),
        column_of(text, pos) as nat,
        msg,
        expand_tabs(text, line_start(text, i), line_end(text, i)),
        caret_line(text, pos),
    )
}

/// The column at which the underline of `span` ends: that of the span's last
/// byte where the span ends in the line it starts in, else that of the last
/// byte of the line.
pub open spec fn end_column(text: Seq<char>, span: Span) -> int {
    let first = span.start as int;
    let last = last_byte(span);
    let i = index_at(text, first);
    if line_of(text, first) == line_of(text, last) {
        column_of(text, last)
    } else {
        let width = byte_offset(text, line_end(text, i)) - byte_offset(text, line_start(text, i));
        if width > 0 {
            width - 1
        } else {
            0
        }
    }
}

/// The tildes that follow the caret: none for a span of up to two columns,
/// else one for each further column up to the end column, and three more for
/// each tab under them.
pub open spec fn tilde_run(text: Seq<char>, span: Span) -> Seq<char> {
    let first = span.start as int;
    let i = index_at(text, first);
    let sc = column_of(text, first);
    let ec = end_column(text, span);
    if ec > sc + 1 {
        let e = index_at(text, byte_offset(text, line_start(text, i)) + ec);
        repeat('~', (ec - sc + 3 * tabs_between(text, i, e)) as nat)
    } else {
        Seq::empty()
    }
}

/// The report of an error at `span` of a source: the file, line and column of
/// the span's first and last byte, the message, the line of the source in
/// which the span starts, and under it a caret and tildes. Where the span is
/// invalid, the file and the message alone.
pub open spec fn render_span(src: SourceView, span: Span, msg: Seq<char>) -> Seq<char> {
    let text = src.text;
    if !span.valid() {
        src.filename + ": error: "@ + msg.push('\n')
    } else {
        let first = span.start as int;
        let last = last_byte(span);
        let i = index_at(text, first);
        range_text(
            src.filename,
            line_of(text, first),
            column_of(text, first) as nat,
            line_of(text, last),
            end_column(text, span) as nat,
            msg,
            expand_tabs(text, line_start(text, i), line_end(text, i)),
            caret_line(text, first) + tilde_run(text, span),
        )
    }
}

/// The text of an error at a byte position, with or without a source.
pub open spec fn report_at(src: Option<SourceView>, pos: int, msg: Seq<char>) -> Seq<char> {
    match src {
        Some(s) => render_at(s, pos, msg),
        None => render_plain(msg),
    }
}

/// The text of an error at a span, with or without a source.
pub open spec fn report_span(src: Option<SourceView>, span: Span, msg: Seq<char>) -> Seq<char> {
    match src {
        Some(s) => render_span(s, span, msg),
        None => render_plain(msg),
    }
}

proof fn lemma_repeat_add(c: char, a: nat, b: nat)
    ensures
        repeat(c, a) + repeat(c, b) == repeat(c, a + b),
{
    assert(repeat(c, a) + repeat(c, b) =~= repeat(c, a + b));
}

/// Appends the decimal numeral of `n`.
fn push_decimal(dest: &mut String, n: u128)
    ensures
        final(dest)@ == old(dest)@ + decimal(n as nat),
    decreases n,
{
    if n >= 10 {
        push_decimal(dest, n / 10);
    }
    let d: u8 = (n % 10) as u8;
    push_char(dest, (48u8 + d) as char);
    proof {
        if n >= 10 {
            assert(old(dest)@ + decimal(n as nat) == (old(dest)@ + decimal((n / 10) as nat)).push(
                digit_char((n % 10) as nat),
            ));
        } else {
            assert(old(dest)@ + decimal(n as nat) == old(dest)@.push(digit_char(n as nat)));
        }
    }
}

/// The number of tabs among `chars[a..b]`.
fn count_tabs(chars: &Vec<char>, a: usize, b: usize) -> (r: usize)
    requires
        b <= chars@.len(),
    ensures
        r == tabs_between(chars@, a as int, b as int),
        a <= b ==> r <= b - a,
        a > b ==> r == 0,
{
    let mut k: usize = a;
    let mut r: usize = 0;
    while k < b
        invariant
            b <= chars@.len(),
            a <= b ==> a <= k <= b,
            a > b ==> k == a,
            r == tabs_between(chars@, a as int, k as int),
            a <= b ==> r <= k - a,
            a > b ==> r == 0,
        decreases b - k,
    {
        if chars[k] == '\t' {
            r += 1;
        }
        k += 1;
    }
    r
}

/// Appends `chars[a..b]` with four spaces in place of each tab.
fn push_expanded(dest: &mut String, chars: &Vec<char>, a: usize, b: usize)
    requires
        a <= b <= chars@.len(),
    ensures
        final(dest)@ == old(dest)@ + expand_tabs(chars@, a as int, b as int),
{
    let mut k: usize = a;
    while k < b
        invariant
            a <= k <= b <= chars@.len(),
            dest@ == old(dest)@ + expand_tabs(chars@, a as int, k as int),
        decreases b - k,
    {
        let ghost d0 = dest@;
        let ghost e0 = expand_tabs(chars@, a as int, k as int);
        if chars[k] == '\t' {
            grow_str(dest, 4, ' ');
            assert(old(dest)@ + (e0 + repeat(' ', 4)) == d0 + repeat(' ', 4));
        } else {
            push_char(dest, chars[k]);
            assert(old(dest)@ + e0.push(chars@[k as int]) == d0.push(chars@[k as int]));
        }
        k += 1;
    }
}

/// Appends `col + 3 * tabs` copies of `c`.
fn push_run(dest: &mut String, c: char, col: usize, tabs: usize)
    ensures
        final(dest)@ == old(dest)@ + repeat(c, (col + 3 * tabs) as nat),
{
    grow_str(dest, col, c);
    grow_str(dest, tabs, c);
    grow_str(dest, tabs, c);
    grow_str(dest, tabs, c);
    proof {
        lemma_repeat_add(c, col as nat, tabs as nat);
        lemma_repeat_add(c, (col + tabs) as nat, tabs as nat);
        lemma_repeat_add(c, (col + 2 * tabs) as nat, tabs as nat);
        assert(dest@ == old(dest)@ + (((repeat(c, col as nat) + repeat(c, tabs as nat)) + repeat(
            c,
            tabs as nat,
        )) + repeat(c, tabs as nat)));
    }
}

/// The text that reports an error without a place.
fn plain_text(msg: &str) -> (r: String)
    ensures
        r@ == render_plain(msg@),
{
    let mut text = String::new();
    text.append("error: ");
    text.append(msg);
    text.append("\n");
    assert(text@ == Seq::<char>::empty() + "error: "@ + msg@ + "\n"@);
    assert(Seq::<char>::empty() + "error: "@ == "error: "@);
    text
}

/// The text of a report at one place.
fn place_report(
    filename: &str,
    line: usize,
    col: usize,
    msg: &str,
    source_line: &str,
    pointer: &str,
) -> (r: String)
    ensures
        r@ == place_text(filename@, line as nat, col as nat, msg@, source_line@, pointer@),
{
    let mut text = String::new();
    text.append(filename);
    push_char(&mut text, ':');
    push_decimal(&mut text, line as u128 + 1);
    push_char(&mut text, ':');
    push_decimal(&mut text, col as u128);
    text.append(": error: ");
    text.append(msg);
    push_char(&mut text, '\n');
    text.append(source_line);
    push_char(&mut text, '\n');
    text.append(pointer);
    push_char(&mut text, '\n');
    assert(text@ =~= place_text(
        filename@,
        line as nat,
        col as nat,
        msg@,
        source_line@,
        pointer@,
    ));
    text
}

/// The text of a report on a range.
fn range_report(
    filename: &str,
    line: usize,
    col: usize,
    end_line: usize,
    end_col: usize,
    msg: &str,
    source_line: &str,
    pointer: &str,
) -> (r: String)
    ensures
        r@ == range_text(
            filename@,
            line as nat,
            col as nat,
            end_line as nat,
            end_col as nat,
            msg@,
            source_line@,
            pointer@,
        ),
{
    let mut text = String::new();
    text.append(filename);
    push_char(&mut text, ':');
    push_decimal(&mut text, line as u128 + 1);
    push_char(&mut text, ':');
    push_decimal(&mut text, col as u128);
    push_char(&mut text, '-');
    push_decimal(&mut text, end_line as u128 + 1);
    push_char(&mut text, ':');
    push_decimal(&mut text, end_col as u128);
    text.append(": error: ");
    text.append(msg);
    push_char(&mut text, '\n');
    text.append(source_line);
    push_char(&mut text, '\n');
    text.append(pointer);
    push_char(&mut text, '\n');
    assert(text@ =~= range_text(
        filename@,
        line as nat,
        col as nat,
        end_line as nat,
        end_col as nat,
        msg@,
        source_line@,
        pointer@,
    ));
    text
}

/// The line of the source around `place`, with spaces for its tabs.
fn source_line(src: &Source, place: &Place) -> (r: String)
    requires
        place.line_start <= place.line_end <= src@.text.len(),
    ensures
        r@ == expand_tabs(src@.text, place.line_start as int, place.line_end as int),
{
    let mut line = String::new();
    push_expanded(&mut line, src.chars(), place.line_start, place.line_end);
    line
}

/// The caret under byte `pos`, which lies at `place`.
fn caret(src: &Source, pos: usize, place: &Place) -> (r: String)
    requires
        place.index == index_at(src@.text, pos as int),
        place.index <= src@.text.len(),
        place.line_start == line_start(src@.text, place.index as int),
        place.line_start_offset == byte_offset(src@.text, place.line_start as int),
        place.line_start_offset <= pos,
    ensures
        r@ == caret_line(src@.text, pos as int),
{
    let mut pointer = String::new();
    let col: usize = pos - place.line_start_offset;
    if col > 0 {
        let tabs: usize = count_tabs(src.chars(), place.line_start, place.index);
        push_run(&mut pointer, ' ', col, tabs);
    }
    push_char(&mut pointer, '^');
    pointer
}

/// The column of the last byte of `span` for the underline, and the tildes
/// that underline the span.
fn tildes(src: &Source, span: Span, place: &Place, end_line: usize, last_col: usize) -> (r: (
    usize,
    String,
))
    requires
        span.valid(),
        place.index == index_at(src@.text, span.start as int),
        place.index <= place.line_end <= src@.text.len(),
        place.line == line_of(src@.text, span.start as int),
        place.line_start == line_start(src@.text, place.index as int),
        place.line_end == line_end(src@.text, place.index as int),
        place.line_start_offset == byte_offset(src@.text, place.line_start as int),
        place.line_end_offset == byte_offset(src@.text, place.line_end as int),
        place.line_start_offset <= span.start,
        place.line_start_offset <= place.line_end_offset,
        end_line == line_of(src@.text, last_byte(span)),
        last_col == column_of(src@.text, last_byte(span)),
    ensures
        r.0 == end_column(src@.text, span),
        r.1@ == tilde_run(src@.text, span),
{
    let ghost t = src@.text;
    let start_col: usize = span.start - place.line_start_offset;
    let width: usize = place.line_end_offset - place.line_start_offset;
    let end_col: usize = if place.line == end_line {
        last_col
    } else if width > 0 {
        width - 1
    } else {
        0
    };
    let mut run = String::new();
    if end_col > start_col && end_col - start_col > 1 {
        src.offsets_fit();
        let e: usize = match place.line_start_offset.checked_add(end_col) {
            Some(p) => src.index_of(p),
            None => {
                proof {
                    lemma_index_below(t, place.line_start_offset + end_col, t.len() as int);
                }
                src.len()
            },
        };
        let tabs: usize = count_tabs(src.chars(), place.index, e);
        push_run(&mut run, '~', end_col - start_col, tabs);
    }
    (end_col, run)
}

impl Error {
    pub fn new(kind: ErrorKind, text: String) -> (r: Error)
        ensures
            r.kind == kind,
            r.text == text,
    {
        Error { kind, text }
    }

    /// The error of kind `kind` with message `msg` at byte `pos` of `source`.
    pub fn from_pos(pos: usize, source: Option<&Source>, kind: ErrorKind, msg: &str) -> (r: Error)
        ensures
            r.kind == kind,
            r.text@ == report_at(
                match source {
                    Some(s) => Some(s@),
                    None => None,
                },
                pos as int,
                msg@,
            ),
    {
        match source {
            None => Error { kind, text: plain_text(msg) },
            Some(src) => {
                let place = src.locate(pos);
                let line = source_line(src, &place);
                let pointer = caret(src, pos, &place);
                let text = place_report(
                    src.filename(),
                    place.line,
                    pos - place.line_start_offset,
                    msg,
                    line.as_str(),
                    pointer.as_str(),
                );
                Error { kind, text }
            },
        }
    }

    /// The error of kind `kind` with message `msg` at `span` of `source`. The
    /// span must come from that source.
    pub fn from_span(span: Span, source: Option<&Source>, kind: ErrorKind, msg: &str) -> (r: Error)
        ensures
            r.kind == kind,
            r.text@ == report_span(
                match source {
                    Some(s) => Some(s@),
                    None => None,
                },
                span,
                msg@,
            ),
    {
        match source {
            None => Error { kind, text: plain_text(msg) },
            Some(src) => {
                if !span.is_valid() {
                    let mut text = String::new();
                    text.append(src.filename());
                    text.append(": error: ");
                    text.append(msg);
                    push_char(&mut text, '\n');
                    assert(text@ =~= render_span(src@, span, msg@));
                    return Error { kind, text };
                }
                let first: usize = span.start;
                let last: usize = if span.len == 0 {
                    span.start
                } else {
                    match span.start.checked_add(span.len) {
                        Some(e) => e - 1,
                        None => usize::MAX - 1,
                    }
                };
                let place = src.locate(first);
                let (end_line, last_col) = src.get_line_col_from_pos(last);
                proof {
                    lemma_byte_offset_monotonic(
                        src@.text,
                        place.line_start as int,
                        place.line_end as int,
                    );
                }
                let (end_col, run) = tildes(src, span, &place, end_line, last_col);
                let line = source_line(src, &place);
                let mut pointer = caret(src, first, &place);
                pointer.append(run.as_str());
                let text = range_report(
                    src.filename(),
                    place.line,
                    first - place.line_start_offset,
                    end_line,
                    end_col,
                    msg,
                    line.as_str(),
                    pointer.as_str(),
                );
                Error { kind, text }
            },
        }
    }

    /// The text of the error.
    pub fn to_string(&self) -> (r: String)
        ensures
            r@ == self@.text,
    {
        self.text.clone()
    }
}

} // verus!
