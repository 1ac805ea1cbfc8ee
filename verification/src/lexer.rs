//! The lexer: from the characters of a source to its tokens.

use vstd::prelude::*;
use vstd::std_specs::cmp::PartialEqSpecImpl;
use crate::chars::{is_string_border, is_whitespace, spec_is_string_border, spec_is_whitespace};
use crate::error::{render_at, Error, ErrorKind, ErrorView};
use crate::quote::brace_run;
use crate::source::{
    byte_offset, char_width, lemma_byte_offset_monotonic, lemma_byte_offset_step, utf8_width,
    Source, SourceView,
};
use crate::span::Span;
use crate::text::string_of;

verus! {

/// The kinds of token.
#[derive(Debug)]
pub enum TokenKind {
    /// A string in which backslash escapes are still to be decoded: an
    /// unquoted string, or one between plain double quotes.
    EscapedString(String),
    /// A string between braces and quotes, which stands for itself.
    RawString(String),
    Assign,
    LeftBracket,
    RightBracket,
    LeftBrace,
    RightBrace,
    Dollar,
    Comma,
    Tilde,
    Eof,
}

/// A token and the place where it stood.
#[derive(Debug)]
pub struct Token {
    pub kind: TokenKind,
    pub span: Span,
}

/// The model of a `TokenKind`.
pub enum TokenKindView {
    EscapedString(Seq<char>),
    RawString(Seq<char>),
    Assign,
    LeftBracket,
    RightBracket,
    LeftBrace,
    RightBrace,
    Dollar,
    Comma,
    Tilde,
    Eof,
}

/// The model of a `Token`.
pub struct TokenView {
    pub kind: TokenKindView,
    pub span: Span,
}

/// What the lexer yields at one place: a token or the error that ends lexing.
pub type Lexeme = Result<TokenView, ErrorView>;

impl View for TokenKind {
    type V = TokenKindView;

    open spec fn view(&self) -> TokenKindView {
        match self {
            TokenKind::EscapedString(s) => TokenKindView::EscapedString(s@),
            TokenKind::RawString(s) => TokenKindView::RawString(s@),
            TokenKind::Assign => TokenKindView::Assign,
            TokenKind::LeftBracket => TokenKindView::LeftBracket,
            TokenKind::RightBracket => TokenKindView::RightBracket,
            TokenKind::LeftBrace => TokenKindView::LeftBrace,
            TokenKind::RightBrace => TokenKindView::RightBrace,
            TokenKind::Dollar => TokenKindView::Dollar,
            TokenKind::Comma => TokenKindView::Comma,
            TokenKind::Tilde => TokenKindView::Tilde,
            TokenKind::Eof => TokenKindView::Eof,
        }
    }
}

impl View for Token {
    type V = TokenView;

    open spec fn view(&self) -> TokenView {
        TokenView { kind: self.kind@, span: self.span }
    }
}

impl TokenKindView {
    pub open spec fn is_string(self) -> bool {
        self is EscapedString || self is RawString
    }
}

/// The model of one slot of the lexer's lookahead.
pub open spec fn slot_view(slot: Option<Result<Token, Error>>) -> Option<Lexeme> {
    match slot {
        None => None,
        Some(Ok(t)) => Some(Ok(t@)),
        Some(Err(e)) => Some(Err(e@)),
    }
}

/// Where the white space and comments that start at `i` end. A comment runs
/// from `#` to the end of its line.
pub open spec fn blank_end(text: Seq<char>, i: int, in_comment: bool) -> int
    decreases text.len() - i,
{
    if i < 0 || i >= text.len() {
        i
    } else if in_comment {
        blank_end(text, i + 1, text[i] != '\n')
    } else if is_whitespace(text[i]) {
        blank_end(text, i + 1, false)
    } else if text[i] == '#' {
        blank_end(text, i + 1, true)
    } else {
        i
    }
}

/// The token that a single reserved character stands for.
pub open spec fn punctuation(c: char) -> Option<TokenKindView> {
    if c == '=' {
        Some(TokenKindView::Assign)
    } else if c == '[' {
        Some(TokenKindView::LeftBracket)
    } else if c == ']' {
        Some(TokenKindView::RightBracket)
    } else if c == '{' {
        Some(TokenKindView::LeftBrace)
    } else if c == '}' {
        Some(TokenKindView::RightBrace)
    } else if c == '$' {
        Some(TokenKindView::Dollar)
    } else if c == ',' {
        Some(TokenKindView::Comma)
    } else if c == '~' {
        Some(TokenKindView::Tilde)
    } else {
        None
    }
}

/// The end of an unquoted string that runs from before index `i`, and whether
/// it breaks off behind a backslash. A border character goes into the string,
/// a backslash takes the next character with it whatever it is, and a space
/// goes in where a border character follows it.
pub open spec fn naked_scan(text: Seq<char>, i: int) -> (int, bool)
    decreases text.len() - i,
{
    if i < 0 || i >= text.len() {
        (i, false)
    } else if text[i] == '\\' {
        if i + 1 >= text.len() {
            (i + 1, true)
        } else {
            naked_scan(text, i + 2)
        }
    } else if is_string_border(text[i]) {
        naked_scan(text, i + 1)
    } else if text[i] == ' ' && i + 1 < text.len() && is_string_border(text[i + 1]) {
        naked_scan(text, i + 1)
    } else {
        (i, false)
    }
}

/// The number of `{` that stand in a row from index `i` on.
pub open spec fn open_run(text: Seq<char>, i: int) -> nat
    decreases text.len() - i,
{
    if 0 <= i < text.len() && text[i] == '{' {
        1 + open_run(text, i + 1)
    } else {
        0
    }
}

/// Whether a quoted string starts at `i`: a `"`, or a run of `{` with a `"`
/// directly behind it.
pub open spec fn starts_quoted(text: Seq<char>, i: int) -> bool {
    let q = i + open_run(text, i);
    0 <= i && q < text.len() && text[q] == '"'
}

/// Whether the `"` at `j` ends a string that was opened with `n` braces: `n`
/// closing braces follow it directly.
pub open spec fn closes_at(text: Seq<char>, j: int, n: nat) -> bool {
    0 <= j < text.len() && text[j] == '"' && brace_run(text, j + 1) >= n
}

/// The first index from `j` on at which a string opened with `n` braces ends.
pub open spec fn find_close(text: Seq<char>, j: int, n: nat) -> Option<int>
    decreases text.len() - j,
{
    if j < 0 || j >= text.len() {
        None
    } else if closes_at(text, j, n) {
        Some(j)
    } else {
        find_close(text, j + 1, n)
    }
}

/// The place of the characters `text[i..j]` in bytes.
pub open spec fn span_of(text: Seq<char>, i: int, j: int) -> Span {
    Span::between(byte_offset(text, i) as int, byte_offset(text, j) as int)
}

pub open spec fn lex_error(src: SourceView, i: int, msg: Seq<char>) -> ErrorView {
    ErrorView {
        kind: ErrorKind::ParseFailure,
        text: render_at(src, byte_offset(src.text, i) as int, msg),
    }
}

/// The quoted string that starts at `i`, and where it ends. Its text runs from
/// behind the opening `"` to the first `"` that as many `}` follow as `{`
/// stood before the opening one. Without braces the text is escaped, with
/// braces raw. Where no such `"` comes, the string is unterminated.
pub open spec fn quoted_at(src: SourceView, i: int) -> (Lexeme, int) {
    let text = src.text;
    let n = open_run(text, i);
    let from = i + n + 1;
    match find_close(text, from, n) {
        Some(j) => {
            let content = text.subrange(from, j);
            let kind = if n == 0 {
                TokenKindView::EscapedString(content)
            } else {
                TokenKindView::RawString(content)
            };
            (Ok(TokenView { kind, span: span_of(text, i, j + 1 + n) }), j + 1 + n)
        },
        None => (
            Err(lex_error(src, i, "Unterminated quoted string literal"@)),
            text.len() as int,
        ),
    }
}

/// The unquoted string that starts at `i`, and where it ends.
pub open spec fn naked_at(src: SourceView, i: int) -> (Lexeme, int) {
    let text = src.text;
    let (end, dangling) = naked_scan(text, i);
    if dangling {
        (
            Err(
                lex_error(src, end, "Unexpected EOF while parsing escape in string literal"@),
            ),
            end,
        )
    } else {
        (
            Ok(
                TokenView {
                    kind: TokenKindView::EscapedString(text.subrange(i, end)),
                    span: span_of(text, i, end),
                },
            ),
            end,
        )
    }
}

/// The lexeme that starts at index `i`, which holds neither white space nor
/// the start of a comment, and the index at which it ends: a quoted string, a
/// single reserved character, or an unquoted string.
pub open spec fn lexeme_at(src: SourceView, i: int) -> (Lexeme, int) {
    let text = src.text;
    if starts_quoted(text, i) {
        quoted_at(src, i)
    } else {
        match punctuation(text[i]) {
            Some(kind) => (Ok(TokenView { kind, span: span_of(text, i, i + 1) }), i + 1),
            None => naked_at(src, i),
        }
    }
}

/// The lexemes of the source from index `i` on: tokens up to the end of the
/// text, or up to and with the first error.
pub open spec fn lexemes_from(src: SourceView, i: int) -> Seq<Lexeme>
    decreases src.text.len() - i,
{
    let j = blank_end(src.text, i, false);
    if i < 0 || i >= src.text.len() || j >= src.text.len() {
        Seq::empty()
    } else {
        let lexeme = lexeme_at(src, j).0;
        let end = lexeme_at(src, j).1;
        if lexeme is Err || end <= i || end > src.text.len() {
            seq![lexeme]
        } else {
            seq![lexeme] + lexemes_from(src, end)
        }
    }
}

/// The lexemes of a source.
pub open spec fn lexemes(src: SourceView) -> Seq<Lexeme> {
    lexemes_from(src, 0)
}

pub proof fn lemma_blank_end(text: Seq<char>, i: int, in_comment: bool)
    requires
        0 <= i <= text.len(),
    ensures
        i <= blank_end(text, i, in_comment) <= text.len(),
        blank_end(text, i, in_comment) < text.len() ==> {
            let c = text[blank_end(text, i, in_comment)];
            !is_whitespace(c) && c != '#'
        },
        blank_end(text, blank_end(text, i, in_comment), false) == blank_end(text, i, in_comment),
    decreases text.len() - i,
{
    if i < text.len() {
        if in_comment {
            lemma_blank_end(text, i + 1, text[i] != '\n');
        } else if is_whitespace(text[i]) {
            lemma_blank_end(text, i + 1, false);
        } else if text[i] == '#' {
            lemma_blank_end(text, i + 1, true);
        }
    }
}

pub proof fn lemma_naked_scan(text: Seq<char>, i: int)
    requires
        0 <= i <= text.len(),
    ensures
        i <= naked_scan(text, i).0 <= text.len(),
        i < text.len() && is_string_border(text[i]) ==> i < naked_scan(text, i).0,
        naked_scan(text, i).1 ==> naked_scan(text, i).0 == text.len(),
    decreases text.len() - i,
{
    if i < text.len() {
        if text[i] == '\\' {
            if i + 1 < text.len() {
                lemma_naked_scan(text, i + 2);
            }
        } else if is_string_border(text[i]) {
            lemma_naked_scan(text, i + 1);
        } else if text[i] == ' ' && i + 1 < text.len() && is_string_border(text[i + 1]) {
            lemma_naked_scan(text, i + 1);
        }
    }
}

pub proof fn lemma_open_run(text: Seq<char>, i: int)
    requires
        0 <= i <= text.len(),
    ensures
        i + open_run(text, i) <= text.len(),
        forall|k: int| i <= k < i + open_run(text, i) ==> text[k] == '{',
        i + open_run(text, i) < text.len() ==> text[i + open_run(text, i)] != '{',
    decreases text.len() - i,
{
    if i < text.len() && text[i] == '{' {
        lemma_open_run(text, i + 1);
    }
}

pub proof fn lemma_brace_run(text: Seq<char>, i: int)
    requires
        0 <= i <= text.len(),
    ensures
        i + brace_run(text, i) <= text.len(),
        forall|k: int| i <= k < i + brace_run(text, i) ==> text[k] == '}',
        i + brace_run(text, i) < text.len() ==> text[i + brace_run(text, i)] != '}',
    decreases text.len() - i,
{
    if i < text.len() && text[i] == '}' {
        lemma_brace_run(text, i + 1);
    }
}

/// A run of `}` from `i` up to `j` is part of the run that starts at `i`.
pub proof fn lemma_brace_run_covers(text: Seq<char>, i: int, j: int)
    requires
        0 <= i <= j <= text.len(),
        forall|k: int| i <= k < j ==> text[k] == '}',
    ensures
        brace_run(text, i) == (j - i) + brace_run(text, j),
    decreases j - i,
{
    if i < j {
        lemma_brace_run_covers(text, i + 1, j);
    }
}

pub proof fn lemma_find_close(text: Seq<char>, j: int, n: nat)
    requires
        0 <= j <= text.len(),
    ensures
        match find_close(text, j, n) {
            Some(k) => j <= k < text.len() && closes_at(text, k, n) && k + 1 + n <= text.len(),
            None => true,
        },
    decreases text.len() - j,
{
    if j < text.len() {
        if closes_at(text, j, n) {
            lemma_brace_run(text, j + 1);
        } else {
            lemma_find_close(text, j + 1, n);
        }
    }
}

/// A lexeme that starts at a character which is neither white space nor `#`
/// ends behind its start.
pub proof fn lemma_lexeme_advances(src: SourceView, i: int)
    requires
        0 <= i < src.text.len(),
        !is_whitespace(src.text[i]),
        src.text[i] != '#',
    ensures
        i < lexeme_at(src, i).1 <= src.text.len(),
{
    let text = src.text;
    if starts_quoted(text, i) {
        lemma_open_run(text, i);
        lemma_find_close(text, i + open_run(text, i) + 1, open_run(text, i));
    } else if punctuation(text[i]) is None {
        lemma_open_run(text, i);
        assert(text[i] != '"');
        assert(is_string_border(text[i]));
        lemma_naked_scan(text, i);
    }
}

impl TokenKind {
    pub fn is_string(&self) -> (r: bool)
        ensures
            r == self@.is_string(),
    {
        match self {
            TokenKind::EscapedString(_) | TokenKind::RawString(_) => true,
            _ => false,
        }
    }

    /// A copy of the kind.
    pub fn duplicate(&self) -> (r: TokenKind)
        ensures
            r == *self,
    {
        match self {
            TokenKind::EscapedString(s) => TokenKind::EscapedString(s.clone()),
            TokenKind::RawString(s) => TokenKind::RawString(s.clone()),
            TokenKind::Assign => TokenKind::Assign,
            TokenKind::LeftBracket => TokenKind::LeftBracket,
            TokenKind::RightBracket => TokenKind::RightBracket,
            TokenKind::LeftBrace => TokenKind::LeftBrace,
            TokenKind::RightBrace => TokenKind::RightBrace,
            TokenKind::Dollar => TokenKind::Dollar,
            TokenKind::Comma => TokenKind::Comma,
            TokenKind::Tilde => TokenKind::Tilde,
            TokenKind::Eof => TokenKind::Eof,
        }
    }
}

impl Token {
    pub fn new(kind: TokenKind, span: Span) -> (r: Token)
        ensures
            r.kind == kind,
            r.span == span,
    {
        Token { kind, span }
    }

    /// A copy of the token.
    pub fn duplicate(&self) -> (r: Token)
        ensures
            r == *self,
    {
        Token { kind: self.kind.duplicate(), span: self.span }
    }
}

impl PartialEq for TokenKind {
    fn eq(&self, other: &TokenKind) -> (r: bool) {
        match (self, other) {
            (TokenKind::EscapedString(a), TokenKind::EscapedString(b)) => *a == *b,
            (TokenKind::RawString(a), TokenKind::RawString(b)) => *a == *b,
            (TokenKind::Assign, TokenKind::Assign) => true,
            (TokenKind::LeftBracket, TokenKind::LeftBracket) => true,
            (TokenKind::RightBracket, TokenKind::RightBracket) => true,
            (TokenKind::LeftBrace, TokenKind::LeftBrace) => true,
            (TokenKind::RightBrace, TokenKind::RightBrace) => true,
            (TokenKind::Dollar, TokenKind::Dollar) => true,
            (TokenKind::Comma, TokenKind::Comma) => true,
            (TokenKind::Tilde, TokenKind::Tilde) => true,
            (TokenKind::Eof, TokenKind::Eof) => true,
            _ => false,
        }
    }
}

impl PartialEqSpecImpl for TokenKind {
    open spec fn obeys_eq_spec() -> bool {
        true
    }

    /// Two kinds are equal where their models are.
    open spec fn eq_spec(&self, other: &TokenKind) -> bool {
        self@ == other@
    }
}

impl Clone for TokenKind {
    fn clone(&self) -> (r: TokenKind)
        ensures
            r == *self,
    {
        self.duplicate()
    }
}

impl Clone for Token {
    fn clone(&self) -> (r: Token)
        ensures
            r == *self,
    {
        self.duplicate()
    }
}

/// A copy of one slot of the lookahead.
pub fn duplicate_slot(slot: &Option<Result<Token, Error>>) -> (r: Option<Result<Token, Error>>)
    ensures
        r == *slot,
{
    match slot {
        None => None,
        Some(Ok(t)) => Some(Ok(t.duplicate())),
        Some(Err(e)) => Some(Err(e.clone())),
    }
}

/// The lexer over one source: the place it has read up to, the token it
/// stands at and the one that follows.
pub struct Lexer<'s> {
    source: &'s Source,
    /// The index of the next character to read, and its byte offset.
    idx: usize,
    pos: usize,
    cur_token: Option<Result<Token, Error>>,
    next_token: Option<Result<Token, Error>>,
}

impl<'s> Lexer<'s> {
    /// The source that is being read.
    pub closed spec fn source_view(&self) -> SourceView {
        self.source@
    }

    /// The lexeme that the lexer stands at, if any.
    pub closed spec fn cur(&self) -> Option<Lexeme> {
        slot_view(self.cur_token)
    }

    /// The lexemes that are still to come behind the current one, up to the
    /// end of the text or the first error.
    pub closed spec fn ahead(&self) -> Seq<Lexeme> {
        match self.next_token {
            None => Seq::empty(),
            Some(Err(e)) => seq![Err(e@)],
            Some(Ok(t)) => seq![Ok(t@)] + lexemes_from(self.source@, self.idx as int),
        }
    }

    /// The cursor stands in the text, and its byte offset is that of its index.
    pub closed spec fn cursor_ok(&self) -> bool {
        &&& self.idx <= self.source@.text.len()
        &&& self.pos == byte_offset(self.source@.text, self.idx as int)
    }

    /// Well-formedness: the cursor is in order, and the lookahead is empty
    /// only at the end of the lexemes.
    pub closed spec fn wf(&self) -> bool {
        &&& self.cursor_ok()
        &&& self.next_token is None ==> (self.cur_token matches Some(Err(_)) || lexemes_from(
            self.source@,
            self.idx as int,
        ) == Seq::<Lexeme>::empty())
    }

    /// The lexemes from the current one on.
    pub open spec fn stream(&self) -> Seq<Lexeme> {
        match self.cur() {
            None => self.ahead(),
            Some(Err(e)) => seq![Err(e)],
            Some(Ok(t)) => seq![Ok(t)] + self.ahead(),
        }
    }

    /// Whether the lexer stands at its first lexeme or beyond: once `next` has
    /// been called, there is a current lexeme unless none are left.
    pub open spec fn primed(&self) -> bool {
        self.cur() is None ==> self.ahead().len() == 0
    }

    pub fn get_source(&self) -> (r: &'s Source)
        ensures
            r@ == self.source_view(),
    {
        self.source
    }

    /// The lexeme that the lexer stands at.
    pub fn cur_token(&self) -> (r: &Option<Result<Token, Error>>)
        ensures
            slot_view(*r) == self.cur(),
    {
        &self.cur_token
    }

    /// The lexeme behind the current one.
    pub fn next_token(&self) -> (r: &Option<Result<Token, Error>>)
        ensures
            slot_view(*r) == if self.ahead().len() > 0 {
                Some(self.ahead()[0])
            } else {
                None::<Lexeme>
            },
    {
        &self.next_token
    }

    /// Whether `n` closing braces stand at index `a`.
    fn has_close_run(&self, a: usize, n: usize) -> (r: bool)
        requires
            a <= self.source@.text.len(),
        ensures
            r == (brace_run(self.source@.text, a as int) >= n),
    {
        let chars = self.source.chars();
        let len: usize = chars.len();
        let ghost t = self.source@.text;
        let mut m: usize = 0;
        while m < n
            invariant
                m <= n,
                a <= len,
                len == t.len(),
                t == chars@,
                t == self.source@.text,
                a + m <= len,
                forall|k: int| a <= k < a + m ==> t[k] == '}',
            decreases n - m,
        {
            if m >= len - a || chars[a + m] != '}' {
                proof {
                    lemma_brace_run_covers(t, a as int, a + m);
                    assert(brace_run(t, a + m) == 0);
                }
                return false;
            }
            m += 1;
        }
        proof {
            lemma_brace_run_covers(t, a as int, a + m);
        }
        true
    }

    /// Moves the cursor over one character.
    fn bump(&mut self)
        requires
            old(self).cursor_ok(),
            old(self).idx < old(self).source@.text.len(),
        ensures
            final(self).cursor_ok(),
            final(self).source == old(self).source,
            final(self).cur_token == old(self).cur_token,
            final(self).next_token == old(self).next_token,
            final(self).idx == old(self).idx + 1,
            final(self).pos == old(self).pos + utf8_width(
                old(self).source@.text[old(self).idx as int],
            ),
    {
        let ghost t = self.source@.text;
        self.source.offsets_fit();
        proof {
            lemma_byte_offset_step(t, self.idx as int);
            assert(byte_offset(t, self.idx + 1) <= usize::MAX);
        }
        let len: usize = self.source.len();
        let w: usize = char_width(self.source.chars()[self.idx]);
        self.pos = self.pos + w;
        self.idx = self.idx + 1;
    }

    /// The span from byte `start` up to the cursor.
    fn get_span(&self, start: usize) -> (r: Span)
        requires
            start <= self.pos,
        ensures
            r == Span::between(start as int, self.pos as int),
    {
        Span { start, len: self.pos - start }
    }

    /// Skips white space; says whether there was any.
    fn skip_whitespace(&mut self) -> (r: bool)
        requires
            old(self).cursor_ok(),
        ensures
            final(self).cursor_ok(),
            final(self).source == old(self).source,
            final(self).cur_token == old(self).cur_token,
            final(self).next_token == old(self).next_token,
            old(self).idx <= final(self).idx,
            r == (old(self).idx < final(self).idx),
            !r ==> !(old(self).idx < old(self).source@.text.len() && is_whitespace(
                old(self).source@.text[old(self).idx as int],
            )),
            blank_end(old(self).source@.text, final(self).idx as int, false) == blank_end(
                old(self).source@.text,
                old(self).idx as int,
                false,
            ),
    {
        let chars = self.source.chars();
        let len: usize = chars.len();
        let ghost t = self.source@.text;
        let start: usize = self.idx;
        self.source.offsets_fit();
        while self.idx < len && is_whitespace(chars[self.idx])
            invariant
                self.cursor_ok(),
                self.source == old(self).source,
                self.cur_token == old(self).cur_token,
                self.next_token == old(self).next_token,
                len == t.len(),
                t == chars@,
                t == self.source@.text,
                start <= self.idx <= len,
                blank_end(t, self.idx as int, false) == blank_end(t, start as int, false),
                forall|k: int| 0 <= k <= t.len() ==> #[trigger] byte_offset(t, k) <= usize::MAX,
            decreases len - self.idx,
        {
            self.bump();
        }
        self.idx > start
    }

    /// Skips a comment up to the end of its line; says whether there was one.
    fn skip_comments(&mut self) -> (r: bool)
        requires
            old(self).cursor_ok(),
        ensures
            final(self).cursor_ok(),
            final(self).source == old(self).source,
            final(self).cur_token == old(self).cur_token,
            final(self).next_token == old(self).next_token,
            old(self).idx <= final(self).idx,
            r == (old(self).idx < final(self).idx),
            !r ==> !(old(self).idx < old(self).source@.text.len() && old(self).source@.text[old(
                self,
            ).idx as int] == '#'),
            blank_end(old(self).source@.text, final(self).idx as int, false) == blank_end(
                old(self).source@.text,
                old(self).idx as int,
                false,
            ),
    {
        let chars = self.source.chars();
        let len: usize = chars.len();
        let ghost t = self.source@.text;
        let ghost start = self.idx;
        self.source.offsets_fit();
        if !(self.idx < len && chars[self.idx] == '#') {
            return false;
        }
        self.bump();
        while self.idx < len && chars[self.idx] != '\n'
            invariant
                self.cursor_ok(),
                self.source == old(self).source,
                self.cur_token == old(self).cur_token,
                self.next_token == old(self).next_token,
                len == t.len(),
                t == chars@,
                t == self.source@.text,
                start < self.idx <= len,
                blank_end(t, self.idx as int, true) == blank_end(t, start as int, false),
                forall|k: int| 0 <= k <= t.len() ==> #[trigger] byte_offset(t, k) <= usize::MAX,
            decreases len - self.idx,
        {
            self.bump();
        }
        proof {
            // The newline that ends the comment is white space.
            if self.idx < len {
                assert(blank_end(t, self.idx as int, true) == blank_end(t, self.idx + 1, false));
                assert(blank_end(t, self.idx as int, false) == blank_end(t, self.idx + 1, false));
            }
        }
        true
    }

    /// Reads an unquoted string, if one starts here.
    fn eat_string(&mut self) -> (r: Option<Result<Token, Error>>)
        requires
            old(self).cursor_ok(),
        ensures
            final(self).cursor_ok(),
            final(self).source == old(self).source,
            final(self).cur_token == old(self).cur_token,
            final(self).next_token == old(self).next_token,
            ({
                let t = old(self).source@.text;
                let i = old(self).idx as int;
                match r {
                    None => !(i < t.len() && is_string_border(t[i])) && final(self).idx == i,
                    Some(res) => {
                        &&& i < t.len() && is_string_border(t[i])
                        &&& slot_view(r) == Some(naked_at(old(self).source@, i).0)
                        &&& res is Ok ==> final(self).idx == naked_at(old(self).source@, i).1
                    },
                }
            }),
    {
        let chars = self.source.chars();
        let len: usize = chars.len();
        let ghost t = self.source@.text;
        let start: usize = self.idx;
        let start_pos: usize = self.pos;
        self.source.offsets_fit();
        if !(start < len && is_string_border(chars[start])) {
            return None;
        }
        let mut i: usize = start;
        let mut p: usize = start_pos;
        let mut dangling = false;
        loop
            invariant_except_break
                !dangling,
                naked_scan(t, i as int) == naked_scan(t, start as int),
            invariant
                len == t.len(),
                t == chars@,
                t == self.source@.text,
                start <= i <= len,
                p == byte_offset(t, i as int),
                forall|k: int| 0 <= k <= t.len() ==> #[trigger] byte_offset(t, k) <= usize::MAX,
            ensures
                (i as int, dangling) == naked_scan(t, start as int),
            decreases len - i,
        {
            if i >= len {
                break;
            }
            let c = chars[i];
            proof {
                lemma_byte_offset_step(t, i as int);
                assert(byte_offset(t, i + 1) <= usize::MAX);
            }
            if c == '\\' {
                if i + 1 >= len {
                    p = p + 1;
                    i = i + 1;
                    dangling = true;
                    break;
                }
                proof {
                    lemma_byte_offset_step(t, i + 1);
                    assert(byte_offset(t, i + 2) <= usize::MAX);
                }
                let w: usize = char_width(chars[i + 1]);
                p = p + 1 + w;
                i = i + 2;
            } else if is_string_border(c) {
                let w: usize = char_width(c);
                p = p + w;
                i = i + 1;
            } else if c == ' ' && i + 1 < len && is_string_border(chars[i + 1]) {
                p = p + 1;
                i = i + 1;
            } else {
                break;
            }
        }
        if dangling {
            return Some(
                Err(
                    Error::from_pos(
                        p,
                        Some(self.source),
                        ErrorKind::ParseFailure,
                        "Unexpected EOF while parsing escape in string literal",
                    ),
                ),
            );
        }
        proof {
            lemma_byte_offset_monotonic(t, start as int, i as int);
        }
        let content = string_of(chars, start, i);
        let span = Span { start: start_pos, len: p - start_pos };
        self.idx = i;
        self.pos = p;
        Some(Ok(Token::new(TokenKind::EscapedString(content), span)))
    }

    /// Reads a quoted string, if one starts here.
    fn eat_raw_string(&mut self) -> (r: Option<Result<Token, Error>>)
        requires
            old(self).cursor_ok(),
        ensures
            final(self).cursor_ok(),
            final(self).source == old(self).source,
            final(self).cur_token == old(self).cur_token,
            final(self).next_token == old(self).next_token,
            ({
                let t = old(self).source@.text;
                let i = old(self).idx as int;
                match r {
                    None => !starts_quoted(t, i) && final(self).idx == i,
                    Some(res) => {
                        &&& starts_quoted(t, i)
                        &&& slot_view(r) == Some(quoted_at(old(self).source@, i).0)
                        &&& res is Ok ==> final(self).idx == quoted_at(old(self).source@, i).1
                    },
                }
            }),
    {
        let chars = self.source.chars();
        let len: usize = chars.len();
        let ghost t = self.source@.text;
        let start: usize = self.idx;
        let start_pos: usize = self.pos;
        self.source.offsets_fit();
        // The braces before the opening quote.
        let mut q: usize = start;
        let mut p: usize = start_pos;
        while q < len && chars[q] == '{'
            invariant
                len == t.len(),
                t == chars@,
                start <= q <= len,
                p == byte_offset(t, q as int),
                open_run(t, start as int) == (q - start) + open_run(t, q as int),
                forall|k: int| 0 <= k <= t.len() ==> #[trigger] byte_offset(t, k) <= usize::MAX,
            decreases len - q,
        {
            proof {
                lemma_byte_offset_step(t, q as int);
                assert(byte_offset(t, q + 1) <= usize::MAX);
            }
            p = p + 1;
            q = q + 1;
        }
        if !(q < len && chars[q] == '"') {
            return None;
        }
        let n: usize = q - start;
        proof {
            lemma_byte_offset_step(t, q as int);
            assert(byte_offset(t, q + 1) <= usize::MAX);
        }
        let from: usize = q + 1;
        let mut j: usize = from;
        p = p + 1;
        let mut found = false;
        while j < len
            invariant_except_break
                !found,
            invariant
                len == t.len(),
                t == chars@,
                t == self.source@.text,
                from <= j <= len,
                p == byte_offset(t, j as int),
                find_close(t, j as int, n as nat) == find_close(t, from as int, n as nat),
                forall|k: int| 0 <= k <= t.len() ==> #[trigger] byte_offset(t, k) <= usize::MAX,
            ensures
                found ==> j < len && closes_at(t, j as int, n as nat),
                !found ==> j == len,
            decreases len - j,
        {
            if chars[j] == '"' && self.has_close_run(j + 1, n) {
                found = true;
                break;
            }
            proof {
                lemma_byte_offset_step(t, j as int);
                assert(byte_offset(t, j + 1) <= usize::MAX);
            }
            let w: usize = char_width(chars[j]);
            p = p + w;
            j = j + 1;
        }
        if !found {
            return Some(
                Err(
                    Error::from_pos(
                        start_pos,
                        Some(self.source),
                        ErrorKind::ParseFailure,
                        "Unterminated quoted string literal",
                    ),
                ),
            );
        }
        proof {
            lemma_find_close(t, from as int, n as nat);
            lemma_brace_run(t, j + 1);
            lemma_byte_offset_monotonic(t, start as int, j + 1 + n);
            // The closing quote and braces take one byte each.
            assert forall|k: int| j <= k < j + 1 + n implies utf8_width(#[trigger] t[k]) == 1 by {
                assert(k == j || t[k] == '}');
            }
            lemma_ascii_run(t, j as int, j + 1 + n);
            assert(byte_offset(t, j + 1 + n) <= usize::MAX);
        }
        let content = string_of(chars, from, j);
        let end: usize = j + 1 + n;
        let end_pos: usize = p + 1 + n;
        let span = Span { start: start_pos, len: end_pos - start_pos };
        self.idx = end;
        self.pos = end_pos;
        if n == 0 {
            Some(Ok(Token::new(TokenKind::EscapedString(content), span)))
        } else {
            Some(Ok(Token::new(TokenKind::RawString(content), span)))
        }
    }

    /// Reads a token of one reserved character, if one stands here.
    fn eat_char_tokens(&mut self) -> (r: Option<Result<Token, Error>>)
        requires
            old(self).cursor_ok(),
        ensures
            final(self).cursor_ok(),
            final(self).source == old(self).source,
            final(self).cur_token == old(self).cur_token,
            final(self).next_token == old(self).next_token,
            ({
                let t = old(self).source@.text;
                let i = old(self).idx as int;
                match r {
                    None => !(i < t.len() && punctuation(t[i]) is Some) && final(self).idx == i,
                    Some(res) => {
                        &&& i < t.len()
                        &&& punctuation(t[i]) is Some
                        &&& res matches Ok(tok)
                        &&& tok@ == (TokenView {
                            kind: punctuation(t[i])->0,
                            span: span_of(t, i, i + 1),
                        })
                        &&& final(self).idx == i + 1
                    },
                }
            }),
    {
        let chars = self.source.chars();
        let len: usize = chars.len();
        let ghost t = self.source@.text;
        if self.idx >= len {
            return None;
        }
        let c = chars[self.idx];
        let kind = if c == '=' {
            TokenKind::Assign
        } else if c == '[' {
            TokenKind::LeftBracket
        } else if c == ']' {
            TokenKind::RightBracket
        } else if c == '{' {
            TokenKind::LeftBrace
        } else if c == '}' {
            TokenKind::RightBrace
        } else if c == '$' {
            TokenKind::Dollar
        } else if c == ',' {
            TokenKind::Comma
        } else if c == '~' {
            TokenKind::Tilde
        } else {
            return None;
        };
        let start: usize = self.pos;
        self.bump();
        Some(Ok(Token::new(kind, self.get_span(start))))
    }

    /// Skips white space and comments, then reads the lexeme that follows, if
    /// the text goes on.
    fn scan(&mut self) -> (r: Option<Result<Token, Error>>)
        requires
            old(self).cursor_ok(),
        ensures
            final(self).cursor_ok(),
            final(self).source == old(self).source,
            final(self).cur_token == old(self).cur_token,
            final(self).next_token == old(self).next_token,
            match r {
                None => lexemes_from(old(self).source@, old(self).idx as int) == Seq::<Lexeme>::empty()
                    && lexemes_from(old(self).source@, final(self).idx as int) == Seq::<
                    Lexeme,
                >::empty(),
                Some(Err(e)) => lexemes_from(old(self).source@, old(self).idx as int) == seq![
                    Err::<TokenView, ErrorView>(e@),
                ],
                Some(Ok(tok)) => lexemes_from(old(self).source@, old(self).idx as int) == seq![
                    Ok::<TokenView, ErrorView>(tok@),
                ] + lexemes_from(old(self).source@, final(self).idx as int),
            },
    {
        let ghost t = self.source@.text;
        let ghost start = self.idx as int;
        loop
            invariant
                self.cursor_ok(),
                self.source == old(self).source,
                self.cur_token == old(self).cur_token,
                self.next_token == old(self).next_token,
                t == self.source@.text,
                start <= self.idx,
                blank_end(t, self.idx as int, false) == blank_end(t, start, false),
            ensures
                blank_end(t, start, false) == self.idx,
            decreases t.len() - self.idx,
        {
            if !self.skip_whitespace() {
                if !self.skip_comments() {
                    proof {
                        lemma_blank_end(t, self.idx as int, false);
                        let i = self.idx as int;
                        if i < t.len() {
                            assert(!is_whitespace(t[i]) && t[i] != '#');
                        }
                    }
                    break;
                }
            }
        }
        let ghost j = self.idx as int;
        proof {
            lemma_blank_end(t, start, false);
            lemma_blank_end(t, j, false);
            if j < t.len() {
                lemma_lexeme_advances(self.source@, j);
            }
        }
        if self.idx >= self.source.len() {
            return None;
        }
        match self.eat_raw_string() {
            Some(r) => Some(r),
            None => match self.eat_char_tokens() {
                Some(r) => Some(r),
                None => {
                    proof {
                        lemma_open_run(t, j);
                        assert(t[j] != '"');
                        assert(is_string_border(t[j]));
                    }
                    self.eat_string()
                },
            },
        }
    }

    /// The lexer at the start of `source`. It stands before the first lexeme:
    /// the first call of `next` moves to it.
    pub fn new(source: &'s Source) -> (r: Lexer<'s>)
        ensures
            r.wf(),
            r.source_view() == source@,
            r.cur() is None,
            r.ahead() == lexemes(source@),
    {
        let mut lexer = Lexer { source, idx: 0, pos: 0, cur_token: None, next_token: None };
        let first = lexer.scan();
        lexer.next_token = first;
        lexer
    }

    /// Moves to the next lexeme and returns a copy of it; nothing at the end
    /// of the text. Once the lexer stands at an error, it stays there.
    pub fn next(&mut self) -> (r: Option<Result<Token, Error>>)
        requires
            old(self).wf(),
        ensures
            final(self).wf(),
            final(self).primed(),
            final(self).source_view() == old(self).source_view(),
            slot_view(r) == final(self).cur(),
            old(self).cur() matches Some(Err(_)) ==> final(self).cur() == old(self).cur()
                && final(self).ahead() == old(self).ahead(),
            old(self).cur() matches Some(Ok(_)) ==> final(self).stream() == old(
                self,
            ).stream().drop_first(),
            old(self).cur() is None ==> final(self).stream() == old(self).ahead(),
            !(old(self).cur() matches Some(Err(_))) ==> {
                &&& final(self).cur() == if old(self).ahead().len() > 0 {
                    Some(old(self).ahead()[0])
                } else {
                    None::<Lexeme>
                }
                &&& final(self).ahead() == if old(self).ahead().len() > 0 {
                    old(self).ahead().drop_first()
                } else {
                    Seq::<Lexeme>::empty()
                }
            },
    {
        let stuck = match &self.cur_token {
            Some(Err(_)) => true,
            _ => false,
        };
        if !stuck {
            let ahead = self.next_token.take();
            let failed = match &ahead {
                Some(Err(_)) => true,
                _ => false,
            };
            self.cur_token = ahead;
            if !failed {
                let following = self.scan();
                self.next_token = following;
            }
        }
        proof {
            if old(self).cur() matches Some(Ok(t)) {
                assert(old(self).stream().drop_first() =~= old(self).ahead());
                assert(self.stream() =~= old(self).ahead());
            }
            if old(self).cur() is None {
                assert(self.stream() =~= old(self).ahead());
            }
        }
        duplicate_slot(&self.cur_token)
    }
}

/// Characters of one byte each move the byte offset by their number.
proof fn lemma_ascii_run(text: Seq<char>, i: int, j: int)
    requires
        0 <= i <= j <= text.len(),
        forall|k: int| i <= k < j ==> utf8_width(#[trigger] text[k]) == 1,
    ensures
        byte_offset(text, j) == byte_offset(text, i) + (j - i),
    decreases j - i,
{
    if i < j {
        lemma_ascii_run(text, i, j - 1);
    }
}

} // verus!
