//! The grammar.
//!
//! ```text
//! document        := table_contents END
//! table_contents  := ( table_element (',')? )*
//! table_element   := STRING ( '=' rhs | table | tagged_table )
//! rhs             := array | tagged_array | tagged_table | string_expr
//! array_contents  := ( array_element (',')? )*
//! array_element   := string_expr | table | array | tagged_table | tagged_array
//! string_expr     := fragment ( '~' fragment )*
//! fragment        := STRING | '$' STRING
//! tagged_table    := STRING table
//! tagged_array    := STRING array
//! ```
//!
//! A string that `{` or `[` follows directly is a tag, never a value.

use vstd::prelude::*;
use crate::config_string::{string_of_token, ConfigString, ConfigStringView};
use crate::error::{render_span, Error, ErrorKind, ErrorView};
use crate::lexer::{duplicate_slot, lexemes, Lexeme, Lexer, Token, TokenKind, TokenView};
use crate::source::{Source, SourceView};
use crate::span::Span;
use crate::visitor::{Event, Visitor};

verus! {

/// How one rule of the grammar went.
pub enum Step<S> {
    /// The rule matched: the lexemes that are left and the visitor's state.
    Matched(Seq<Lexeme>, S),
    /// The rule does not start here. Nothing was read and the visitor was
    /// not called.
    Absent,
    /// The lexer, the grammar or the visitor failed.
    Failed(ErrorView),
}

/// The first lexeme, if any is left.
pub open spec fn head(toks: Seq<Lexeme>) -> Option<Lexeme> {
    if toks.len() > 0 {
        Some(toks[0])
    } else {
        None
    }
}

/// The error of the grammar at `span` with message `msg`.
pub open spec fn syntax_error(src: SourceView, span: Span, msg: Seq<char>) -> ErrorView {
    ErrorView { kind: ErrorKind::ParseFailure, text: render_span(src, span, msg) }
}

/// The name of an element of an array.
pub open spec fn unnamed() -> ConfigStringView {
    ConfigStringView { raw: true, content: Seq::empty(), span: Span::invalid() }
}

/// What is said where a table or array does not close.
pub open spec fn closing_message(is_table: bool, after_comma: bool) -> Seq<char> {
    if is_table {
        if after_comma {
            "Expected '}' or a string"@
        } else {
            "Expected '}', ',' or a string"@
        }
    } else {
        if after_comma {
            "Expected ']' or a string"@
        } else {
            "Expected ']', ',' or a string"@
        }
    }
}

/// `string_expr`, with the place of the `~` that came before, if one did.
pub open spec fn string_expr<V: Visitor>(
    src: SourceView,
    toks: Seq<Lexeme>,
    st: V::State,
    last: Option<Span>,
) -> Step<V::State>
    decreases toks.len(), 0nat,
{
    match head(toks) {
        None => match last {
            Some(span) => Step::Failed(
                syntax_error(src, span, "Expected a string or '$' to follow, but got EOF"@),
            ),
            None => Step::Absent,
        },
        Some(Err(e)) => Step::Failed(e),
        Some(Ok(t)) => {
            let taken: Step<V::State> = if t.kind.is_string() {
                match V::accept(st, src, Event::AppendString(string_of_token(t))) {
                    Ok(s) => Step::Matched(toks.drop_first(), s),
                    Err(e) => Step::Failed(e),
                }
            } else if t.kind is Dollar {
                match head(toks.drop_first()) {
                    None => Step::Failed(
                        syntax_error(src, t.span, "Expected a string to follow, but got EOF"@),
                    ),
                    Some(Err(e)) => Step::Failed(e),
                    Some(Ok(name)) => if name.kind.is_string() {
                        match V::accept(st, src, Event::Expand(string_of_token(name))) {
                            Ok(s) => Step::Matched(toks.skip(2), s),
                            Err(e) => Step::Failed(e),
                        }
                    } else {
                        Step::Failed(syntax_error(src, name.span, "Expected a string"@))
                    },
                }
            } else {
                match last {
                    Some(span) => Step::Failed(
                        syntax_error(src, span, "Expected a string or '$' to follow, but got EOF"@),
                    ),
                    None => Step::Absent,
                }
            };
            match taken {
                Step::Matched(rest, s) => match head(rest) {
                    None => Step::Matched(rest, s),
                    Some(Err(e)) => Step::Failed(e),
                    Some(Ok(tilde)) => if tilde.kind is Tilde && rest.len() <= toks.len() {
                        string_expr::<V>(src, rest.drop_first(), s, Some(tilde.span))
                    } else {
                        Step::Matched(rest, s)
                    },
                },
                other => other,
            }
        },
    }
}

/// What follows the contents of a table or array: the closing bracket.
pub open spec fn closing<S>(
    src: SourceView,
    open: Span,
    rest: Seq<Lexeme>,
    st: S,
    is_table: bool,
) -> Step<S> {
    match head(rest) {
        None => Step::Failed(
            syntax_error(
                src,
                open,
                if is_table {
                    "Unterminated table"@
                } else {
                    "Unterminated array"@
                },
            ),
        ),
        Some(Err(e)) => Step::Failed(e),
        Some(Ok(t)) => if (is_table && t.kind is RightBrace) || (!is_table && t.kind
            is RightBracket) {
            Step::Matched(rest.drop_first(), st)
        } else {
            Step::Failed(syntax_error(src, t.span, closing_message(is_table, t.kind is Comma)))
        },
    }
}

/// `table`; with `is_tagged` the visitor has been told of the table already.
pub open spec fn table<V: Visitor>(
    src: SourceView,
    toks: Seq<Lexeme>,
    st: V::State,
    is_tagged: bool,
) -> Step<V::State>
    decreases toks.len(), 0nat,
{
    match head(toks) {
        None => Step::Absent,
        Some(Err(e)) => Step::Failed(e),
        Some(Ok(t)) => if !(t.kind is LeftBrace) {
            Step::Absent
        } else {
            let told = if is_tagged {
                Ok(st)
            } else {
                V::accept(st, src, Event::SetTable(t.span))
            };
            match told {
                Err(e) => Step::Failed(e),
                Ok(s) => match table_contents::<V>(src, toks.drop_first(), s) {
                    Ok((rest, s2)) => closing(src, t.span, rest, s2, true),
                    Err(e) => Step::Failed(e),
                },
            }
        },
    }
}

/// `array`; with `is_tagged` the visitor has been told of the array already.
pub open spec fn array<V: Visitor>(
    src: SourceView,
    toks: Seq<Lexeme>,
    st: V::State,
    is_tagged: bool,
) -> Step<V::State>
    decreases toks.len(), 0nat,
{
    match head(toks) {
        None => Step::Absent,
        Some(Err(e)) => Step::Failed(e),
        Some(Ok(t)) => if !(t.kind is LeftBracket) {
            Step::Absent
        } else {
            let told = if is_tagged {
                Ok(st)
            } else {
                V::accept(st, src, Event::SetArray(t.span))
            };
            match told {
                Err(e) => Step::Failed(e),
                Ok(s) => match array_contents::<V>(src, toks.drop_first(), s) {
                    Ok((rest, s2)) => closing(src, t.span, rest, s2, false),
                    Err(e) => Step::Failed(e),
                },
            }
        },
    }
}

/// `tagged_table`: a string with `{` directly behind it, then the table.
pub open spec fn tagged_table<V: Visitor>(
    src: SourceView,
    toks: Seq<Lexeme>,
    st: V::State,
) -> Step<V::State>
    decreases toks.len(), 1nat,
{
    match head(toks) {
        None => Step::Absent,
        Some(Err(e)) => Step::Failed(e),
        Some(Ok(tag)) => if !tag.kind.is_string() {
            Step::Absent
        } else {
            match head(toks.drop_first()) {
                None => Step::Absent,
                Some(Err(e)) => Step::Failed(e),
                Some(Ok(brace)) => if !(brace.kind is LeftBrace) {
                    Step::Absent
                } else {
                    match V::accept(st, src, Event::SetTaggedTable(tag.span, string_of_token(tag))) {
                        Err(e) => Step::Failed(e),
                        Ok(s) => table::<V>(src, toks.drop_first(), s, true),
                    }
                },
            }
        },
    }
}

/// `tagged_array`: a string with `[` directly behind it, then the array.
pub open spec fn tagged_array<V: Visitor>(
    src: SourceView,
    toks: Seq<Lexeme>,
    st: V::State,
) -> Step<V::State>
    decreases toks.len(), 1nat,
{
    match head(toks) {
        None => Step::Absent,
        Some(Err(e)) => Step::Failed(e),
        Some(Ok(tag)) => if !tag.kind.is_string() {
            Step::Absent
        } else {
            match head(toks.drop_first()) {
                None => Step::Absent,
                Some(Err(e)) => Step::Failed(e),
                Some(Ok(bracket)) => if !(bracket.kind is LeftBracket) {
                    Step::Absent
                } else {
                    match V::accept(st, src, Event::SetTaggedArray(tag.span, string_of_token(tag))) {
                        Err(e) => Step::Failed(e),
                        Ok(s) => array::<V>(src, toks.drop_first(), s, true),
                    }
                },
            }
        },
    }
}

/// The first of the steps that is not absent.
pub open spec fn first_of<S>(a: Step<S>, b: Step<S>) -> Step<S> {
    match a {
        Step::Absent => b,
        _ => a,
    }
}

/// `rhs`: what may stand behind `=`.
pub open spec fn rhs<V: Visitor>(
    src: SourceView,
    assign: Span,
    toks: Seq<Lexeme>,
    st: V::State,
) -> Step<V::State>
    decreases toks.len(), 2nat,
{
    let found = first_of(
        array::<V>(src, toks, st, false),
        first_of(
            tagged_array::<V>(src, toks, st),
            first_of(tagged_table::<V>(src, toks, st), string_expr::<V>(src, toks, st, None)),
        ),
    );
    match found {
        Step::Absent => match head(toks) {
            None => Step::Failed(
                syntax_error(src, assign, "Expected '[' or a string to follow, but got EOF"@),
            ),
            Some(Err(e)) => Step::Failed(e),
            Some(Ok(t)) => Step::Failed(syntax_error(src, t.span, "Expected '[' or a string"@)),
        },
        _ => found,
    }
}

/// The end of an element: the visitor is told, whatever the source.
pub open spec fn ended<V: Visitor>(src: SourceView, step: Step<V::State>) -> Step<V::State> {
    match step {
        Step::Matched(rest, s) => match V::accept(s, src, Event::EndElement) {
            Ok(s2) => Step::Matched(rest, s2),
            Err(e) => Step::Failed(e),
        },
        other => other,
    }
}

/// `table_element`: a name, then `=` and a value, or a table, plain or tagged.
pub open spec fn table_element<V: Visitor>(
    src: SourceView,
    toks: Seq<Lexeme>,
    st: V::State,
) -> Step<V::State>
    decreases toks.len(), 3nat,
{
    match head(toks) {
        None => Step::Absent,
        Some(Err(e)) => Step::Failed(e),
        Some(Ok(name)) => if !name.kind.is_string() {
            Step::Absent
        } else {
            match V::accept(st, src, Event::StartElement(string_of_token(name))) {
                Err(e) => Step::Failed(e),
                Ok(s) => {
                    let rest = toks.drop_first();
                    match head(rest) {
                        None => Step::Failed(
                            syntax_error(
                                src,
                                name.span,
                                "Expected '=' or '{' to follow, but got EOF"@,
                            ),
                        ),
                        Some(Err(e)) => Step::Failed(e),
                        Some(Ok(t)) => if t.kind is Assign {
                            ended::<V>(src, rhs::<V>(src, t.span, rest.drop_first(), s))
                        } else {
                            let found = first_of(
                                table::<V>(src, rest, s, false),
                                tagged_table::<V>(src, rest, s),
                            );
                            match found {
                                Step::Absent => Step::Failed(
                                    syntax_error(src, t.span, "Expected '=' or '{'"@),
                                ),
                                _ => ended::<V>(src, found),
                            }
                        },
                    }
                },
            }
        },
    }
}

/// `table_contents`: elements, each with a comma behind it or without. The
/// lexemes that are left behind them and the visitor's state, or the first
/// error.
pub open spec fn table_contents<V: Visitor>(
    src: SourceView,
    toks: Seq<Lexeme>,
    st: V::State,
) -> Result<(Seq<Lexeme>, V::State), ErrorView>
    decreases toks.len(), 4nat,
{
    match table_element::<V>(src, toks, st) {
        Step::Failed(e) => Err(e),
        Step::Absent => Ok((toks, st)),
        Step::Matched(rest, s) => match head(rest) {
            None => Ok((rest, s)),
            Some(Err(e)) => Err(e),
            Some(Ok(t)) => {
                let rest2 = if t.kind is Comma {
                    rest.drop_first()
                } else {
                    rest
                };
                if rest2.len() < toks.len() {
                    table_contents::<V>(src, rest2, s)
                } else {
                    Ok((rest2, s))
                }
            },
        },
    }
}

/// `array_element`: an element without a name.
pub open spec fn array_element<V: Visitor>(
    src: SourceView,
    toks: Seq<Lexeme>,
    st: V::State,
) -> Step<V::State>
    decreases toks.len(), 3nat,
{
    match head(toks) {
        None => Step::Absent,
        Some(Err(e)) => Step::Failed(e),
        Some(Ok(t)) => if t.kind.is_string() || t.kind is Dollar || t.kind is LeftBrace || t.kind
            is LeftBracket {
            match V::accept(st, src, Event::StartElement(unnamed())) {
                Err(e) => Step::Failed(e),
                Ok(s) => if t.kind is LeftBrace {
                    ended::<V>(src, table::<V>(src, toks, s, false))
                } else if t.kind is LeftBracket {
                    ended::<V>(src, array::<V>(src, toks, s, false))
                } else {
                    ended::<V>(
                        src,
                        first_of(
                            tagged_array::<V>(src, toks, s),
                            first_of(
                                tagged_table::<V>(src, toks, s),
                                string_expr::<V>(src, toks, s, None),
                            ),
                        ),
                    )
                },
            }
        } else {
            Step::Absent
        },
    }
}

/// `array_contents`: elements, each with a comma behind it or without. The
/// lexemes that are left behind them and the visitor's state, or the first
/// error.
pub open spec fn array_contents<V: Visitor>(
    src: SourceView,
    toks: Seq<Lexeme>,
    st: V::State,
) -> Result<(Seq<Lexeme>, V::State), ErrorView>
    decreases toks.len(), 4nat,
{
    match array_element::<V>(src, toks, st) {
        Step::Failed(e) => Err(e),
        Step::Absent => Ok((toks, st)),
        Step::Matched(rest, s) => match head(rest) {
            None => Ok((rest, s)),
            Some(Err(e)) => Err(e),
            Some(Ok(t)) => {
                let rest2 = if t.kind is Comma {
                    rest.drop_first()
                } else {
                    rest
                };
                if rest2.len() < toks.len() {
                    array_contents::<V>(src, rest2, s)
                } else {
                    Ok((rest2, s))
                }
            },
        },
    }
}

/// `document`: the contents of the root table, then the end of the text. The
/// state of the visitor after the last event, or the first error.
pub open spec fn document<V: Visitor>(src: SourceView, toks: Seq<Lexeme>, st: V::State) -> Result<
    V::State,
    ErrorView,
> {
    match table_contents::<V>(src, toks, st) {
        Err(e) => Err(e),
        Ok((rest, s)) => match head(rest) {
            None => Ok(s),
            Some(Err(e)) => Err(e),
            Some(Ok(t)) => Err(syntax_error(src, t.span, "Expected a string"@)),
        },
    }
}

/// What parsing the text of `src` does to a visitor in state `st`.
pub open spec fn parse<V: Visitor>(src: SourceView, st: V::State) -> Result<V::State, ErrorView> {
    document::<V>(src, lexemes(src), st)
}

/// A string expression that has begun, or that starts with a string or `$`,
/// is there: it matches or fails.
pub proof fn lemma_string_expr_present<V: Visitor>(
    src: SourceView,
    toks: Seq<Lexeme>,
    st: V::State,
    last: Option<Span>,
)
    requires
        last is Some || (head(toks) matches Some(Ok(t)) && (t.kind.is_string() || t.kind
            is Dollar)),
    ensures
        !(string_expr::<V>(src, toks, st, last) is Absent),
    decreases toks.len(),
{
    if let Some(Ok(t)) = head(toks) {
        if t.kind.is_string() {
            if let Ok(s) = V::accept(st, src, Event::AppendString(string_of_token(t))) {
                let rest = toks.drop_first();
                if let Some(Ok(tilde)) = head(rest) {
                    if tilde.kind is Tilde {
                        lemma_string_expr_present::<V>(src, rest.drop_first(), s, Some(tilde.span));
                    }
                }
            }
        } else if t.kind is Dollar {
            if let Some(Ok(name)) = head(toks.drop_first()) {
                if name.kind.is_string() {
                    if let Ok(s) = V::accept(st, src, Event::Expand(string_of_token(name))) {
                        let rest = toks.skip(2);
                        if let Some(Ok(tilde)) = head(rest) {
                            if tilde.kind is Tilde {
                                lemma_string_expr_present::<V>(
                                    src,
                                    rest.drop_first(),
                                    s,
                                    Some(tilde.span),
                                );
                            }
                        }
                    }
                }
            }
        }
    }
}

/// An executable step went as the grammar says: `r`, the lexemes that are
/// left and the visitor's state are those of `step`.
pub open spec fn stepped<S>(
    step: Step<S>,
    r: Result<bool, Error>,
    toks0: Seq<Lexeme>,
    st0: S,
    toks1: Seq<Lexeme>,
    st1: S,
) -> bool {
    match step {
        Step::Matched(rest, st) => r == Ok::<bool, Error>(true) && toks1 == rest && st1 == st
            && rest.len() < toks0.len(),
        Step::Absent => r == Ok::<bool, Error>(false) && toks1 == toks0 && st1 == st0,
        Step::Failed(e) => r is Err && r->Err_0@ == e,
    }
}

/// The contents of a table or array were read as the grammar says.
pub open spec fn read_contents<S>(
    expected: Result<(Seq<Lexeme>, S), ErrorView>,
    r: Result<(), Error>,
    toks0: Seq<Lexeme>,
    toks1: Seq<Lexeme>,
    st1: S,
) -> bool {
    match expected {
        Ok((rest, st)) => r is Ok && toks1 == rest && st1 == st && rest.len() <= toks0.len(),
        Err(e) => r is Err && r->Err_0@ == e,
    }
}

impl TokenKind {
    fn is_assign(&self) -> (r: bool)
        ensures
            r == (self@ is Assign),
    {
        match self {
            TokenKind::Assign => true,
            _ => false,
        }
    }

    fn is_left_bracket(&self) -> (r: bool)
        ensures
            r == (self@ is LeftBracket),
    {
        match self {
            TokenKind::LeftBracket => true,
            _ => false,
        }
    }

    fn is_right_bracket(&self) -> (r: bool)
        ensures
            r == (self@ is RightBracket),
    {
        match self {
            TokenKind::RightBracket => true,
            _ => false,
        }
    }

    fn is_left_brace(&self) -> (r: bool)
        ensures
            r == (self@ is LeftBrace),
    {
        match self {
            TokenKind::LeftBrace => true,
            _ => false,
        }
    }

    fn is_right_brace(&self) -> (r: bool)
        ensures
            r == (self@ is RightBrace),
    {
        match self {
            TokenKind::RightBrace => true,
            _ => false,
        }
    }

    fn is_dollar(&self) -> (r: bool)
        ensures
            r == (self@ is Dollar),
    {
        match self {
            TokenKind::Dollar => true,
            _ => false,
        }
    }

    fn is_comma(&self) -> (r: bool)
        ensures
            r == (self@ is Comma),
    {
        match self {
            TokenKind::Comma => true,
            _ => false,
        }
    }

    fn is_tilde(&self) -> (r: bool)
        ensures
            r == (self@ is Tilde),
    {
        match self {
            TokenKind::Tilde => true,
            _ => false,
        }
    }
}

/// The grammar at work on one source.
struct Parser<'s> {
    lexer: Lexer<'s>,
}

impl<'s> Parser<'s> {
    spec fn ok(&self) -> bool {
        self.lexer.wf() && self.lexer.primed()
    }

    spec fn src(&self) -> SourceView {
        self.lexer.source_view()
    }

    spec fn toks(&self) -> Seq<Lexeme> {
        self.lexer.stream()
    }

    /// A copy of the lexeme at `slot`, the lexer's error as this parser's.
    fn look(slot: &Option<Result<Token, Error>>) -> (r: Result<Option<Token>, Error>)
        ensures
            match *slot {
                None => r == Ok::<Option<Token>, Error>(None),
                Some(Ok(t)) => r == Ok::<Option<Token>, Error>(Some(t)),
                Some(Err(e)) => r is Err && r->Err_0@ == e@,
            },
    {
        match duplicate_slot(slot) {
            None => Ok(None),
            Some(Ok(t)) => Ok(Some(t)),
            Some(Err(e)) => Err(Error::new(e.kind, e.text)),
        }
    }

    /// The current token.
    fn peek(&self) -> (r: Result<Option<Token>, Error>)
        requires
            self.ok(),
        ensures
            match head(self.toks()) {
                None => r == Ok::<Option<Token>, Error>(None),
                Some(Ok(t)) => r is Ok && r->Ok_0 is Some && r->Ok_0->0@ == t,
                Some(Err(e)) => r is Err && r->Err_0@ == e,
            },
    {
        Self::look(self.lexer.cur_token())
    }

    /// The token behind the current one.
    fn peek_next(&self) -> (r: Result<Option<Token>, Error>)
        requires
            self.ok(),
            head(self.toks()) matches Some(Ok(_)),
        ensures
            match head(self.toks().drop_first()) {
                None => r == Ok::<Option<Token>, Error>(None),
                Some(Ok(t)) => r is Ok && r->Ok_0 is Some && r->Ok_0->0@ == t,
                Some(Err(e)) => r is Err && r->Err_0@ == e,
            },
    {
        proof {
            assert(self.toks().drop_first() =~= self.lexer.ahead());
        }
        Self::look(self.lexer.next_token())
    }

    /// Moves past the current token.
    fn advance(&mut self)
        requires
            old(self).ok(),
            head(old(self).toks()) matches Some(Ok(_)),
        ensures
            final(self).ok(),
            final(self).src() == old(self).src(),
            final(self).toks() == old(self).toks().drop_first(),
            final(self).toks().len() == old(self).toks().len() - 1,
    {
        let _ = self.lexer.next();
    }

    fn parse_error(&self, span: Span, msg: &str) -> (r: Error)
        ensures
            r@ == syntax_error(self.src(), span, msg@),
    {
        Error::from_span(span, Some(self.lexer.get_source()), ErrorKind::ParseFailure, msg)
    }

    fn parse_string_expr<V: Visitor>(&mut self, visitor: &mut V) -> (r: Result<bool, Error>)
        requires
            old(self).ok(),
            old(visitor).inv(),
        ensures
            final(self).ok(),
            final(self).src() == old(self).src(),
            final(visitor).inv(),
            stepped(
                string_expr::<V>(old(self).src(), old(self).toks(), old(visitor).state(), None),
                r,
                old(self).toks(),
                old(visitor).state(),
                final(self).toks(),
                final(visitor).state(),
            ),
    {
        let ghost src = self.src();
        let ghost toks0 = self.toks();
        let ghost st0 = visitor.state();
        let mut last_span: Option<Span> = None;
        loop
            invariant
                self.ok(),
                self.src() == src,
                src == old(self).src(),
                toks0 == old(self).toks(),
                st0 == old(visitor).state(),
                visitor.inv(),
                self.toks().len() <= toks0.len(),
                last_span is Some ==> self.toks().len() < toks0.len(),
                last_span is None ==> self.toks() == toks0 && visitor.state() == st0,
                string_expr::<V>(src, toks0, st0, None) == string_expr::<V>(
                    src,
                    self.toks(),
                    visitor.state(),
                    last_span,
                ),
            decreases self.toks().len(),
        {
            let ghost toks = self.toks();
            let ghost st = visitor.state();
            let token = match self.peek() {
                Err(e) => {
                    return Err(e);
                },
                Ok(None) => {
                    match last_span {
                        Some(span) => {
                            return Err(
                                self.parse_error(
                                    span,
                                    "Expected a string or '$' to follow, but got EOF",
                                ),
                            );
                        },
                        None => {
                            return Ok(false);
                        },
                    }
                },
                Ok(Some(t)) => t,
            };
            if token.kind.is_string() {
                self.advance();
                match visitor.append_string(self.lexer.get_source(), ConfigString::from_token(token)) {
                    Err(e) => {
                        return Err(e);
                    },
                    Ok(()) => {},
                }
            } else if token.kind.is_dollar() {
                self.advance();
                let name = match self.peek() {
                    Err(e) => {
                        return Err(e);
                    },
                    Ok(None) => {
                        return Err(
                            self.parse_error(token.span, "Expected a string to follow, but got EOF"),
                        );
                    },
                    Ok(Some(t)) => t,
                };
                if !name.kind.is_string() {
                    return Err(self.parse_error(name.span, "Expected a string"));
                }
                self.advance();
                proof {
                    assert(self.toks() =~= toks.skip(2));
                }
                match visitor.expand(self.lexer.get_source(), ConfigString::from_token(name)) {
                    Err(e) => {
                        return Err(e);
                    },
                    Ok(()) => {},
                }
            } else {
                match last_span {
                    Some(span) => {
                        return Err(
                            self.parse_error(span, "Expected a string or '$' to follow, but got EOF"),
                        );
                    },
                    None => {
                        return Ok(false);
                    },
                }
            }
            let tilde = match self.peek() {
                Err(e) => {
                    return Err(e);
                },
                Ok(None) => {
                    return Ok(true);
                },
                Ok(Some(t)) => t,
            };
            if !tilde.kind.is_tilde() {
                return Ok(true);
            }
            self.advance();
            last_span = Some(tilde.span);
        }
    }

    /// Reads the closing bracket of a table or array that opened at `open`.
    fn parse_closing(&mut self, open: Span, is_table: bool) -> (r: Result<(), Error>)
        requires
            old(self).ok(),
        ensures
            final(self).ok(),
            final(self).src() == old(self).src(),
            match closing(old(self).src(), open, old(self).toks(), (), is_table) {
                Step::Matched(rest, _) => r is Ok && final(self).toks() == rest && rest.len() < old(
                    self,
                ).toks().len(),
                Step::Absent => false,
                Step::Failed(e) => r is Err && r->Err_0@ == e,
            },
    {
        let right = match self.peek() {
            Err(e) => {
                return Err(e);
            },
            Ok(None) => {
                let msg = if is_table {
                    "Unterminated table"
                } else {
                    "Unterminated array"
                };
                return Err(self.parse_error(open, msg));
            },
            Ok(Some(t)) => t,
        };
        let closes = if is_table {
            right.kind.is_right_brace()
        } else {
            right.kind.is_right_bracket()
        };
        if !closes {
            let msg = if is_table {
                if right.kind.is_comma() {
                    "Expected '}' or a string"
                } else {
                    "Expected '}', ',' or a string"
                }
            } else {
                if right.kind.is_comma() {
                    "Expected ']' or a string"
                } else {
                    "Expected ']', ',' or a string"
                }
            };
            return Err(self.parse_error(right.span, msg));
        }
        self.advance();
        Ok(())
    }

    fn parse_table<V: Visitor>(&mut self, visitor: &mut V, is_tagged: bool) -> (r: Result<
        bool,
        Error,
    >)
        requires
            old(self).ok(),
            old(visitor).inv(),
        ensures
            final(self).ok(),
            final(self).src() == old(self).src(),
            final(visitor).inv(),
            stepped(
                table::<V>(old(self).src(), old(self).toks(), old(visitor).state(), is_tagged),
                r,
                old(self).toks(),
                old(visitor).state(),
                final(self).toks(),
                final(visitor).state(),
            ),
        decreases old(self).toks().len(), 0nat,
    {
        let left = match self.peek() {
            Err(e) => {
                return Err(e);
            },
            Ok(None) => {
                return Ok(false);
            },
            Ok(Some(t)) => t,
        };
        if !left.kind.is_left_brace() {
            return Ok(false);
        }
        self.advance();
        if !is_tagged {
            match visitor.set_table(self.lexer.get_source(), left.span) {
                Err(e) => {
                    return Err(e);
                },
                Ok(()) => {},
            }
        }
        match self.parse_table_contents(visitor) {
            Err(e) => {
                return Err(e);
            },
            Ok(()) => {},
        }
        match self.parse_closing(left.span, true) {
            Err(e) => Err(e),
            Ok(()) => Ok(true),
        }
    }

    fn parse_array<V: Visitor>(&mut self, visitor: &mut V, is_tagged: bool) -> (r: Result<
        bool,
        Error,
    >)
        requires
            old(self).ok(),
            old(visitor).inv(),
        ensures
            final(self).ok(),
            final(self).src() == old(self).src(),
            final(visitor).inv(),
            stepped(
                array::<V>(old(self).src(), old(self).toks(), old(visitor).state(), is_tagged),
                r,
                old(self).toks(),
                old(visitor).state(),
                final(self).toks(),
                final(visitor).state(),
            ),
        decreases old(self).toks().len(), 0nat,
    {
        let left = match self.peek() {
            Err(e) => {
                return Err(e);
            },
            Ok(None) => {
                return Ok(false);
            },
            Ok(Some(t)) => t,
        };
        if !left.kind.is_left_bracket() {
            return Ok(false);
        }
        self.advance();
        if !is_tagged {
            match visitor.set_array(self.lexer.get_source(), left.span) {
                Err(e) => {
                    return Err(e);
                },
                Ok(()) => {},
            }
        }
        match self.parse_array_contents(visitor) {
            Err(e) => {
                return Err(e);
            },
            Ok(()) => {},
        }
        match self.parse_closing(left.span, false) {
            Err(e) => Err(e),
            Ok(()) => Ok(true),
        }
    }

    fn parse_tagged_table<V: Visitor>(&mut self, visitor: &mut V) -> (r: Result<bool, Error>)
        requires
            old(self).ok(),
            old(visitor).inv(),
        ensures
            final(self).ok(),
            final(self).src() == old(self).src(),
            final(visitor).inv(),
            stepped(
                tagged_table::<V>(old(self).src(), old(self).toks(), old(visitor).state()),
                r,
                old(self).toks(),
                old(visitor).state(),
                final(self).toks(),
                final(visitor).state(),
            ),
        decreases old(self).toks().len(), 1nat,
    {
        let tag = match self.peek() {
            Err(e) => {
                return Err(e);
            },
            Ok(None) => {
                return Ok(false);
            },
            Ok(Some(t)) => t,
        };
        if !tag.kind.is_string() {
            return Ok(false);
        }
        let brace = match self.peek_next() {
            Err(e) => {
                return Err(e);
            },
            Ok(None) => {
                return Ok(false);
            },
            Ok(Some(t)) => t,
        };
        if !brace.kind.is_left_brace() {
            return Ok(false);
        }
        self.advance();
        let span = tag.span;
        match visitor.set_tagged_table(self.lexer.get_source(), span, ConfigString::from_token(tag)) {
            Err(e) => {
                return Err(e);
            },
            Ok(()) => {},
        }
        let ghost st1 = visitor.state();
        let r = self.parse_table(visitor, true);
        proof {
            let src = old(self).src();
            let toks0 = old(self).toks();
            let inner = table::<V>(src, toks0.drop_first(), st1, true);
            assert(head(toks0.drop_first()) == Some(Ok::<TokenView, ErrorView>(brace@)));
            assert(!(inner is Absent));
            assert(tagged_table::<V>(src, toks0, old(visitor).state()) == inner);
        }
        r
    }

    fn parse_tagged_array<V: Visitor>(&mut self, visitor: &mut V) -> (r: Result<bool, Error>)
        requires
            old(self).ok(),
            old(visitor).inv(),
        ensures
            final(self).ok(),
            final(self).src() == old(self).src(),
            final(visitor).inv(),
            stepped(
                tagged_array::<V>(old(self).src(), old(self).toks(), old(visitor).state()),
                r,
                old(self).toks(),
                old(visitor).state(),
                final(self).toks(),
                final(visitor).state(),
            ),
        decreases old(self).toks().len(), 1nat,
    {
        let tag = match self.peek() {
            Err(e) => {
                return Err(e);
            },
            Ok(None) => {
                return Ok(false);
            },
            Ok(Some(t)) => t,
        };
        if !tag.kind.is_string() {
            return Ok(false);
        }
        let bracket = match self.peek_next() {
            Err(e) => {
                return Err(e);
            },
            Ok(None) => {
                return Ok(false);
            },
            Ok(Some(t)) => t,
        };
        if !bracket.kind.is_left_bracket() {
            return Ok(false);
        }
        self.advance();
        let span = tag.span;
        match visitor.set_tagged_array(self.lexer.get_source(), span, ConfigString::from_token(tag)) {
            Err(e) => {
                return Err(e);
            },
            Ok(()) => {},
        }
        let ghost st1 = visitor.state();
        let r = self.parse_array(visitor, true);
        proof {
            let src = old(self).src();
            let toks0 = old(self).toks();
            let inner = array::<V>(src, toks0.drop_first(), st1, true);
            assert(head(toks0.drop_first()) == Some(Ok::<TokenView, ErrorView>(bracket@)));
            assert(!(inner is Absent));
            assert(tagged_array::<V>(src, toks0, old(visitor).state()) == inner);
        }
        r
    }

    /// Reads what stands behind the `=` at `assign`.
    fn parse_rhs<V: Visitor>(&mut self, visitor: &mut V, assign: Span) -> (r: Result<bool, Error>)
        requires
            old(self).ok(),
            old(visitor).inv(),
        ensures
            final(self).ok(),
            final(self).src() == old(self).src(),
            final(visitor).inv(),
            stepped(
                rhs::<V>(old(self).src(), assign, old(self).toks(), old(visitor).state()),
                r,
                old(self).toks(),
                old(visitor).state(),
                final(self).toks(),
                final(visitor).state(),
            ),
            r is Ok ==> r->Ok_0,
        decreases old(self).toks().len(), 2nat,
    {
        match self.parse_array(visitor, false) {
            Err(e) => {
                return Err(e);
            },
            Ok(true) => {
                return Ok(true);
            },
            Ok(false) => {},
        }
        match self.parse_tagged_array(visitor) {
            Err(e) => {
                return Err(e);
            },
            Ok(true) => {
                return Ok(true);
            },
            Ok(false) => {},
        }
        match self.parse_tagged_table(visitor) {
            Err(e) => {
                return Err(e);
            },
            Ok(true) => {
                return Ok(true);
            },
            Ok(false) => {},
        }
        match self.parse_string_expr(visitor) {
            Err(e) => {
                return Err(e);
            },
            Ok(true) => {
                return Ok(true);
            },
            Ok(false) => {},
        }
        match self.peek() {
            Err(e) => Err(e),
            Ok(None) => Err(
                self.parse_error(assign, "Expected '[' or a string to follow, but got EOF"),
            ),
            Ok(Some(t)) => Err(self.parse_error(t.span, "Expected '[' or a string")),
        }
    }

    fn parse_table_element<V: Visitor>(&mut self, visitor: &mut V) -> (r: Result<bool, Error>)
        requires
            old(self).ok(),
            old(visitor).inv(),
        ensures
            final(self).ok(),
            final(self).src() == old(self).src(),
            final(visitor).inv(),
            stepped(
                table_element::<V>(old(self).src(), old(self).toks(), old(visitor).state()),
                r,
                old(self).toks(),
                old(visitor).state(),
                final(self).toks(),
                final(visitor).state(),
            ),
        decreases old(self).toks().len(), 3nat,
    {
        let ghost src = self.src();
        let name = match self.peek() {
            Err(e) => {
                return Err(e);
            },
            Ok(None) => {
                return Ok(false);
            },
            Ok(Some(t)) => t,
        };
        if !name.kind.is_string() {
            return Ok(false);
        }
        let name_span = name.span;
        self.advance();
        match visitor.start_element(self.lexer.get_source(), ConfigString::from_token(name)) {
            Err(e) => {
                return Err(e);
            },
            Ok(()) => {},
        }
        let token = match self.peek() {
            Err(e) => {
                return Err(e);
            },
            Ok(None) => {
                return Err(
                    self.parse_error(name_span, "Expected '=' or '{' to follow, but got EOF"),
                );
            },
            Ok(Some(t)) => t,
        };
        if token.kind.is_assign() {
            self.advance();
            match self.parse_rhs(visitor, token.span) {
                Err(e) => {
                    return Err(e);
                },
                Ok(_) => {},
            }
        } else {
            let found = match self.parse_table(visitor, false) {
                Err(e) => {
                    return Err(e);
                },
                Ok(true) => true,
                Ok(false) => match self.parse_tagged_table(visitor) {
                    Err(e) => {
                        return Err(e);
                    },
                    Ok(b) => b,
                },
            };
            if !found {
                return Err(self.parse_error(token.span, "Expected '=' or '{'"));
            }
        }
        match visitor.end_element() {
            Err(e) => Err(e),
            Ok(()) => Ok(true),
        }
    }

    fn parse_table_contents<V: Visitor>(&mut self, visitor: &mut V) -> (r: Result<(), Error>)
        requires
            old(self).ok(),
            old(visitor).inv(),
        ensures
            final(self).ok(),
            final(self).src() == old(self).src(),
            final(visitor).inv(),
            read_contents(
                table_contents::<V>(old(self).src(), old(self).toks(), old(visitor).state()),
                r,
                old(self).toks(),
                final(self).toks(),
                final(visitor).state(),
            ),
        decreases old(self).toks().len(), 4nat,
    {
        let ghost src = self.src();
        let ghost toks0 = self.toks();
        let ghost st0 = visitor.state();
        loop
            invariant
                self.ok(),
                self.src() == src,
                src == old(self).src(),
                toks0 == old(self).toks(),
                st0 == old(visitor).state(),
                visitor.inv(),
                self.toks().len() <= toks0.len(),
                table_contents::<V>(src, toks0, st0) == table_contents::<V>(
                    src,
                    self.toks(),
                    visitor.state(),
                ),
            decreases self.toks().len(),
        {
            match self.parse_table_element(visitor) {
                Err(e) => {
                    return Err(e);
                },
                Ok(false) => {
                    return Ok(());
                },
                Ok(true) => {},
            }
            let comma = match self.peek() {
                Err(e) => {
                    return Err(e);
                },
                Ok(None) => {
                    return Ok(());
                },
                Ok(Some(t)) => t,
            };
            if comma.kind.is_comma() {
                self.advance();
            }
        }
    }

    fn parse_array_element<V: Visitor>(&mut self, visitor: &mut V) -> (r: Result<bool, Error>)
        requires
            old(self).ok(),
            old(visitor).inv(),
        ensures
            final(self).ok(),
            final(self).src() == old(self).src(),
            final(visitor).inv(),
            stepped(
                array_element::<V>(old(self).src(), old(self).toks(), old(visitor).state()),
                r,
                old(self).toks(),
                old(visitor).state(),
                final(self).toks(),
                final(visitor).state(),
            ),
        decreases old(self).toks().len(), 3nat,
    {
        let token = match self.peek() {
            Err(e) => {
                return Err(e);
            },
            Ok(None) => {
                return Ok(false);
            },
            Ok(Some(t)) => t,
        };
        let is_table = token.kind.is_left_brace();
        let is_array = token.kind.is_left_bracket();
        if !(token.kind.is_string() || token.kind.is_dollar() || is_table || is_array) {
            return Ok(false);
        }
        match visitor.start_element(self.lexer.get_source(), ConfigString::new()) {
            Err(e) => {
                return Err(e);
            },
            Ok(()) => {},
        }
        let ghost src = self.src();
        let ghost toks = self.toks();
        let ghost st1 = visitor.state();
        proof {
            assert(!(table::<V>(src, toks, st1, false) is Absent) || !is_table);
            assert(!(array::<V>(src, toks, st1, false) is Absent) || !is_array);
            if !is_table && !is_array {
                lemma_string_expr_present::<V>(src, toks, st1, None);
            }
        }
        let found = if is_table {
            self.parse_table(visitor, false)
        } else if is_array {
            self.parse_array(visitor, false)
        } else {
            match self.parse_tagged_array(visitor) {
                Err(e) => Err(e),
                Ok(true) => Ok(true),
                Ok(false) => match self.parse_tagged_table(visitor) {
                    Err(e) => Err(e),
                    Ok(true) => Ok(true),
                    Ok(false) => self.parse_string_expr(visitor),
                },
            }
        };
        match found {
            Err(e) => {
                return Err(e);
            },
            Ok(_) => {},
        }
        match visitor.end_element() {
            Err(e) => Err(e),
            Ok(()) => Ok(true),
        }
    }

    fn parse_array_contents<V: Visitor>(&mut self, visitor: &mut V) -> (r: Result<(), Error>)
        requires
            old(self).ok(),
            old(visitor).inv(),
        ensures
            final(self).ok(),
            final(self).src() == old(self).src(),
            final(visitor).inv(),
            read_contents(
                array_contents::<V>(old(self).src(), old(self).toks(), old(visitor).state()),
                r,
                old(self).toks(),
                final(self).toks(),
                final(visitor).state(),
            ),
        decreases old(self).toks().len(), 4nat,
    {
        let ghost src = self.src();
        let ghost toks0 = self.toks();
        let ghost st0 = visitor.state();
        loop
            invariant
                self.ok(),
                self.src() == src,
                src == old(self).src(),
                toks0 == old(self).toks(),
                st0 == old(visitor).state(),
                visitor.inv(),
                self.toks().len() <= toks0.len(),
                array_contents::<V>(src, toks0, st0) == array_contents::<V>(
                    src,
                    self.toks(),
                    visitor.state(),
                ),
            decreases self.toks().len(),
        {
            match self.parse_array_element(visitor) {
                Err(e) => {
                    return Err(e);
                },
                Ok(false) => {
                    return Ok(());
                },
                Ok(true) => {},
            }
            let comma = match self.peek() {
                Err(e) => {
                    return Err(e);
                },
                Ok(None) => {
                    return Ok(());
                },
                Ok(Some(t)) => t,
            };
            if comma.kind.is_comma() {
                self.advance();
            }
        }
    }
}

/// Parses the text of `source` and tells `visitor` what it holds, event by
/// event in the order of the text. The first error of the lexer, the grammar
/// or the visitor ends the parse and is returned.
pub fn parse_source<V: Visitor>(source: &Source, visitor: &mut V) -> (r: Result<(), Error>)
    requires
        old(visitor).inv(),
    ensures
        final(visitor).inv(),
        match parse::<V>(source@, old(visitor).state()) {
            Ok(st) => r is Ok && final(visitor).state() == st,
            Err(e) => r is Err && r->Err_0@ == e,
        },
{
    let mut lexer = Lexer::new(source);
    let _ = lexer.next();
    let mut parser = Parser { lexer };
    match parser.parse_table_contents(visitor) {
        Err(e) => {
            return Err(e);
        },
        Ok(()) => {},
    }
    match parser.peek() {
        Err(e) => Err(e),
        Ok(Some(token)) => Err(parser.parse_error(token.span, "Expected a string")),
        Ok(None) => Ok(()),
    }
}

} // verus!
