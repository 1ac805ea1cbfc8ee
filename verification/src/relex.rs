//! Reading printed text: which tokens the lexer finds in what the printer
//! wrote.

use vstd::prelude::*;
use crate::chars::{spec_is_string_border, spec_is_whitespace};
use crate::config_string::string_of_token;
use crate::laws::{ends_naked, law_written_string_reads_back};
use crate::lexer::{
    blank_end, lemma_blank_end, lemma_lexeme_advances, lemma_open_run, lexeme_at, lexemes_from,
    open_run, starts_quoted, Lexeme, TokenKindView,
};
use crate::config_element::{
    plain, print_element, print_elements, print_entries, ElementKindView, ElementView, Entries,
};
use crate::error::repeat;
use crate::printer::{written, Level, PrinterView};
use crate::quote::is_naked;
use crate::source::SourceView;

verus! {

/// What a lexeme is to the grammar of printed text: a string by the text it
/// stands for, a bracket, `=` or `,`, or something that printed text never
/// holds.
pub enum Atom {
    Text(Seq<char>),
    Assign,
    LeftBracket,
    RightBracket,
    LeftBrace,
    RightBrace,
    Comma,
    Other,
}

pub open spec fn atom_of(lexeme: Lexeme) -> Atom {
    match lexeme {
        Ok(t) => match t.kind {
            TokenKindView::EscapedString(_) => Atom::Text(string_of_token(t).decoded()),
            TokenKindView::RawString(_) => Atom::Text(string_of_token(t).decoded()),
            TokenKindView::Assign => Atom::Assign,
            TokenKindView::LeftBracket => Atom::LeftBracket,
            TokenKindView::RightBracket => Atom::RightBracket,
            TokenKindView::LeftBrace => Atom::LeftBrace,
            TokenKindView::RightBrace => Atom::RightBrace,
            TokenKindView::Comma => Atom::Comma,
            _ => Atom::Other,
        },
        Err(_) => Atom::Other,
    }
}

/// The atoms of a sequence of lexemes.
pub open spec fn atoms_of(lexemes: Seq<Lexeme>) -> Seq<Atom> {
    Seq::new(lexemes.len(), |i: int| atom_of(lexemes[i]))
}

/// The atoms that the lexer finds from index `i` on.
pub open spec fn atoms_from(src: SourceView, i: int) -> Seq<Atom> {
    atoms_of(lexemes_from(src, i))
}

/// The atom of a character that is a token by itself.
pub open spec fn atom_of_char(c: char) -> Atom {
    if c == '=' {
        Atom::Assign
    } else if c == '[' {
        Atom::LeftBracket
    } else if c == ']' {
        Atom::RightBracket
    } else if c == '{' {
        Atom::LeftBrace
    } else if c == '}' {
        Atom::RightBrace
    } else if c == ',' {
        Atom::Comma
    } else {
        Atom::Other
    }
}

/// The white space that the printer writes.
pub open spec fn is_gap(c: char) -> bool {
    c == ' ' || c == '\n' || c == '\t'
}

pub proof fn lemma_atoms_concat(a: Seq<Lexeme>, b: Seq<Lexeme>)
    ensures
        atoms_of(a + b) == atoms_of(a) + atoms_of(b),
{
    assert(atoms_of(a + b) =~= atoms_of(a) + atoms_of(b));
}

/// White space yields no atom.
pub proof fn lemma_reads_gap(src: SourceView, i: int)
    requires
        0 <= i < src.text.len(),
        is_gap(src.text[i]),
    ensures
        atoms_from(src, i) == atoms_from(src, i + 1),
{
    let text = src.text;
    lemma_blank_end(text, i + 1, false);
    assert(blank_end(text, i, false) == blank_end(text, i + 1, false));
    let j = blank_end(text, i, false);
    if j < text.len() {
        lemma_lexeme_advances(src, j);
        if i + 1 < text.len() {
            assert(lexemes_from(src, i) == lexemes_from(src, i + 1));
        } else {
            assert(false);
        }
    } else {
        assert(lexemes_from(src, i) == Seq::<Lexeme>::empty());
        assert(lexemes_from(src, i + 1) == Seq::<Lexeme>::empty());
    }
}

/// A run of white space yields no atom.
pub proof fn lemma_reads_gaps(src: SourceView, i: int, j: int)
    requires
        0 <= i <= j <= src.text.len(),
        forall|k: int| i <= k < j ==> is_gap(#[trigger] src.text[k]),
    ensures
        atoms_from(src, i) == atoms_from(src, j),
    decreases j - i,
{
    if i < j {
        lemma_reads_gap(src, i);
        lemma_reads_gaps(src, i + 1, j);
    }
}

/// A lexeme that starts at a character which is no blank is the first of
/// the lexemes from there on.
pub proof fn lemma_reads_lexeme(src: SourceView, i: int)
    requires
        0 <= i < src.text.len(),
        !spec_is_whitespace(src.text[i]),
        src.text[i] != '#',
        lexeme_at(src, i).0 is Ok,
    ensures
        atoms_from(src, i) == seq![atom_of(lexeme_at(src, i).0)] + atoms_from(
            src,
            lexeme_at(src, i).1,
        ),
{
    lemma_lexeme_advances(src, i);
    assert(blank_end(src.text, i, false) == i);
    let lx = lexeme_at(src, i).0;
    let end = lexeme_at(src, i).1;
    assert(lexemes_from(src, i) == seq![lx] + lexemes_from(src, end));
    lemma_atoms_concat(seq![lx], lexemes_from(src, end));
    assert(atoms_of(seq![lx]) =~= seq![atom_of(lx)]);
}

/// A bracket, `=` or `,` yields its atom. An opening brace must not be the
/// start of a quoted string: no `{` or `"` may follow it.
pub proof fn lemma_reads_punct(src: SourceView, i: int)
    requires
        0 <= i < src.text.len(),
        !(atom_of_char(src.text[i]) is Other),
        src.text[i] == '{' ==> i + 1 < src.text.len() && src.text[i + 1] != '{' && src.text[i
            + 1] != '"',
    ensures
        atoms_from(src, i) == seq![atom_of_char(src.text[i])] + atoms_from(src, i + 1),
{
    let text = src.text;
    lemma_open_run(text, i);
    if text[i] == '{' {
        assert(open_run(text, i + 1) == 0);
        assert(open_run(text, i) == 1);
    } else {
        assert(open_run(text, i) == 0);
    }
    assert(!starts_quoted(text, i));
    lemma_reads_lexeme(src, i);
}

/// A string as the printer wrote it yields the atom of that string.
pub proof fn lemma_reads_written(src: SourceView, i: int, s: Seq<char>)
    requires
        0 <= i,
        i + written(s).len() <= src.text.len(),
        src.text.subrange(i, i + written(s).len()) == written(s),
        is_naked(s) ==> ends_naked(src.text, i + s.len()),
    ensures
        atoms_from(src, i) == seq![Atom::Text(s)] + atoms_from(src, i + written(s).len()),
{
    law_written_string_reads_back(src, i, s);
    let w = written(s);
    assert(w.len() > 0);
    assert(src.text[i] == src.text.subrange(i, i + w.len())[0]);
    if is_naked(s) {
        assert(crate::quote::naked_at(s, 0));
    }
    lemma_reads_lexeme(src, i);
}

/// The atoms of an element without its name.
pub open spec fn body_atoms(e: ElementView) -> Seq<Atom>
    decreases e, 0nat,
{
    match e.kind {
        ElementKindView::Value(v) => seq![Atom::Text(v)],
        ElementKindView::Table(es) => seq![Atom::LeftBrace] + entries_atoms(es, es.len() as int)
            + seq![Atom::RightBrace],
        ElementKindView::TaggedTable(t, es) => seq![Atom::Text(t), Atom::LeftBrace]
            + entries_atoms(es, es.len() as int) + seq![Atom::RightBrace],
        ElementKindView::Array(a) => seq![Atom::LeftBracket] + elements_atoms(a, a.len() as int)
            + seq![Atom::RightBracket],
        ElementKindView::TaggedArray(t, a) => seq![Atom::Text(t), Atom::LeftBracket]
            + elements_atoms(a, a.len() as int) + seq![Atom::RightBracket],
        ElementKindView::MultiLineArray(a) => seq![Atom::LeftBracket] + elements_atoms(
            a,
            a.len() as int,
        ) + seq![Atom::RightBracket],
        ElementKindView::MultiLineTaggedArray(t, a) => seq![Atom::Text(t), Atom::LeftBracket]
            + elements_atoms(a, a.len() as int) + seq![Atom::RightBracket],
    }
}

/// What stands between a name and its element: nothing before a plain
/// table, else `=`.
pub open spec fn link_atoms(e: ElementView) -> Seq<Atom> {
    if e.kind is Table {
        Seq::empty()
    } else {
        seq![Atom::Assign]
    }
}

/// The atoms of an element, with its name where it has one.
pub open spec fn item_atoms(name: Option<Seq<char>>, e: ElementView) -> Seq<Atom>
    decreases e, 1nat,
{
    match name {
        Some(n) => seq![Atom::Text(n)] + link_atoms(e) + body_atoms(e),
        None => body_atoms(e),
    }
}

/// The atoms of the first `k` entries of a table.
pub open spec fn entries_atoms(es: Entries, k: int) -> Seq<Atom>
    decreases es, k,
{
    if k <= 0 || k > es.len() {
        Seq::empty()
    } else {
        entries_atoms(es, k - 1) + item_atoms(Some(es[k - 1].0), es[k - 1].1)
    }
}

/// The atoms of the first `k` elements of an array, with commas between.
pub open spec fn elements_atoms(a: Seq<ElementView>, k: int) -> Seq<Atom>
    decreases a, k,
{
    if k <= 0 || k > a.len() {
        Seq::empty()
    } else if k == 1 {
        body_atoms(a[0])
    } else {
        elements_atoms(a, k - 1) + seq![Atom::Comma] + body_atoms(a[k - 1])
    }
}

/// `b` has written what `a` has and maybe more, in the same place.
pub open spec fn extends(a: PrinterView, b: PrinterView) -> bool {
    &&& a.out.len() <= b.out.len()
    &&& b.out.subrange(0, a.out.len() as int) == a.out
}

/// `p` stands in the course of printing `full`.
pub open spec fn within(p: PrinterView, full: Seq<char>) -> bool {
    &&& p.out.len() <= full.len()
    &&& full.subrange(0, p.out.len() as int) == p.out
}

/// The printer as it stands between elements: a level is open, and only an
/// array can be on one line when it holds something.
pub open spec fn sound(p: PrinterView) -> bool {
    &&& p.wf()
    &&& p.top().one_line && !p.top().is_empty ==> p.top().in_array
}

/// The printer after an element: it has written more, and stands where it
/// stood but for its innermost level, which holds something now.
pub open spec fn after_element(p: PrinterView, q: PrinterView) -> bool {
    &&& extends(p.start_value(), q)
    &&& q.levels == p.filled().levels
    &&& q.in_root == p.in_root
}

pub proof fn lemma_extends_trans(a: PrinterView, b: PrinterView, c: PrinterView)
    requires
        extends(a, b),
        extends(b, c),
    ensures
        extends(a, c),
{
    assert(c.out.subrange(0, a.out.len() as int) =~= b.out.subrange(0, a.out.len() as int));
}

pub proof fn lemma_within_earlier(a: PrinterView, b: PrinterView, full: Seq<char>)
    requires
        extends(a, b),
        within(b, full),
    ensures
        within(a, full),
{
    assert(full.subrange(0, a.out.len() as int) =~= b.out.subrange(0, a.out.len() as int));
}

pub proof fn lemma_put_extends(p: PrinterView, s: Seq<char>)
    ensures
        extends(p, p.put(s)),
{
    assert(p.put(s).out.subrange(0, p.out.len() as int) =~= p.out);
}

pub proof fn lemma_put_char_extends(p: PrinterView, c: char)
    ensures
        extends(p, p.put_char(c)),
{
    assert(p.put_char(c).out.subrange(0, p.out.len() as int) =~= p.out);
}

/// What a printer has written beyond an earlier state stands in the full
/// text behind what the earlier state had written.
pub proof fn lemma_piece(p: PrinterView, piece: Seq<char>, full: Seq<char>)
    requires
        within(p.put(piece), full),
    ensures
        within(p, full),
        full.subrange(p.out.len() as int, p.out.len() as int + piece.len() as int) == piece,
        forall|k: int| 0 <= k < piece.len() ==> full[p.out.len() as int + k] == #[trigger] piece[k],
{
    let at = p.out.len() as int;
    let n = piece.len() as int;
    let whole = p.out + piece;
    assert(whole.len() == at + n);
    assert forall|k: int| 0 <= k < n implies full[at + k] == #[trigger] piece[k] by {
        assert(full[at + k] == full.subrange(0, at + n)[at + k]);
        assert(whole[at + k] == piece[k]);
    }
    assert(full.subrange(at, at + n) =~= piece);
    lemma_put_extends(p, piece);
    lemma_within_earlier(p, p.put(piece), full);
}

/// The comma that the printer puts before an element that is not the first
/// of its array.
pub open spec fn lead(p: PrinterView) -> Seq<Atom> {
    if (p.top().in_array || p.top().one_line) && !p.top().is_empty {
        seq![Atom::Comma]
    } else {
        Seq::empty()
    }
}

/// What ends a string or closes an element in printed text: a comma, a new
/// line or a closing bracket.
pub open spec fn is_stop(c: char) -> bool {
    c == ',' || c == '\n' || c == ']'
}

/// Behind index `i` the text goes on with something that ends a string.
pub open spec fn stops_at(full: Seq<char>, i: int) -> bool {
    0 <= i < full.len() && is_stop(full[i])
}

pub proof fn lemma_op_gap(src: SourceView, p: PrinterView, c: char)
    requires
        within(p.put_char(c), src.text),
        is_gap(c),
    ensures
        within(p, src.text),
        atoms_from(src, p.out.len() as int) == atoms_from(src, p.put_char(c).out.len() as int),
{
    assert(p.put_char(c).out =~= p.put(seq![c]).out);
    lemma_piece(p, seq![c], src.text);
    assert(src.text[p.out.len() as int + 0] == seq![c][0]);
    lemma_reads_gap(src, p.out.len() as int);
}

pub proof fn lemma_op_tabs(src: SourceView, p: PrinterView, n: nat)
    requires
        within(p.put(repeat('\t', n)), src.text),
    ensures
        within(p, src.text),
        atoms_from(src, p.out.len() as int) == atoms_from(
            src,
            p.put(repeat('\t', n)).out.len() as int,
        ),
{
    lemma_piece(p, repeat('\t', n), src.text);
    let at = p.out.len() as int;
    assert forall|k: int| at <= k < at + n implies is_gap(#[trigger] src.text[k]) by {
        assert(src.text[at + (k - at)] == repeat('\t', n)[k - at]);
    }
    lemma_reads_gaps(src, at, at + n);
}

pub proof fn lemma_op_punct(src: SourceView, p: PrinterView, c: char)
    requires
        within(p.put_char(c), src.text),
        !(atom_of_char(c) is Other),
        c == '{' ==> p.out.len() + 1 < src.text.len() && src.text[p.out.len() as int + 1] != '{'
            && src.text[p.out.len() as int + 1] != '"',
    ensures
        within(p, src.text),
        atoms_from(src, p.out.len() as int) == seq![atom_of_char(c)] + atoms_from(
            src,
            p.put_char(c).out.len() as int,
        ),
{
    assert(p.put_char(c).out =~= p.put(seq![c]).out);
    lemma_piece(p, seq![c], src.text);
    assert(src.text[p.out.len() as int + 0] == seq![c][0]);
    lemma_reads_punct(src, p.out.len() as int);
}

pub proof fn lemma_op_write_string(src: SourceView, p: PrinterView, s: Seq<char>)
    requires
        within(p.write_string(s), src.text),
        is_naked(s) ==> ends_naked(src.text, p.write_string(s).out.len() as int),
    ensures
        within(p, src.text),
        extends(p, p.write_string(s)),
        atoms_from(src, p.out.len() as int) == seq![Atom::Text(s)] + atoms_from(
            src,
            p.write_string(s).out.len() as int,
        ),
{
    lemma_piece(p, written(s), src.text);
    lemma_put_extends(p, written(s));
    lemma_reads_written(src, p.out.len() as int, s);
}

pub proof fn lemma_op_indent(src: SourceView, p: PrinterView)
    requires
        within(p.indent(), src.text),
    ensures
        within(p, src.text),
        extends(p, p.indent()),
        atoms_from(src, p.out.len() as int) == atoms_from(src, p.indent().out.len() as int),
{
    lemma_op_tabs(src, p, p.depth());
    lemma_put_extends(p, repeat('\t', p.depth()));
}

pub proof fn lemma_op_before_bracket(src: SourceView, p: PrinterView, one_line: bool)
    requires
        within(p.before_bracket(one_line), src.text),
    ensures
        within(p, src.text),
        extends(p, p.before_bracket(one_line)),
        atoms_from(src, p.out.len() as int) == atoms_from(
            src,
            p.before_bracket(one_line).out.len() as int,
        ),
        p.before_bracket(one_line).levels == p.levels,
        p.before_bracket(one_line).in_root == p.in_root,
        p.before_bracket(one_line).out.len() > p.out.len(),
        p.before_bracket(one_line).out[p.out.len() as int] == ' ' || p.before_bracket(
            one_line,
        ).out[p.out.len() as int] == '\n',
{
    if one_line {
        lemma_op_gap(src, p, ' ');
        lemma_put_char_extends(p, ' ');
    } else {
        let q = p.put_char('\n');
        lemma_op_indent(src, q);
        lemma_op_gap(src, p, '\n');
        lemma_put_char_extends(p, '\n');
        lemma_extends_trans(p, q, q.indent());
    }
}

pub proof fn lemma_op_start_value(src: SourceView, p: PrinterView)
    requires
        sound(p),
        within(p.start_value(), src.text),
    ensures
        within(p, src.text),
        extends(p, p.start_value()),
        atoms_from(src, p.out.len() as int) == lead(p) + atoms_from(
            src,
            p.start_value().out.len() as int,
        ),
        p.start_value().levels == p.levels,
        p.start_value().in_root == p.in_root,
        !p.top().is_empty ==> p.start_value().out.len() > p.out.len() && is_stop(
            p.start_value().out[p.out.len() as int],
        ),
{
    let top = p.top();
    let comma = (top.in_array || top.one_line) && !top.is_empty;
    let a = if comma {
        p.put_char(',')
    } else {
        p
    };
    let q = p.start_value();
    // What follows the comma is white space.
    if !top.one_line {
        let b = if !(p.depth() == 0 && p.in_root && top.is_empty) {
            a.put_char('\n')
        } else {
            a
        };
        assert(q == b.indent());
        lemma_op_indent(src, b);
        if b != a {
            lemma_op_gap(src, a, '\n');
            lemma_put_char_extends(a, '\n');
        }
        lemma_extends_trans(a, b, q);
    } else if !top.is_empty {
        lemma_op_gap(src, a, ' ');
        lemma_put_char_extends(a, ' ');
    }
    assert(extends(a, q)) by {
        if top.one_line && top.is_empty {
            assert(q == a);
            assert(a.out.subrange(0, a.out.len() as int) =~= a.out);
        }
    }
    assert(atoms_from(src, a.out.len() as int) == atoms_from(src, q.out.len() as int));
    if comma {
        lemma_op_punct(src, p, ',');
        lemma_put_char_extends(p, ',');
        lemma_extends_trans(p, a, q);
        assert(q.out[p.out.len() as int] == a.out[p.out.len() as int]) by {
            assert(q.out.subrange(0, a.out.len() as int)[p.out.len() as int] == a.out[p.out.len() as int]);
        }
    } else {
        assert(lead(p) + atoms_from(src, q.out.len() as int) =~= atoms_from(
            src,
            q.out.len() as int,
        ));
        if !top.is_empty {
            // A table that holds something: the new line comes first.
            let b = a.put_char('\n');
            assert(q.out[p.out.len() as int] == b.out[p.out.len() as int]) by {
                lemma_put_extends(b, repeat('\t', b.depth()));
                assert(q.out.subrange(0, b.out.len() as int)[p.out.len() as int] == b.out[p.out.len() as int]);
            }
        }
    }
}

/// The place up to which a printer has written.
pub open spec fn at(p: PrinterView) -> int {
    p.out.len() as int
}

pub proof fn lemma_extends_refl(p: PrinterView)
    ensures
        extends(p, p),
{
    assert(p.out.subrange(0, p.out.len() as int) =~= p.out);
}

/// The start of a table or array writes on, marks the level as filled and
/// opens a new, empty one.
pub proof fn lemma_start_shape(
    p: PrinterView,
    name: Option<Seq<char>>,
    tag: Option<Seq<char>>,
    one_line: bool,
)
    requires
        p.wf(),
    ensures
        extends(p.start_value(), p.start_table(name, tag, false, one_line)),
        p.start_table(name, tag, false, one_line).levels == p.filled().levels.push(
            Level { in_array: false, one_line, is_empty: true },
        ),
        p.start_table(name, tag, false, one_line).in_root == p.in_root,
        extends(p.start_value(), p.start_array(name, tag, one_line)),
        p.start_array(name, tag, one_line).levels == p.filled().levels.push(
            Level { in_array: true, one_line, is_empty: true },
        ),
        p.start_array(name, tag, one_line).in_root == p.in_root,
{
    let a = p.start_value();
    lemma_head_extends(a, name, tag, one_line);
}

/// What stands between the start of an element and its bracket.
pub open spec fn table_head(
    a: PrinterView,
    name: Option<Seq<char>>,
    tag: Option<Seq<char>>,
    one_line: bool,
) -> PrinterView {
    match (name, tag) {
        (Some(n), Some(t)) => a.write_string(n).put(" = "@).write_string(t).before_bracket(one_line),
        (Some(n), None) => a.write_string(n).before_bracket(one_line),
        (None, Some(t)) => a.write_string(t).before_bracket(one_line),
        (None, None) => a,
    }
}

pub open spec fn array_head(
    a: PrinterView,
    name: Option<Seq<char>>,
    tag: Option<Seq<char>>,
    one_line: bool,
) -> PrinterView {
    match (name, tag) {
        (Some(n), Some(t)) => a.write_string(n).put(" = "@).write_string(t).before_bracket(one_line),
        (Some(n), None) => a.write_string(n).put(" ="@).before_bracket(one_line),
        (None, Some(t)) => a.write_string(t).before_bracket(one_line),
        (None, None) => a,
    }
}

pub proof fn lemma_before_bracket_extends(p: PrinterView, one_line: bool)
    ensures
        extends(p, p.before_bracket(one_line)),
        p.before_bracket(one_line).levels == p.levels,
        p.before_bracket(one_line).in_root == p.in_root,
{
    if one_line {
        lemma_put_char_extends(p, ' ');
    } else {
        let q = p.put_char('\n');
        lemma_put_char_extends(p, '\n');
        lemma_put_extends(q, repeat('\t', q.depth()));
        lemma_extends_trans(p, q, q.indent());
    }
}

pub proof fn lemma_head_extends(
    a: PrinterView,
    name: Option<Seq<char>>,
    tag: Option<Seq<char>>,
    one_line: bool,
)
    ensures
        extends(a, table_head(a, name, tag, one_line)),
        table_head(a, name, tag, one_line).levels == a.levels,
        table_head(a, name, tag, one_line).in_root == a.in_root,
        extends(a, table_head(a, name, tag, one_line).put_char('{')),
        extends(a, array_head(a, name, tag, one_line)),
        array_head(a, name, tag, one_line).levels == a.levels,
        array_head(a, name, tag, one_line).in_root == a.in_root,
        extends(a, array_head(a, name, tag, one_line).put_char('[')),
{
    lemma_extends_refl(a);
    match (name, tag) {
        (Some(n), Some(t)) => {
            let b = a.write_string(n);
            let c = b.put(" = "@);
            let d = c.write_string(t);
            lemma_put_extends(a, written(n));
            lemma_put_extends(b, " = "@);
            lemma_put_extends(c, written(t));
            lemma_before_bracket_extends(d, one_line);
            lemma_extends_trans(a, b, c);
            lemma_extends_trans(a, c, d);
            lemma_extends_trans(a, d, d.before_bracket(one_line));
        },
        (Some(n), None) => {
            let b = a.write_string(n);
            lemma_put_extends(a, written(n));
            lemma_before_bracket_extends(b, one_line);
            lemma_extends_trans(a, b, b.before_bracket(one_line));
            let c = b.put(" ="@);
            lemma_put_extends(b, " ="@);
            lemma_before_bracket_extends(c, one_line);
            lemma_extends_trans(a, b, c);
            lemma_extends_trans(a, c, c.before_bracket(one_line));
        },
        (None, Some(t)) => {
            let b = a.write_string(t);
            lemma_put_extends(a, written(t));
            lemma_before_bracket_extends(b, one_line);
            lemma_extends_trans(a, b, b.before_bracket(one_line));
        },
        (None, None) => {},
    }
    let th = table_head(a, name, tag, one_line);
    lemma_put_char_extends(th, '{');
    lemma_extends_trans(a, th, th.put_char('{'));
    let ah = array_head(a, name, tag, one_line);
    lemma_put_char_extends(ah, '[');
    lemma_extends_trans(a, ah, ah.put_char('['));
}

/// The end of a table or array writes on and closes the innermost level.
pub proof fn lemma_end_shape(p: PrinterView)
    requires
        p.levels.len() > 1,
    ensures
        extends(p, p.end_table(false)),
        p.end_table(false).levels == p.levels.drop_last(),
        p.end_table(false).in_root == p.in_root,
        extends(p, p.end_array()),
        p.end_array().levels == p.levels.drop_last(),
        p.end_array().in_root == p.in_root,
        p.end_table(false).out.len() > p.out.len(),
        p.end_array().out.len() > p.out.len(),
        p.end_array().out[p.out.len() as int] == (if p.breaks() {
            '\n'
        } else {
            ']'
        }),
        p.end_table(false).out[p.out.len() as int] == (if p.breaks() {
            '\n'
        } else {
            '}'
        }),
{
    let a = if p.breaks() {
        p.put_char('\n')
    } else {
        p
    };
    let b = if p.breaks() {
        a.put(repeat('\t', (p.depth() - 1) as nat))
    } else {
        a
    };
    lemma_extends_refl(p);
    lemma_put_char_extends(p, '\n');
    lemma_put_extends(a, repeat('\t', (p.depth() - 1) as nat));
    lemma_extends_trans(p, a, b);
    lemma_put_char_extends(b.closed(), '}');
    lemma_put_char_extends(b.closed(), ']');
    assert(extends(b, b.closed().put_char('}')));
    assert(extends(b, b.closed().put_char(']')));
    lemma_extends_trans(p, b, b.closed().put_char('}'));
    lemma_extends_trans(p, b, b.closed().put_char(']'));
    if p.breaks() {
        assert(p.end_array().out.subrange(0, a.out.len() as int)[p.out.len() as int] == a.out[p.out.len() as int]) by {
            lemma_extends_trans(a, b, b.closed().put_char(']'));
        }
        assert(p.end_table(false).out.subrange(0, a.out.len() as int)[p.out.len() as int] == a.out[p.out.len() as int]) by {
            lemma_extends_trans(a, b, b.closed().put_char('}'));
        }
    }
}

/// Printing an element writes on behind the start of the element, and
/// leaves the levels as they were but for the innermost, which holds
/// something now.
pub proof fn lemma_element_shape(p: PrinterView, e: ElementView, name: Option<Seq<char>>)
    requires
        p.wf(),
    ensures
        after_element(p, print_element(p, e, name, false)),
    decreases e, 1nat,
{
    let a = p.start_value();
    match e.kind {
        ElementKindView::Value(v) => {
            lemma_extends_refl(a);
            match name {
                Some(n) => {
                    let b = a.write_string(n);
                    let c = b.put(" = "@);
                    lemma_put_extends(a, written(n));
                    lemma_put_extends(b, " = "@);
                    lemma_put_extends(c, written(v));
                    lemma_extends_trans(a, b, c);
                    lemma_extends_trans(a, c, c.write_string(v));
                },
                None => {
                    lemma_put_extends(a, written(v));
                },
            }
        },
        ElementKindView::Table(es) => {
            let q = p.start_table(name, None, false, es.len() == 0);
            lemma_start_shape(p, name, None, es.len() == 0);
            lemma_entries_shape(q, es, es.len() as int);
            let r = print_entries(q, es, es.len() as int);
            lemma_end_shape(r);
            lemma_extends_trans(a, q, r);
            lemma_extends_trans(a, r, r.end_table(false));
            assert(r.levels.drop_last() =~= p.filled().levels);
        },
        ElementKindView::TaggedTable(tag, es) => {
            let q = p.start_table(name, Some(tag), false, es.len() == 0);
            lemma_start_shape(p, name, Some(tag), es.len() == 0);
            lemma_entries_shape(q, es, es.len() as int);
            let r = print_entries(q, es, es.len() as int);
            lemma_end_shape(r);
            lemma_extends_trans(a, q, r);
            lemma_extends_trans(a, r, r.end_table(false));
            assert(r.levels.drop_last() =~= p.filled().levels);
        },
        ElementKindView::Array(arr) => {
            lemma_array_shape(p, arr, name, None, crate::config_element::fits_one_line(arr));
        },
        ElementKindView::TaggedArray(tag, arr) => {
            lemma_array_shape(p, arr, name, Some(tag), crate::config_element::fits_one_line(arr));
        },
        ElementKindView::MultiLineArray(arr) => {
            lemma_array_shape(p, arr, name, None, arr.len() == 0);
        },
        ElementKindView::MultiLineTaggedArray(tag, arr) => {
            lemma_array_shape(p, arr, name, Some(tag), arr.len() == 0);
        },
    }
}

/// Printing an array writes on behind the start of the array and restores
/// the levels.
pub proof fn lemma_array_shape(
    p: PrinterView,
    arr: Seq<ElementView>,
    name: Option<Seq<char>>,
    tag: Option<Seq<char>>,
    one_line: bool,
)
    requires
        p.wf(),
    ensures
        after_element(
            p,
            print_elements(p.start_array(name, tag, one_line), arr, arr.len() as int).end_array(),
        ),
    decreases arr, arr.len() + 1,
{
    let a = p.start_value();
    let q = p.start_array(name, tag, one_line);
    lemma_start_shape(p, name, tag, one_line);
    lemma_elements_shape(q, arr, arr.len() as int);
    let r = print_elements(q, arr, arr.len() as int);
    lemma_end_shape(r);
    lemma_extends_trans(a, q, r);
    lemma_extends_trans(a, r, r.end_array());
    assert(r.levels.drop_last() =~= p.filled().levels);
}

/// Printing entries writes on and changes nothing of the levels but that
/// the innermost holds something once an entry has been printed.
pub proof fn lemma_entries_shape(p: PrinterView, es: Entries, k: int)
    requires
        p.wf(),
        0 <= k <= es.len(),
    ensures
        extends(p, print_entries(p, es, k)),
        print_entries(p, es, k).levels == (if k == 0 {
            p.levels
        } else {
            p.filled().levels
        }),
        print_entries(p, es, k).in_root == p.in_root,
    decreases es, k,
{
    if k == 0 {
        lemma_extends_refl(p);
    } else {
        lemma_entries_shape(p, es, k - 1);
        let q = print_entries(p, es, k - 1);
        lemma_element_shape(q, es[k - 1].1, Some(es[k - 1].0));
        let r = print_entries(p, es, k);
        lemma_start_value_extends(q);
        lemma_extends_trans(q, q.start_value(), r);
        lemma_extends_trans(p, q, r);
        assert(q.filled().levels =~= p.filled().levels);
    }
}

/// Printing elements writes on and changes nothing of the levels but that
/// the innermost holds something once an element has been printed.
pub proof fn lemma_elements_shape(p: PrinterView, arr: Seq<ElementView>, k: int)
    requires
        p.wf(),
        0 <= k <= arr.len(),
    ensures
        extends(p, print_elements(p, arr, k)),
        print_elements(p, arr, k).levels == (if k == 0 {
            p.levels
        } else {
            p.filled().levels
        }),
        print_elements(p, arr, k).in_root == p.in_root,
    decreases arr, k,
{
    if k == 0 {
        lemma_extends_refl(p);
    } else {
        lemma_elements_shape(p, arr, k - 1);
        let q = print_elements(p, arr, k - 1);
        lemma_element_shape(q, arr[k - 1], None);
        let r = print_elements(p, arr, k);
        lemma_start_value_extends(q);
        lemma_extends_trans(q, q.start_value(), r);
        lemma_extends_trans(p, q, r);
        assert(q.filled().levels =~= p.filled().levels);
    }
}

pub proof fn lemma_start_value_extends(p: PrinterView)
    requires
        p.wf(),
    ensures
        extends(p, p.start_value()),
        p.start_value().levels == p.levels,
        p.start_value().in_root == p.in_root,
{
    let top = p.top();
    let a = if (top.in_array || top.one_line) && !top.is_empty {
        p.put_char(',')
    } else {
        p
    };
    lemma_extends_refl(p);
    lemma_put_char_extends(p, ',');
    if !top.one_line {
        let b = if !(p.depth() == 0 && p.in_root && top.is_empty) {
            a.put_char('\n')
        } else {
            a
        };
        lemma_extends_refl(a);
        lemma_put_char_extends(a, '\n');
        lemma_put_extends(b, repeat('\t', b.depth()));
        lemma_extends_trans(a, b, b.indent());
        lemma_extends_trans(p, a, b.indent());
    } else if !top.is_empty {
        lemma_put_char_extends(a, ' ');
        lemma_extends_trans(p, a, a.put_char(' '));
    }
}

/// The atoms of what stands before the bracket of a table.
pub open spec fn table_head_atoms(name: Option<Seq<char>>, tag: Option<Seq<char>>) -> Seq<Atom> {
    match (name, tag) {
        (Some(n), Some(t)) => seq![Atom::Text(n), Atom::Assign, Atom::Text(t)],
        (Some(n), None) => seq![Atom::Text(n)],
        (None, Some(t)) => seq![Atom::Text(t)],
        (None, None) => Seq::empty(),
    }
}

/// The atoms of what stands before the bracket of an array.
pub open spec fn array_head_atoms(name: Option<Seq<char>>, tag: Option<Seq<char>>) -> Seq<Atom> {
    match (name, tag) {
        (Some(n), Some(t)) => seq![Atom::Text(n), Atom::Assign, Atom::Text(t)],
        (Some(n), None) => seq![Atom::Text(n), Atom::Assign],
        (None, Some(t)) => seq![Atom::Text(t)],
        (None, None) => Seq::empty(),
    }
}

/// A string that `" = "` follows reads back, and so does the `=`.
proof fn lemma_reads_name_assign(src: SourceView, a: PrinterView, n: Seq<char>)
    requires
        within(a.write_string(n).put(" = "@), src.text),
    ensures
        within(a, src.text),
        atoms_from(src, at(a)) == seq![Atom::Text(n), Atom::Assign] + atoms_from(
            src,
            at(a.write_string(n).put(" = "@)),
        ),
{
    reveal_strlit(" = ");
    let b = a.write_string(n);
    let c = b.put(" = "@);
    lemma_piece(b, " = "@, src.text);
    assert(src.text[at(b) + 0] == " = "@[0]);
    assert(src.text[at(b) + 1] == " = "@[1]);
    assert(src.text[at(b) + 2] == " = "@[2]);
    lemma_op_write_string(src, a, n);
    lemma_reads_gap(src, at(b));
    lemma_reads_punct(src, at(b) + 1);
    lemma_reads_gap(src, at(b) + 2);
    assert(seq![Atom::Text(n)] + (seq![Atom::Assign] + atoms_from(src, at(c))) =~= seq![
        Atom::Text(n),
        Atom::Assign,
    ] + atoms_from(src, at(c)));
}

/// A string that a bracket follows, on its line or on the next, reads back.
proof fn lemma_reads_before_bracket(
    src: SourceView,
    a: PrinterView,
    s: Seq<char>,
    one_line: bool,
    bracket: char,
)
    requires
        within(a.write_string(s).before_bracket(one_line).put_char(bracket), src.text),
        bracket == '{' || bracket == '[',
    ensures
        within(a, src.text),
        atoms_from(src, at(a)) == seq![Atom::Text(s)] + atoms_from(
            src,
            at(a.write_string(s).before_bracket(one_line)),
        ),
{
    let b = a.write_string(s);
    let c = b.before_bracket(one_line);
    let d = c.put_char(bracket);
    lemma_put_char_extends(c, bracket);
    lemma_within_earlier(c, d, src.text);
    lemma_op_before_bracket(src, b, one_line);
    assert(d.out =~= c.put(seq![bracket]).out);
    lemma_piece(c, seq![bracket], src.text);
    assert(src.text[at(c) + 0] == seq![bracket][0]);
    // The character behind the string is the space or the new line.
    assert(src.text[at(b)] == c.out[at(b)]) by {
        assert(src.text.subrange(0, at(c))[at(b)] == c.out[at(b)]);
    }
    if one_line {
        assert(at(c) == at(b) + 1);
    }
    lemma_op_write_string(src, a, s);
}

/// What stands before the bracket of a table reads back.
proof fn lemma_table_head_reads(
    src: SourceView,
    a: PrinterView,
    name: Option<Seq<char>>,
    tag: Option<Seq<char>>,
    one_line: bool,
)
    requires
        within(table_head(a, name, tag, one_line).put_char('{'), src.text),
    ensures
        within(a, src.text),
        within(table_head(a, name, tag, one_line), src.text),
        atoms_from(src, at(a)) == table_head_atoms(name, tag) + atoms_from(
            src,
            at(table_head(a, name, tag, one_line)),
        ),
{
    let h = table_head(a, name, tag, one_line);
    lemma_put_char_extends(h, '{');
    lemma_within_earlier(h, h.put_char('{'), src.text);
    lemma_head_extends(a, name, tag, one_line);
    lemma_within_earlier(a, h, src.text);
    match (name, tag) {
        (Some(n), Some(t)) => {
            let c = a.write_string(n).put(" = "@);
            lemma_reads_before_bracket(src, c, t, one_line, '{');
            lemma_reads_name_assign(src, a, n);
            assert(seq![Atom::Text(n), Atom::Assign] + (seq![Atom::Text(t)] + atoms_from(
                src,
                at(h),
            )) =~= table_head_atoms(name, tag) + atoms_from(src, at(h)));
        },
        (Some(n), None) => {
            lemma_reads_before_bracket(src, a, n, one_line, '{');
        },
        (None, Some(t)) => {
            lemma_reads_before_bracket(src, a, t, one_line, '{');
        },
        (None, None) => {
            assert(table_head_atoms(name, tag) + atoms_from(src, at(h)) =~= atoms_from(
                src,
                at(h),
            ));
        },
    }
}

/// A name with `=` and a bracket behind it reads back, and so does the `=`.
proof fn lemma_reads_name_then_bracket(
    src: SourceView,
    a: PrinterView,
    n: Seq<char>,
    one_line: bool,
)
    requires
        within(a.write_string(n).put(" ="@).before_bracket(one_line), src.text),
    ensures
        atoms_from(src, at(a)) == seq![Atom::Text(n), Atom::Assign] + atoms_from(
            src,
            at(a.write_string(n).put(" ="@).before_bracket(one_line)),
        ),
{
    reveal_strlit(" =");
    let b = a.write_string(n);
    let c = b.put(" ="@);
    let h = c.before_bracket(one_line);
    lemma_op_before_bracket(src, c, one_line);
    lemma_piece(b, " ="@, src.text);
    assert(src.text[at(b) + 0] == " ="@[0]);
    assert(src.text[at(b) + 1] == " ="@[1]);
    lemma_op_write_string(src, a, n);
    lemma_reads_gap(src, at(b));
    lemma_reads_punct(src, at(b) + 1);
    assert(seq![Atom::Text(n)] + (seq![Atom::Assign] + atoms_from(src, at(h))) =~= seq![
        Atom::Text(n),
        Atom::Assign,
    ] + atoms_from(src, at(h)));
}

/// What stands before the bracket of an array reads back.
proof fn lemma_array_head_reads(
    src: SourceView,
    a: PrinterView,
    name: Option<Seq<char>>,
    tag: Option<Seq<char>>,
    one_line: bool,
)
    requires
        within(array_head(a, name, tag, one_line).put_char('['), src.text),
    ensures
        within(a, src.text),
        within(array_head(a, name, tag, one_line), src.text),
        atoms_from(src, at(a)) == array_head_atoms(name, tag) + atoms_from(
            src,
            at(array_head(a, name, tag, one_line)),
        ),
{
    let h = array_head(a, name, tag, one_line);
    lemma_put_char_extends(h, '[');
    lemma_within_earlier(h, h.put_char('['), src.text);
    lemma_head_extends(a, name, tag, one_line);
    lemma_within_earlier(a, h, src.text);
    match (name, tag) {
        (Some(n), Some(t)) => {
            let c = a.write_string(n).put(" = "@);
            lemma_reads_before_bracket(src, c, t, one_line, '[');
            lemma_reads_name_assign(src, a, n);
            assert(seq![Atom::Text(n), Atom::Assign] + (seq![Atom::Text(t)] + atoms_from(
                src,
                at(h),
            )) =~= array_head_atoms(name, tag) + atoms_from(src, at(h)));
        },
        (Some(n), None) => {
            lemma_reads_name_then_bracket(src, a, n, one_line);
        },
        (None, Some(t)) => {
            lemma_reads_before_bracket(src, a, t, one_line, '[');
        },
        (None, None) => {
            assert(array_head_atoms(name, tag) + atoms_from(src, at(h)) =~= atoms_from(
                src,
                at(h),
            ));
        },
    }
}

/// The level that a table or array opens: empty, and on one line only where
/// it is an array or stays empty.
pub open spec fn opens(p: PrinterView) -> bool {
    &&& p.levels.len() > 1
    &&& p.top().is_empty
}

/// The first entry of a table that is not on one line starts on a new line.
proof fn lemma_first_entry_breaks(p: PrinterView)
    requires
        opens(p),
        !p.top().one_line,
    ensures
        p.start_value().out.len() > p.out.len(),
        p.start_value().out[at(p)] == '\n',
{
    let b = p.put_char('\n');
    lemma_put_extends(b, repeat('\t', b.depth()));
    assert(p.start_value().out.subrange(0, at(b))[at(p)] == b.out[at(p)]);
}

/// The closing bracket of a table or array reads back.
proof fn lemma_end_reads(src: SourceView, p: PrinterView, is_table: bool)
    requires
        p.levels.len() > 1,
        is_table ==> within(p.end_table(false), src.text),
        !is_table ==> within(p.end_array(), src.text),
    ensures
        within(p, src.text),
        is_table ==> atoms_from(src, at(p)) == seq![Atom::RightBrace] + atoms_from(
            src,
            at(p.end_table(false)),
        ),
        !is_table ==> atoms_from(src, at(p)) == seq![Atom::RightBracket] + atoms_from(
            src,
            at(p.end_array()),
        ),
{
    let a = if p.breaks() {
        p.put_char('\n')
    } else {
        p
    };
    let b = if p.breaks() {
        a.put(repeat('\t', (p.depth() - 1) as nat))
    } else {
        a
    };
    let c = b.closed();
    let bracket = if is_table {
        '}'
    } else {
        ']'
    };
    assert(c.put_char(bracket).out == b.put_char(bracket).out);
    assert(within(b.put_char(bracket), src.text));
    lemma_op_punct(src, b, bracket);
    if p.breaks() {
        lemma_op_tabs(src, a, (p.depth() - 1) as nat);
        lemma_op_gap(src, p, '\n');
    }
}

/// A value as the printer wrote it reads back.
proof fn lemma_value_reads(src: SourceView, p: PrinterView, v: Seq<char>, name: Option<Seq<char>>)
    requires
        p.wf(),
        within(p.value(name, v), src.text),
        stops_at(src.text, at(p.value(name, v))),
    ensures
        atoms_from(src, at(p.start_value())) == item_atoms(
            name,
            ElementView { kind: ElementKindView::Value(v), span: crate::span::Span::invalid() },
        ) + atoms_from(src, at(p.value(name, v))),
{
    let a = p.start_value();
    let e = ElementView { kind: ElementKindView::Value(v), span: crate::span::Span::invalid() };
    let rest = atoms_from(src, at(p.value(name, v)));
    match name {
        Some(n) => {
            let c = a.write_string(n).put(" = "@);
            lemma_op_write_string(src, c, v);
            lemma_reads_name_assign(src, a, n);
            assert(seq![Atom::Text(n), Atom::Assign] + (seq![Atom::Text(v)] + rest)
                =~= item_atoms(name, e) + rest);
        },
        None => {
            lemma_op_write_string(src, a, v);
        },
    }
}

/// The atoms of an element do not depend on where it came from.
proof fn lemma_atoms_ignore_span(name: Option<Seq<char>>, e: ElementView, span: crate::span::Span)
    ensures
        item_atoms(name, ElementView { kind: e.kind, span }) == item_atoms(name, e),
{
}

/// Atoms that go on behind a comma go on behind the element before it.
proof fn lemma_join(whole: Seq<Atom>, lead: Seq<Atom>, middle: Seq<Atom>, item: Seq<Atom>, rest: Seq<Atom>)
    requires
        whole == lead + middle,
        middle == item + rest,
    ensures
        whole == lead + item + rest,
{
    assert(lead + (item + rest) =~= lead + item + rest);
}

/// An element as the printer wrote it reads back as its atoms, after the
/// comma that the printer put before it.
#[verifier::rlimit(40)]
pub proof fn lemma_element_reads(
    src: SourceView,
    p: PrinterView,
    e: ElementView,
    name: Option<Seq<char>>,
)
    requires
        sound(p),
        plain(e),
        within(print_element(p, e, name, false), src.text),
        stops_at(src.text, at(print_element(p, e, name, false))),
    ensures
        within(p, src.text),
        atoms_from(src, at(p)) == lead(p) + item_atoms(name, e) + atoms_from(
            src,
            at(print_element(p, e, name, false)),
        ),
    decreases e, 3nat,
{
    let done = print_element(p, e, name, false);
    let a = p.start_value();
    let rest = atoms_from(src, at(done));
    let middle = atoms_from(src, at(a));
    assert(within(p, src.text) && atoms_from(src, at(p)) == lead(p) + middle) by {
        lemma_element_shape(p, e, name);
        lemma_within_earlier(a, done, src.text);
        lemma_op_start_value(src, p);
    }
    assert(middle == item_atoms(name, e) + rest) by {
        if e.kind is Value {
            lemma_value_reads(src, p, e.kind->Value_0, name);
            lemma_atoms_ignore_span(name, e, crate::span::Span::invalid());
        } else if e.kind is Table || e.kind is TaggedTable {
            lemma_table_reads(src, p, e, name);
        } else {
            lemma_array_reads(src, p, e, name);
        }
    }
    lemma_join(atoms_from(src, at(p)), lead(p), middle, item_atoms(name, e), rest);
}

/// A table as the printer wrote it reads back: its head, its entries
/// between braces.
#[verifier::rlimit(40)]
proof fn lemma_table_reads(src: SourceView, p: PrinterView, e: ElementView, name: Option<Seq<char>>)
    requires
        sound(p),
        plain(e),
        e.kind is Table || e.kind is TaggedTable,
        within(print_element(p, e, name, false), src.text),
    ensures
        atoms_from(src, at(p.start_value())) == item_atoms(name, e) + atoms_from(
            src,
            at(print_element(p, e, name, false)),
        ),
    decreases e, 2nat,
{
    let full = src.text;
    let es = e.kind.entries()->0;
    let tag = e.kind.tag();
    let one_line = es.len() == 0;
    let a = p.start_value();
    let h = table_head(a, name, tag, one_line);
    let q = p.start_table(name, tag, false, one_line);
    let r = print_entries(q, es, es.len() as int);
    let done = r.end_table(false);
    assert(done == print_element(p, e, name, false));
    assert(forall|i: int| 0 <= i < es.len() ==> plain((#[trigger] es[i]).1));
    assert(opens(q) && !q.top().in_array && q.top().one_line == one_line && q.out == h.put_char(
        '{',
    ).out) by {
        lemma_start_shape(p, name, tag, one_line);
    }
    assert(r.levels.len() > 1 && within(r, full) && within(q, full) && (es.len() > 0
        ==> stops_at(full, at(r)))) by {
        lemma_entries_shape(q, es, es.len() as int);
        lemma_end_shape(r);
        lemma_within_earlier(r, done, full);
        lemma_within_earlier(q, r, full);
        if es.len() > 0 {
            assert(full.subrange(0, at(done))[at(r)] == done.out[at(r)]);
        }
    }
    assert(within(h.put_char('{'), full));
    let head = table_head_atoms(name, tag);
    let after_head = atoms_from(src, at(h));
    assert(atoms_from(src, at(a)) == head + after_head) by {
        lemma_table_head_reads(src, a, name, tag, one_line);
    }
    assert(at(q) < full.len() && (full[at(q)] == '}' || full[at(q)] == '\n')) by {
        lemma_after_open_brace(full, q, es);
    }
    let inside = atoms_from(src, at(q));
    assert(after_head == seq![Atom::LeftBrace] + inside) by {
        lemma_op_punct(src, h, '{');
    }
    let closing = atoms_from(src, at(r));
    let rest = atoms_from(src, at(done));
    assert(inside == entries_atoms(es, es.len() as int) + closing) by {
        lemma_entries_read(src, q, es, es.len() as int);
    }
    assert(closing == seq![Atom::RightBrace] + rest) by {
        lemma_end_reads(src, r, true);
    }
    lemma_table_item_atoms(name, e, rest);
}

/// The atoms of a table with its name: head, braces and entries.
proof fn lemma_table_item_atoms(name: Option<Seq<char>>, e: ElementView, rest: Seq<Atom>)
    requires
        e.kind is Table || e.kind is TaggedTable,
    ensures
        ({
            let es = e.kind.entries()->0;
            table_head_atoms(name, e.kind.tag()) + (seq![Atom::LeftBrace] + (entries_atoms(
                es,
                es.len() as int,
            ) + (seq![Atom::RightBrace] + rest))) == item_atoms(name, e) + rest
        }),
{
    let es = e.kind.entries()->0;
    assert(table_head_atoms(name, e.kind.tag()) + (seq![Atom::LeftBrace] + (entries_atoms(
        es,
        es.len() as int,
    ) + (seq![Atom::RightBrace] + rest))) =~= item_atoms(name, e) + rest);
}

/// Behind the brace that opens a table stands the brace that closes it, or
/// the new line before its first entry.
proof fn lemma_after_open_brace(full: Seq<char>, q: PrinterView, es: Entries)
    requires
        opens(q),
        q.top().one_line == (es.len() == 0),
        within(print_entries(q, es, es.len() as int).end_table(false), full),
    ensures
        at(q) < full.len(),
        full[at(q)] == '}' || full[at(q)] == '\n',
{
    let r = print_entries(q, es, es.len() as int);
    let done = r.end_table(false);
    lemma_entries_shape(q, es, es.len() as int);
    lemma_end_shape(r);
    lemma_within_earlier(r, done, full);
    if es.len() == 0 {
        assert(r == q);
        assert(full.subrange(0, at(done))[at(q)] == done.out[at(q)]);
    } else {
        lemma_entries_shape(q, es, 1);
        lemma_element_shape(q, es[0].1, Some(es[0].0));
        lemma_first_entry_breaks(q);
        let first = print_entries(q, es, 1);
        assert(print_entries(q, es, 0) == q);
        lemma_entries_extend(q, es, 1, es.len() as int);
        lemma_within_earlier(first, r, full);
        assert(first.out.subrange(0, at(q.start_value()))[at(q)] == q.start_value().out[at(q)]);
        assert(full.subrange(0, at(first))[at(q)] == first.out[at(q)]);
    }
}

/// More entries printed means more written.
proof fn lemma_entries_extend(p: PrinterView, es: Entries, j: int, k: int)
    requires
        p.wf(),
        0 <= j <= k <= es.len(),
    ensures
        extends(print_entries(p, es, j), print_entries(p, es, k)),
    decreases k - j,
{
    if j == k {
        lemma_extends_refl(print_entries(p, es, j));
    } else {
        lemma_entries_extend(p, es, j, k - 1);
        lemma_entries_shape(p, es, k - 1);
        let q = print_entries(p, es, k - 1);
        lemma_element_shape(q, es[k - 1].1, Some(es[k - 1].0));
        lemma_start_value_extends(q);
        lemma_extends_trans(q, q.start_value(), print_entries(p, es, k));
        lemma_extends_trans(print_entries(p, es, j), q, print_entries(p, es, k));
    }
}

/// More elements printed means more written.
proof fn lemma_elements_extend(p: PrinterView, arr: Seq<ElementView>, j: int, k: int)
    requires
        p.wf(),
        0 <= j <= k <= arr.len(),
    ensures
        extends(print_elements(p, arr, j), print_elements(p, arr, k)),
    decreases k - j,
{
    if j == k {
        lemma_extends_refl(print_elements(p, arr, j));
    } else {
        lemma_elements_extend(p, arr, j, k - 1);
        lemma_elements_shape(p, arr, k - 1);
        let q = print_elements(p, arr, k - 1);
        lemma_element_shape(q, arr[k - 1], None);
        lemma_start_value_extends(q);
        lemma_extends_trans(q, q.start_value(), print_elements(p, arr, k));
        lemma_extends_trans(print_elements(p, arr, j), q, print_elements(p, arr, k));
    }
}

/// The first `k` entries of a table, as the printer wrote them into a level
/// that it had just opened, read back as their atoms.
proof fn lemma_entries_read(src: SourceView, p: PrinterView, es: Entries, k: int)
    requires
        p.wf(),
        p.top().is_empty,
        !p.top().in_array,
        es.len() > 0 ==> !p.top().one_line,
        0 <= k <= es.len(),
        forall|i: int| 0 <= i < es.len() ==> plain((#[trigger] es[i]).1),
        within(print_entries(p, es, k), src.text),
        k > 0 ==> stops_at(src.text, at(print_entries(p, es, k))),
    ensures
        atoms_from(src, at(p)) == entries_atoms(es, k) + atoms_from(
            src,
            at(print_entries(p, es, k)),
        ),
    decreases es, k,
{
    let full = src.text;
    if k == 0 {
        assert(entries_atoms(es, 0) + atoms_from(src, at(p)) =~= atoms_from(src, at(p)));
    } else {
        let q = print_entries(p, es, k - 1);
        let r = print_entries(p, es, k);
        lemma_entries_shape(p, es, k - 1);
        lemma_element_shape(q, es[k - 1].1, Some(es[k - 1].0));
        lemma_start_value_extends(q);
        lemma_extends_trans(q, q.start_value(), r);
        lemma_within_earlier(q, r, full);
        assert(sound(q));
        lemma_element_reads(src, q, es[k - 1].1, Some(es[k - 1].0));
        if k - 1 > 0 {
            lemma_within_earlier(q.start_value(), r, full);
            lemma_op_start_value(src, q);
            assert(stops_at(full, at(q))) by {
                assert(full.subrange(0, at(q.start_value()))[at(q)] == q.start_value().out[at(q)]);
            }
        }
        lemma_entries_read(src, p, es, k - 1);
        assert(lead(q) =~= Seq::<Atom>::empty());
        assert(entries_atoms(es, k - 1) + (lead(q) + item_atoms(
            Some(es[k - 1].0),
            es[k - 1].1,
        ) + atoms_from(src, at(r))) =~= entries_atoms(es, k) + atoms_from(src, at(r)));
    }
}

/// An array as the printer wrote it reads back: its head, its elements
/// between brackets.
#[verifier::rlimit(40)]
proof fn lemma_array_reads(src: SourceView, p: PrinterView, e: ElementView, name: Option<Seq<char>>)
    requires
        sound(p),
        plain(e),
        e.kind is Array || e.kind is TaggedArray,
        within(print_element(p, e, name, false), src.text),
    ensures
        atoms_from(src, at(p.start_value())) == item_atoms(name, e) + atoms_from(
            src,
            at(print_element(p, e, name, false)),
        ),
    decreases e, 2nat,
{
    let full = src.text;
    let arr = e.kind.elements()->0;
    let tag = e.kind.tag();
    let one_line = crate::config_element::fits_one_line(arr);
    let a = p.start_value();
    let h = array_head(a, name, tag, one_line);
    let q = p.start_array(name, tag, one_line);
    let r = print_elements(q, arr, arr.len() as int);
    let done = r.end_array();
    assert(done == print_element(p, e, name, false));
    assert(forall|i: int| 0 <= i < arr.len() ==> plain(#[trigger] arr[i]));
    assert(opens(q) && q.top().in_array && q.out == h.put_char('[').out) by {
        lemma_start_shape(p, name, tag, one_line);
    }
    assert(r.levels.len() > 1 && within(r, full) && within(q, full) && (arr.len() > 0
        ==> stops_at(full, at(r)))) by {
        lemma_elements_shape(q, arr, arr.len() as int);
        lemma_end_shape(r);
        lemma_within_earlier(r, done, full);
        lemma_within_earlier(q, r, full);
        if arr.len() > 0 {
            assert(full.subrange(0, at(done))[at(r)] == done.out[at(r)]);
        }
    }
    assert(within(h.put_char('['), full));
    let head = array_head_atoms(name, tag);
    let after_head = atoms_from(src, at(h));
    assert(atoms_from(src, at(a)) == head + after_head) by {
        lemma_array_head_reads(src, a, name, tag, one_line);
    }
    let inside = atoms_from(src, at(q));
    assert(after_head == seq![Atom::LeftBracket] + inside) by {
        lemma_op_punct(src, h, '[');
    }
    let closing = atoms_from(src, at(r));
    let rest = atoms_from(src, at(done));
    assert(inside == elements_atoms(arr, arr.len() as int) + closing) by {
        lemma_elements_read(src, q, arr, arr.len() as int);
    }
    assert(closing == seq![Atom::RightBracket] + rest) by {
        lemma_end_reads(src, r, false);
    }
    lemma_array_item_atoms(name, e, rest);
}

/// The atoms of an array with its name: head, brackets and elements.
proof fn lemma_array_item_atoms(name: Option<Seq<char>>, e: ElementView, rest: Seq<Atom>)
    requires
        e.kind is Array || e.kind is TaggedArray,
    ensures
        ({
            let arr = e.kind.elements()->0;
            array_head_atoms(name, e.kind.tag()) + (seq![Atom::LeftBracket] + (elements_atoms(
                arr,
                arr.len() as int,
            ) + (seq![Atom::RightBracket] + rest))) == item_atoms(name, e) + rest
        }),
{
    let arr = e.kind.elements()->0;
    assert(array_head_atoms(name, e.kind.tag()) + (seq![Atom::LeftBracket] + (elements_atoms(
        arr,
        arr.len() as int,
    ) + (seq![Atom::RightBracket] + rest))) =~= item_atoms(name, e) + rest);
}

/// The first `k` elements of an array, as the printer wrote them into a
/// level that it had just opened, read back as their atoms.
proof fn lemma_elements_read(src: SourceView, p: PrinterView, arr: Seq<ElementView>, k: int)
    requires
        p.wf(),
        p.top().is_empty,
        p.top().in_array,
        0 <= k <= arr.len(),
        forall|i: int| 0 <= i < arr.len() ==> plain(#[trigger] arr[i]),
        within(print_elements(p, arr, k), src.text),
        k > 0 ==> stops_at(src.text, at(print_elements(p, arr, k))),
    ensures
        atoms_from(src, at(p)) == elements_atoms(arr, k) + atoms_from(
            src,
            at(print_elements(p, arr, k)),
        ),
    decreases arr, k,
{
    let full = src.text;
    if k == 0 {
        assert(elements_atoms(arr, 0) + atoms_from(src, at(p)) =~= atoms_from(src, at(p)));
    } else {
        let q = print_elements(p, arr, k - 1);
        let r = print_elements(p, arr, k);
        lemma_elements_shape(p, arr, k - 1);
        lemma_element_shape(q, arr[k - 1], None);
        lemma_start_value_extends(q);
        lemma_extends_trans(q, q.start_value(), r);
        lemma_within_earlier(q, r, full);
        assert(sound(q));
        lemma_element_reads(src, q, arr[k - 1], None);
        if k - 1 > 0 {
            lemma_within_earlier(q.start_value(), r, full);
            lemma_op_start_value(src, q);
            assert(stops_at(full, at(q))) by {
                assert(full.subrange(0, at(q.start_value()))[at(q)] == q.start_value().out[at(q)]);
            }
        }
        lemma_elements_read(src, p, arr, k - 1);
        let tail = atoms_from(src, at(r));
        if k == 1 {
            assert(q == p);
            assert(lead(q) =~= Seq::<Atom>::empty());
            assert(elements_atoms(arr, 0) + (lead(q) + item_atoms(None, arr[0]) + tail)
                =~= elements_atoms(arr, 1) + tail);
        } else {
            assert(lead(q) =~= seq![Atom::Comma]);
            assert(elements_atoms(arr, k - 1) + (lead(q) + item_atoms(None, arr[k - 1]) + tail)
                =~= elements_atoms(arr, k) + tail);
        }
    }
}

/// The atoms of a document: those of the entries of its root table.
pub open spec fn document_atoms(root: ElementView) -> Seq<Atom> {
    match root.kind.entries() {
        Some(es) => entries_atoms(es, es.len() as int),
        None => Seq::empty(),
    }
}

/// The text of a document reads back as the atoms of the document.
pub proof fn lemma_document_reads(src: SourceView, root: ElementView)
    requires
        plain(root),
        root.kind.entries() is Some,
        src.text == crate::config_element::rendered(root),
    ensures
        atoms_from(src, 0) == document_atoms(root),
{
    let full = src.text;
    let es = root.kind.entries()->0;
    let fresh = PrinterView::fresh();
    let q = fresh.start_table(None, root.kind.tag(), true, es.len() == 0);
    let r = print_entries(q, es, es.len() as int);
    let done = r.end_table(true);
    assert(done == print_element(fresh, root, None, true));
    assert(q.levels =~= fresh.levels);
    assert(q.out =~= Seq::<char>::empty());
    lemma_entries_shape(q, es, es.len() as int);
    lemma_extends_refl(done);
    assert(within(done, full)) by {
        assert(full.subrange(0, full.len() as int) == full);
    }
    let gone = atoms_from(src, at(done));
    assert(gone == Seq::<Atom>::empty()) by {
        assert(lexemes_from(src, at(done)) == Seq::<Lexeme>::empty());
        assert(atoms_of(Seq::<Lexeme>::empty()) =~= Seq::<Atom>::empty());
    }
    if es.len() > 0 {
        assert(r.breaks());
        assert(done == r.put_char('\n'));
        lemma_put_char_extends(r, '\n');
        lemma_within_earlier(r, done, full);
        assert(stops_at(full, at(r))) by {
            assert(full[at(r)] == done.out[at(r)]);
        }
        lemma_entries_read(src, q, es, es.len() as int);
        lemma_op_gap(src, r, '\n');
        assert(entries_atoms(es, es.len() as int) + gone =~= entries_atoms(es, es.len() as int));
    } else {
        assert(r == q);
        assert(!r.breaks());
        assert(done == q);
    }
}

} // verus!
