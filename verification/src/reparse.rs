//! Parsing what the lexer found in printed text: which document the grammar
//! and the builder make of the atoms of a document.

use vstd::prelude::*;
use crate::config_element::{
    build_step, entries_insert, find_key, fits_one_line, has_entries, key_index, keys_unique,
    lemma_key_index, plain, print_element, print_elements, print_entries, ConfigElementVisitor,
    ElementKindView, ElementView, Entries, FrameView,
};
use crate::config_string::{string_of_token, ConfigStringView};
use crate::error::ErrorView;
use crate::lexer::Lexeme;
use crate::parser::{
    array, array_contents, array_element, closing, ended, first_of, head, rhs, string_expr, table,
    table_contents, table_element, tagged_array, tagged_table, unnamed, Step,
};
use crate::printer::PrinterView;
use crate::relex::{atom_of, body_atoms, item_atoms, link_atoms, Atom};
use crate::source::SourceView;
use crate::span::Span;
use crate::visitor::{Event, Visitor};

verus! {

/// An element without the places it came from.
pub open spec fn strip(e: ElementView) -> ElementView
    decreases e,
{
    let nothing = ElementView::value(Seq::empty());
    ElementView {
        kind: match e.kind {
            ElementKindView::Value(v) => ElementKindView::Value(v),
            ElementKindView::Table(es) => ElementKindView::Table(
                Seq::new(
                    es.len(),
                    |i: int|
                        if 0 <= i < es.len() {
                            (es[i].0, strip(es[i].1))
                        } else {
                            (Seq::empty(), nothing)
                        },
                ),
            ),
            ElementKindView::TaggedTable(t, es) => ElementKindView::TaggedTable(
                t,
                Seq::new(
                    es.len(),
                    |i: int|
                        if 0 <= i < es.len() {
                            (es[i].0, strip(es[i].1))
                        } else {
                            (Seq::empty(), nothing)
                        },
                ),
            ),
            ElementKindView::Array(a) => ElementKindView::Array(
                Seq::new(
                    a.len(),
                    |i: int|
                        if 0 <= i < a.len() {
                            strip(a[i])
                        } else {
                            nothing
                        },
                ),
            ),
            ElementKindView::TaggedArray(t, a) => ElementKindView::TaggedArray(
                t,
                Seq::new(
                    a.len(),
                    |i: int|
                        if 0 <= i < a.len() {
                            strip(a[i])
                        } else {
                            nothing
                        },
                ),
            ),
            ElementKindView::MultiLineArray(a) => ElementKindView::MultiLineArray(
                Seq::new(
                    a.len(),
                    |i: int|
                        if 0 <= i < a.len() {
                            strip(a[i])
                        } else {
                            nothing
                        },
                ),
            ),
            ElementKindView::MultiLineTaggedArray(t, a) => ElementKindView::MultiLineTaggedArray(
                t,
                Seq::new(
                    a.len(),
                    |i: int|
                        if 0 <= i < a.len() {
                            strip(a[i])
                        } else {
                            nothing
                        },
                ),
            ),
        },
        span: Span::invalid(),
    }
}

/// Entries without the places they came from.
pub open spec fn strip_entries(es: Entries) -> Entries {
    Seq::new(es.len(), |i: int| (es[i].0, strip(es[i].1)))
}

/// Elements without the places they came from.
pub open spec fn strip_elements(a: Seq<ElementView>) -> Seq<ElementView> {
    Seq::new(a.len(), |i: int| strip(a[i]))
}

/// What `strip` makes of each kind of element.
pub proof fn lemma_strip(e: ElementView)
    ensures
        strip(e).span == Span::invalid(),
        match e.kind {
            ElementKindView::Value(v) => strip(e).kind == ElementKindView::Value(v),
            ElementKindView::Table(es) => strip(e).kind == ElementKindView::Table(
                strip_entries(es),
            ),
            ElementKindView::TaggedTable(t, es) => strip(e).kind == ElementKindView::TaggedTable(
                t,
                strip_entries(es),
            ),
            ElementKindView::Array(a) => strip(e).kind == ElementKindView::Array(
                strip_elements(a),
            ),
            ElementKindView::TaggedArray(t, a) => strip(e).kind == ElementKindView::TaggedArray(
                t,
                strip_elements(a),
            ),
            ElementKindView::MultiLineArray(a) => strip(e).kind
                == ElementKindView::MultiLineArray(strip_elements(a)),
            ElementKindView::MultiLineTaggedArray(t, a) => strip(e).kind
                == ElementKindView::MultiLineTaggedArray(t, strip_elements(a)),
        },
{
    match e.kind {
        ElementKindView::Value(v) => {},
        ElementKindView::Table(es) => {
            assert(strip(e).kind->Table_0 =~= strip_entries(es));
        },
        ElementKindView::TaggedTable(t, es) => {
            assert(strip(e).kind->TaggedTable_1 =~= strip_entries(es));
        },
        ElementKindView::Array(a) => {
            assert(strip(e).kind->Array_0 =~= strip_elements(a));
        },
        ElementKindView::TaggedArray(t, a) => {
            assert(strip(e).kind->TaggedArray_1 =~= strip_elements(a));
        },
        ElementKindView::MultiLineArray(a) => {
            assert(strip(e).kind->MultiLineArray_0 =~= strip_elements(a));
        },
        ElementKindView::MultiLineTaggedArray(t, a) => {
            assert(strip(e).kind->MultiLineTaggedArray_1 =~= strip_elements(a));
        },
    }
}

/// Where a key stands does not depend on the places of the elements.
pub proof fn lemma_strip_keeps_keys(a: Entries, b: Entries, key: Seq<char>, k: int)
    requires
        a.len() == b.len(),
        0 <= k <= a.len(),
        forall|i: int| 0 <= i < a.len() ==> (#[trigger] a[i]).0 == b[i].0,
    ensures
        key_index(a, key, k) == key_index(b, key, k),
    decreases k,
{
    if k > 0 {
        lemma_strip_keeps_keys(a, b, key, k - 1);
        assert(a[k - 1].0 == b[k - 1].0);
    }
}

/// Entries that are alike but for places stay alike when alike elements are
/// put into them under the same key.
pub proof fn lemma_insert_alike(
    a: Entries,
    b: Entries,
    key: Seq<char>,
    x: ElementView,
    y: ElementView,
)
    requires
        strip_entries(a) == strip_entries(b),
        strip(x) == strip(y),
    ensures
        strip_entries(entries_insert(a, key, x)) == strip_entries(entries_insert(b, key, y)),
{
    assert(a.len() == strip_entries(a).len());
    assert(b.len() == strip_entries(b).len());
    assert forall|i: int| 0 <= i < a.len() implies (#[trigger] a[i]).0 == b[i].0 && strip(a[i].1)
        == strip(b[i].1) by {
        assert(strip_entries(a)[i] == strip_entries(b)[i]);
    }
    lemma_strip_keeps_keys(a, b, key, a.len() as int);
    lemma_key_index(a, key, a.len() as int);
    let p = entries_insert(a, key, x);
    let q = entries_insert(b, key, y);
    assert(strip_entries(p) =~= strip_entries(q)) by {
        assert forall|i: int| 0 <= i < p.len() implies strip_entries(p)[i] == strip_entries(q)[i] by {
            if i < a.len() && find_key(a, key) != Some(i) {
                assert(p[i] == a[i]);
                assert(q[i] == b[i]);
            }
        }
    }
}

/// The lexemes start with lexemes of these atoms.
pub open spec fn starts(toks: Seq<Lexeme>, atoms: Seq<Atom>) -> bool {
    &&& toks.len() >= atoms.len()
    &&& forall|i: int| 0 <= i < atoms.len() ==> atom_of(#[trigger] toks[i]) == atoms[i]
}

/// What may stand behind an element in printed text: a string, a closing
/// bracket, a comma, or nothing.
pub open spec fn ok_next(toks: Seq<Lexeme>, n: int) -> bool {
    n >= toks.len() || n < 0 || match atom_of(toks[n]) {
        Atom::Text(_) => true,
        Atom::RightBrace => true,
        Atom::RightBracket => true,
        Atom::Comma => true,
        _ => false,
    }
}

pub proof fn lemma_starts_split(toks: Seq<Lexeme>, a: Seq<Atom>, b: Seq<Atom>)
    requires
        starts(toks, a + b),
    ensures
        starts(toks, a),
        starts(toks.skip(a.len() as int), b),
{
    assert forall|i: int| 0 <= i < a.len() implies atom_of(#[trigger] toks[i]) == a[i] by {
        assert((a + b)[i] == a[i]);
    }
    let rest = toks.skip(a.len() as int);
    assert forall|i: int| 0 <= i < b.len() implies atom_of(#[trigger] rest[i]) == b[i] by {
        assert((a + b)[a.len() + i] == b[i]);
        assert(rest[i] == toks[a.len() + i]);
    }
}

/// The frame that the start of an element opens.
pub open spec fn fresh_frame(name: Seq<char>) -> FrameView {
    FrameView { name, elem: ElementView::value(Seq::empty()), init: false }
}

/// The stacks differ in the element of their top frames alone, and those
/// elements are alike but for places.
pub open spec fn alike_but_top(a: Seq<FrameView>, b: Seq<FrameView>, e: ElementView) -> bool {
    &&& a.len() == b.len()
    &&& a.len() >= 1
    &&& a.drop_last() == b.drop_last()
    &&& b.last().name == a.last().name
    &&& strip(b.last().elem) == strip(e)
}

/// The first lexeme where its atom is known.
proof fn lemma_head(toks: Seq<Lexeme>, a: Atom)
    requires
        toks.len() > 0,
        atom_of(toks[0]) == a,
        !(a is Other),
    ensures
        head(toks) == Some(toks[0]),
        toks[0] is Ok,
        a is Text ==> toks[0]->Ok_0.kind.is_string() && string_of_token(toks[0]->Ok_0).decoded()
            == a->Text_0,
        a is Assign <==> toks[0]->Ok_0.kind is Assign,
        a is LeftBrace <==> toks[0]->Ok_0.kind is LeftBrace,
        a is RightBrace <==> toks[0]->Ok_0.kind is RightBrace,
        a is LeftBracket <==> toks[0]->Ok_0.kind is LeftBracket,
        a is RightBracket <==> toks[0]->Ok_0.kind is RightBracket,
        a is Comma <==> toks[0]->Ok_0.kind is Comma,
        !(toks[0]->Ok_0.kind is Tilde),
        !(toks[0]->Ok_0.kind is Dollar),
        a is Text <==> toks[0]->Ok_0.kind.is_string(),
{
}

/// What follows an element in printed text does not go on a string
/// expression and opens nothing.
proof fn lemma_next(toks: Seq<Lexeme>, n: int)
    requires
        0 <= n <= toks.len(),
        ok_next(toks, n),
    ensures
        match head(toks.skip(n)) {
            None => n >= toks.len(),
            Some(Ok(t)) => !(t.kind is Tilde) && !(t.kind is LeftBrace) && !(t.kind
                is LeftBracket) && !(t.kind is Dollar) && !(t.kind is Assign),
            Some(Err(_)) => false,
        },
{
    if n < toks.len() {
        assert(toks.skip(n)[0] == toks[n]);
    }
}

/// A single string reads as a string expression: its text goes into the
/// frame that the element's start has opened.
proof fn lemma_value_parses(src: SourceView, toks: Seq<Lexeme>, st: Seq<FrameView>, v: Seq<char>)
    requires
        starts(toks, seq![Atom::Text(v)]),
        ok_next(toks, 1),
        st.len() >= 1,
        st.last().elem == ElementView::value(Seq::empty()),
    ensures
        string_expr::<ConfigElementVisitor>(src, toks, st, None) is Matched,
        string_expr::<ConfigElementVisitor>(src, toks, st, None)->Matched_0 == toks.skip(1),
        alike_but_top(
            st,
            string_expr::<ConfigElementVisitor>(src, toks, st, None)->Matched_1,
            ElementView::value(v),
        ),
{
    assert(atom_of(toks[0]) == seq![Atom::Text(v)][0]);
    lemma_head(toks, Atom::Text(v));
    lemma_next(toks, 1);
    let t = toks[0]->Ok_0;
    let rest = toks.drop_first();
    assert(rest =~= toks.skip(1));
    let accepted = build_step(st, src, Event::AppendString(string_of_token(t)));
    assert(accepted is Ok);
    let s = accepted->Ok_0;
    assert(s.drop_last() =~= st.drop_last());
    assert(Seq::<char>::empty() + v =~= v);
    lemma_strip(s.last().elem);
    lemma_strip(ElementView::value(v));
}

/// Elements that are alike but for places give alike elements when put
/// into the same element under the same name.
pub proof fn lemma_strip_insert(parent: ElementView, name: Seq<char>, x: ElementView, y: ElementView)
    requires
        strip(x) == strip(y),
    ensures
        strip(parent.insert(name, x)) == strip(parent.insert(name, y)),
{
    lemma_strip(parent.insert(name, x));
    lemma_strip(parent.insert(name, y));
    match parent.kind {
        ElementKindView::Value(_) => {},
        ElementKindView::Table(es) => {
            lemma_insert_alike(es, es, name, x, y);
        },
        ElementKindView::TaggedTable(_, es) => {
            lemma_insert_alike(es, es, name, x, y);
        },
        _ => {
            let a = parent.kind.elements()->0;
            assert(strip_elements(a.push(x)) =~= strip_elements(a.push(y)));
        },
    }
}

/// A table with the entries `es`, of the kind of `base`.
pub open spec fn table_of(base: ElementKindView, es: Entries) -> ElementView {
    ElementView { kind: base.with_entries(es), span: Span::invalid() }
}

/// An array with the elements `arr`, of the kind of `base`.
pub open spec fn array_of(base: ElementKindView, arr: Seq<ElementView>) -> ElementView {
    ElementView { kind: base.with_elements(arr), span: Span::invalid() }
}

/// A table that is alike to one with the first `j` of unique entries is,
/// with the next entry put into it, alike to one with the first `j + 1`.
proof fn lemma_grow_entries(cur: ElementView, base: ElementKindView, es: Entries, j: int, x: ElementView)
    requires
        0 <= j < es.len(),
        keys_unique(es),
        base is Table || base is TaggedTable,
        strip(cur) == strip(table_of(base, es.take(j))),
        strip(x) == strip(es[j].1),
    ensures
        strip(cur.insert(es[j].0, x)) == strip(table_of(base, es.take(j + 1))),
{
    let key = es[j].0;
    let before = es.take(j);
    lemma_strip(cur);
    lemma_strip(table_of(base, before));
    lemma_strip(cur.insert(key, x));
    lemma_strip(table_of(base, es.take(j + 1)));
    let mine = cur.kind.entries()->0;
    assert(strip_entries(mine) == strip_entries(before));
    lemma_insert_alike(mine, before, key, x, es[j].1);
    // The key is new among the entries before it.
    lemma_key_index(before, key, j);
    assert(find_key(before, key) is None) by {
        if find_key(before, key) is Some {
            let i = find_key(before, key)->0;
            assert(before[i] == es[i]);
            assert(es[i].0 != es[j].0);
        }
    }
    assert(entries_insert(before, key, es[j].1) =~= es.take(j + 1));
}

/// An array that is alike to one with the first `j` elements is, with an
/// element alike to the next behind them, alike to one with the first
/// `j + 1`.
proof fn lemma_grow_elements(
    cur: ElementView,
    base: ElementKindView,
    arr: Seq<ElementView>,
    j: int,
    name: Seq<char>,
    x: ElementView,
)
    requires
        0 <= j < arr.len(),
        base is Array || base is TaggedArray,
        strip(cur) == strip(array_of(base, arr.take(j))),
        strip(x) == strip(arr[j]),
    ensures
        strip(cur.insert(name, x)) == strip(array_of(base, arr.take(j + 1))),
{
    lemma_strip(cur);
    lemma_strip(array_of(base, arr.take(j)));
    lemma_strip(cur.insert(name, x));
    lemma_strip(array_of(base, arr.take(j + 1)));
    let mine = cur.kind.elements()->0;
    assert(strip_elements(mine) == strip_elements(arr.take(j)));
    assert(strip_elements(mine.push(x)) =~= strip_elements(arr.take(j + 1))) by {
        assert forall|i: int| 0 <= i < j + 1 implies strip_elements(mine.push(x))[i]
            == strip_elements(arr.take(j + 1))[i] by {
            if i < j {
                assert(strip_elements(mine)[i] == strip_elements(arr.take(j))[i]);
            }
        }
    }
}

/// The atoms of the entries from index `j` on.
pub open spec fn entries_tail(es: Entries, j: int) -> Seq<Atom>
    decreases es.len() - j,
{
    if j < 0 || j >= es.len() {
        Seq::empty()
    } else {
        item_atoms(Some(es[j].0), es[j].1) + entries_tail(es, j + 1)
    }
}

/// The atoms of the elements from index `j` on, each but the very first of
/// the array behind a comma.
pub open spec fn elements_tail(arr: Seq<ElementView>, j: int) -> Seq<Atom>
    decreases arr.len() - j,
{
    if j < 0 || j >= arr.len() {
        Seq::empty()
    } else if j == 0 {
        body_atoms(arr[j]) + elements_tail(arr, j + 1)
    } else {
        seq![Atom::Comma] + body_atoms(arr[j]) + elements_tail(arr, j + 1)
    }
}

/// The atoms of the first entries and those of the rest are the atoms of
/// all.
pub proof fn lemma_entries_tail(es: Entries, j: int)
    requires
        0 <= j <= es.len(),
    ensures
        crate::relex::entries_atoms(es, j) + entries_tail(es, j) == crate::relex::entries_atoms(
            es,
            es.len() as int,
        ),
    decreases es.len() - j,
{
    if j < es.len() {
        lemma_entries_tail(es, j + 1);
        assert(crate::relex::entries_atoms(es, j) + (item_atoms(Some(es[j].0), es[j].1)
            + entries_tail(es, j + 1)) =~= crate::relex::entries_atoms(es, j + 1) + entries_tail(
            es,
            j + 1,
        ));
    } else {
        assert(crate::relex::entries_atoms(es, j) + entries_tail(es, j)
            =~= crate::relex::entries_atoms(es, j));
    }
}

pub proof fn lemma_elements_tail(arr: Seq<ElementView>, j: int)
    requires
        0 <= j <= arr.len(),
    ensures
        crate::relex::elements_atoms(arr, j) + elements_tail(arr, j)
            == crate::relex::elements_atoms(arr, arr.len() as int),
    decreases arr.len() - j,
{
    if j < arr.len() {
        lemma_elements_tail(arr, j + 1);
        if j == 0 {
            assert(crate::relex::elements_atoms(arr, 0) + (body_atoms(arr[0]) + elements_tail(
                arr,
                1,
            )) =~= crate::relex::elements_atoms(arr, 1) + elements_tail(arr, 1));
        } else {
            assert(crate::relex::elements_atoms(arr, j) + (seq![Atom::Comma] + body_atoms(arr[j])
                + elements_tail(arr, j + 1)) =~= crate::relex::elements_atoms(arr, j + 1)
                + elements_tail(arr, j + 1));
        }
    } else {
        assert(crate::relex::elements_atoms(arr, j) + elements_tail(arr, j)
            =~= crate::relex::elements_atoms(arr, j));
    }
}

/// Every element has atoms.
pub proof fn lemma_body_atoms_nonempty(e: ElementView)
    ensures
        body_atoms(e).len() >= 1,
{
}

/// A rule matched the first `n` lexemes and left the stack as it was but
/// for the element of its top frame, which is alike to `e`.
pub open spec fn parsed(
    step: Step<Seq<FrameView>>,
    toks: Seq<Lexeme>,
    n: int,
    st: Seq<FrameView>,
    e: ElementView,
) -> bool {
    &&& step is Matched
    &&& step->Matched_0 == toks.skip(n)
    &&& alike_but_top(st, step->Matched_1, e)
}

/// The contents of a table or array took the first `n` lexemes and left the
/// stack as it was but for the element of its top frame, which is alike to
/// `e`.
pub open spec fn read(
    got: Result<(Seq<Lexeme>, Seq<FrameView>), ErrorView>,
    toks: Seq<Lexeme>,
    n: int,
    st: Seq<FrameView>,
    e: ElementView,
) -> bool {
    &&& got is Ok
    &&& got->Ok_0.0 == toks.skip(n)
    &&& alike_but_top(st, got->Ok_0.1, e)
}

/// Behind the first `n` lexemes stands the given closing bracket.
pub open spec fn closed_by(toks: Seq<Lexeme>, n: int, bracket: Atom) -> bool {
    0 <= n < toks.len() && atom_of(toks[n]) == bracket
}

/// The end of an element puts what the top frame holds into the frame
/// below, under the name of the top frame.
proof fn lemma_ended(
    src: SourceView,
    step: Step<Seq<FrameView>>,
    toks: Seq<Lexeme>,
    n: int,
    st: Seq<FrameView>,
    name: Seq<char>,
    e: ElementView,
)
    requires
        st.len() >= 1,
        !(st.last().elem.kind is Value),
        parsed(step, toks, n, st.push(fresh_frame(name)), e),
    ensures
        parsed(
            ended::<ConfigElementVisitor>(src, step),
            toks,
            n,
            st,
            st.last().elem.insert(name, e),
        ),
{
    let s = step->Matched_1;
    let pushed = st.push(fresh_frame(name));
    assert(pushed.drop_last() =~= st);
    assert(s.drop_last() == st);
    assert(s[s.len() - 2] == st.last()) by {
        assert(s.drop_last()[s.len() - 2] == s[s.len() - 2]);
    }
    let accepted = build_step(s, src, Event::EndElement);
    assert(accepted is Ok);
    let after = accepted->Ok_0;
    assert(after.drop_last() =~= st.drop_last()) by {
        assert forall|i: int| 0 <= i < st.len() - 1 implies after.drop_last()[i]
            == st.drop_last()[i] by {
            assert(s.drop_last()[i] == s[i]);
        }
    }
    lemma_strip_insert(st.last().elem, name, s.last().elem, e);
}

/// The start of an element opens a fresh frame under the element's name.
proof fn lemma_started(src: SourceView, st: Seq<FrameView>, name: ConfigStringView)
    ensures
        build_step(st, src, Event::StartElement(name)) == Ok::<Seq<FrameView>, ErrorView>(
            st.push(fresh_frame(name.decoded())),
        ),
{
}

/// The entry of a table as the printer wrote it parses to an element alike
/// to the entry, put into the table that is open.
pub proof fn lemma_entry_parses(
    src: SourceView,
    toks: Seq<Lexeme>,
    st: Seq<FrameView>,
    name: Seq<char>,
    e: ElementView,
)
    requires
        plain(e),
        starts(toks, item_atoms(Some(name), e)),
        ok_next(toks, item_atoms(Some(name), e).len() as int),
        st.len() >= 1,
        !(st.last().elem.kind is Value),
    ensures
        parsed(
            table_element::<ConfigElementVisitor>(src, toks, st),
            toks,
            item_atoms(Some(name), e).len() as int,
            st,
            st.last().elem.insert(name, e),
        ),
    decreases e, 5nat,
{
    let atoms = item_atoms(Some(name), e);
    let n = atoms.len() as int;
    lemma_starts_split(toks, seq![Atom::Text(name)], link_atoms(e) + body_atoms(e));
    assert(atoms =~= seq![Atom::Text(name)] + (link_atoms(e) + body_atoms(e)));
    assert(atom_of(toks[0]) == atoms[0]);
    lemma_head(toks, Atom::Text(name));
    let t = toks[0]->Ok_0;
    lemma_started(src, st, string_of_token(t));
    let s = st.push(fresh_frame(name));
    let rest = toks.drop_first();
    assert(rest =~= toks.skip(1));
    assert(atom_of(toks[1]) == atoms[1]);
    assert(rest[0] == toks[1]);
    if e.kind is Table {
        assert(link_atoms(e) + body_atoms(e) =~= body_atoms(e));
        lemma_head(rest, Atom::LeftBrace);
        let es = e.kind->Table_0;
        assert(ok_next(rest, n - 1)) by {
            if n < toks.len() {
                assert(rest[n - 1] == toks[n]);
            }
        }
        lemma_table_parses(src, rest, s, ElementKindView::Table(Seq::empty()), es, false);
        let inner = table::<ConfigElementVisitor>(src, rest, s, false);
        assert(table_of(ElementKindView::Table(Seq::empty()), es).kind == e.kind);
        assert(strip(table_of(ElementKindView::Table(Seq::empty()), es)) == strip(e)) by {
            lemma_strip(table_of(ElementKindView::Table(Seq::empty()), es));
            lemma_strip(e);
        }
        assert(parsed(inner, rest, n - 1, s, e));
        lemma_ended(src, inner, rest, n - 1, st, name, e);
        assert(rest.skip(n - 1) =~= toks.skip(n));
        assert(table_element::<ConfigElementVisitor>(src, toks, st) == ended::<
            ConfigElementVisitor,
        >(src, inner));
    } else {
        assert(link_atoms(e) + body_atoms(e) =~= seq![Atom::Assign] + body_atoms(e));
        lemma_head(rest, Atom::Assign);
        let assign = rest[0]->Ok_0;
        let body = rest.drop_first();
        assert(body =~= toks.skip(2));
        lemma_starts_split(rest, seq![Atom::Assign], body_atoms(e));
        assert(body =~= rest.skip(1));
        assert(ok_next(body, n - 2)) by {
            if n < toks.len() {
                assert(body[n - 2] == toks[n]);
            }
        }
        lemma_rhs_parses(src, assign.span, body, s, e);
        let inner = rhs::<ConfigElementVisitor>(src, assign.span, body, s);
        lemma_ended(src, inner, body, n - 2, st, name, e);
        assert(body.skip(n - 2) =~= toks.skip(n));
        assert(table_element::<ConfigElementVisitor>(src, toks, st) == ended::<
            ConfigElementVisitor,
        >(src, inner));
    }
}

/// What stands behind `=` as the printer wrote it parses to an element
/// alike to the one that was printed.
proof fn lemma_rhs_parses(
    src: SourceView,
    assign: Span,
    toks: Seq<Lexeme>,
    st: Seq<FrameView>,
    e: ElementView,
)
    requires
        plain(e),
        !(e.kind is Table),
        starts(toks, body_atoms(e)),
        ok_next(toks, body_atoms(e).len() as int),
        st.len() >= 1,
        st.last().elem == ElementView::value(Seq::empty()),
    ensures
        parsed(
            rhs::<ConfigElementVisitor>(src, assign, toks, st),
            toks,
            body_atoms(e).len() as int,
            st,
            e,
        ),
    decreases e, 4nat,
{
    lemma_tagless_parses(src, toks, st, e);
    let found = first_of(
        array::<ConfigElementVisitor>(src, toks, st, false),
        first_of(
            tagged_array::<ConfigElementVisitor>(src, toks, st),
            first_of(
                tagged_table::<ConfigElementVisitor>(src, toks, st),
                string_expr::<ConfigElementVisitor>(src, toks, st, None),
            ),
        ),
    );
    assert(rhs::<ConfigElementVisitor>(src, assign, toks, st) == found);
}

/// An element that is no plain table parses, as the printer wrote it, by
/// the first of the rules for arrays, tagged arrays, tagged tables and
/// strings that is there.
proof fn lemma_tagless_parses(src: SourceView, toks: Seq<Lexeme>, st: Seq<FrameView>, e: ElementView)
    requires
        plain(e),
        !(e.kind is Table),
        starts(toks, body_atoms(e)),
        ok_next(toks, body_atoms(e).len() as int),
        st.len() >= 1,
        st.last().elem == ElementView::value(Seq::empty()),
    ensures
        parsed(
            first_of(
                array::<ConfigElementVisitor>(src, toks, st, false),
                first_of(
                    tagged_array::<ConfigElementVisitor>(src, toks, st),
                    first_of(
                        tagged_table::<ConfigElementVisitor>(src, toks, st),
                        string_expr::<ConfigElementVisitor>(src, toks, st, None),
                    ),
                ),
            ),
            toks,
            body_atoms(e).len() as int,
            st,
            e,
        ),
        e.kind is Array == array::<ConfigElementVisitor>(src, toks, st, false) is Matched,
        !(e.kind is Array) ==> array::<ConfigElementVisitor>(src, toks, st, false) is Absent,
    decreases e, 3nat,
{
    let atoms = body_atoms(e);
    assert(atom_of(toks[0]) == atoms[0]);
    match e.kind {
        ElementKindView::Value(v) => {
            lemma_head(toks, Atom::Text(v));
            lemma_next(toks, 1);
            assert(toks.drop_first() =~= toks.skip(1));
            lemma_value_parses(src, toks, st, v);
            lemma_strip(e);
            lemma_strip(ElementView::value(v));
        },
        ElementKindView::TaggedTable(tag, es) => {
            lemma_head(toks, Atom::Text(tag));
            assert(atom_of(toks[1]) == atoms[1]);
            assert(toks.drop_first()[0] == toks[1]);
            lemma_head(toks.drop_first(), Atom::LeftBrace);
            lemma_tagged_table_parses(src, toks, st, e);
        },
        ElementKindView::Array(arr) => {
            lemma_head(toks, Atom::LeftBracket);
            lemma_array_parses(src, toks, st, ElementKindView::Array(Seq::empty()), arr, false);
            assert(strip(array_of(ElementKindView::Array(Seq::empty()), arr)) == strip(e)) by {
                lemma_strip(array_of(ElementKindView::Array(Seq::empty()), arr));
                lemma_strip(e);
            }
        },
        ElementKindView::TaggedArray(tag, arr) => {
            lemma_head(toks, Atom::Text(tag));
            assert(atom_of(toks[1]) == atoms[1]);
            assert(toks.drop_first()[0] == toks[1]);
            lemma_head(toks.drop_first(), Atom::LeftBracket);
            lemma_tagged_array_parses(src, toks, st, e);
        },
        _ => {},
    }
}

/// A tagged table as the printer wrote it parses to a table alike to it.
proof fn lemma_tagged_table_parses(
    src: SourceView,
    toks: Seq<Lexeme>,
    st: Seq<FrameView>,
    e: ElementView,
)
    requires
        plain(e),
        e.kind is TaggedTable,
        starts(toks, body_atoms(e)),
        st.len() >= 1,
    ensures
        parsed(
            tagged_table::<ConfigElementVisitor>(src, toks, st),
            toks,
            body_atoms(e).len() as int,
            st,
            e,
        ),
    decreases e, 2nat,
{
    let tag = e.kind->TaggedTable_0;
    let es = e.kind->TaggedTable_1;
    let atoms = body_atoms(e);
    let n = atoms.len() as int;
    assert(atom_of(toks[0]) == atoms[0]);
    assert(atom_of(toks[1]) == atoms[1]);
    lemma_head(toks, Atom::Text(tag));
    let rest = toks.drop_first();
    assert(rest[0] == toks[1]);
    assert(rest =~= toks.skip(1));
    lemma_head(rest, Atom::LeftBrace);
    let t = toks[0]->Ok_0;
    let base = ElementKindView::TaggedTable(tag, Seq::empty());
    let s = build_step(st, src, Event::SetTaggedTable(t.span, string_of_token(t)))->Ok_0;
    assert(s.drop_last() =~= st.drop_last());
    assert(atoms =~= seq![Atom::Text(tag)] + (seq![Atom::LeftBrace]
        + crate::relex::entries_atoms(es, es.len() as int) + seq![Atom::RightBrace]));
    lemma_starts_split(
        toks,
        seq![Atom::Text(tag)],
        seq![Atom::LeftBrace] + crate::relex::entries_atoms(es, es.len() as int) + seq![
            Atom::RightBrace,
        ],
    );
    lemma_table_parses(src, rest, s, base, es, true);
    assert(rest.skip(n - 1) =~= toks.skip(n));
    assert(strip(table_of(base, es)) == strip(e)) by {
        lemma_strip(table_of(base, es));
        lemma_strip(e);
    }
}

/// A tagged array as the printer wrote it parses to an array alike to it.
proof fn lemma_tagged_array_parses(
    src: SourceView,
    toks: Seq<Lexeme>,
    st: Seq<FrameView>,
    e: ElementView,
)
    requires
        plain(e),
        e.kind is TaggedArray,
        starts(toks, body_atoms(e)),
        st.len() >= 1,
    ensures
        parsed(
            tagged_array::<ConfigElementVisitor>(src, toks, st),
            toks,
            body_atoms(e).len() as int,
            st,
            e,
        ),
    decreases e, 2nat,
{
    let tag = e.kind->TaggedArray_0;
    let arr = e.kind->TaggedArray_1;
    let atoms = body_atoms(e);
    let n = atoms.len() as int;
    assert(atom_of(toks[0]) == atoms[0]);
    assert(atom_of(toks[1]) == atoms[1]);
    lemma_head(toks, Atom::Text(tag));
    let rest = toks.drop_first();
    assert(rest[0] == toks[1]);
    assert(rest =~= toks.skip(1));
    lemma_head(rest, Atom::LeftBracket);
    let t = toks[0]->Ok_0;
    let base = ElementKindView::TaggedArray(tag, Seq::empty());
    let s = build_step(st, src, Event::SetTaggedArray(t.span, string_of_token(t)))->Ok_0;
    assert(s.drop_last() =~= st.drop_last());
    assert(atoms =~= seq![Atom::Text(tag)] + (seq![Atom::LeftBracket]
        + crate::relex::elements_atoms(arr, arr.len() as int) + seq![Atom::RightBracket]));
    lemma_starts_split(
        toks,
        seq![Atom::Text(tag)],
        seq![Atom::LeftBracket] + crate::relex::elements_atoms(arr, arr.len() as int) + seq![
            Atom::RightBracket,
        ],
    );
    lemma_array_parses(src, rest, s, base, arr, true);
    assert(rest.skip(n - 1) =~= toks.skip(n));
    assert(strip(array_of(base, arr)) == strip(e)) by {
        lemma_strip(array_of(base, arr));
        lemma_strip(e);
    }
}

/// A table between its braces, as the printer wrote it, parses to a table
/// with entries alike to those that were printed.
proof fn lemma_table_parses(
    src: SourceView,
    toks: Seq<Lexeme>,
    st: Seq<FrameView>,
    base: ElementKindView,
    es: Entries,
    is_tagged: bool,
)
    requires
        keys_unique(es),
        forall|i: int| 0 <= i < es.len() ==> plain((#[trigger] es[i]).1),
        starts(
            toks,
            seq![Atom::LeftBrace] + crate::relex::entries_atoms(es, es.len() as int) + seq![
                Atom::RightBrace,
            ],
        ),
        st.len() >= 1,
        base.entries() == Some(Seq::<(Seq<char>, ElementView)>::empty()),
        is_tagged ==> st.last().elem.kind == base,
        !is_tagged ==> base is Table,
    ensures
        parsed(
            table::<ConfigElementVisitor>(src, toks, st, is_tagged),
            toks,
            crate::relex::entries_atoms(es, es.len() as int).len() as int + 2,
            st,
            table_of(base, es),
        ),
    decreases es, es.len() + 1,
{
    let inner = crate::relex::entries_atoms(es, es.len() as int);
    let m = inner.len() as int;
    let atoms = seq![Atom::LeftBrace] + inner + seq![Atom::RightBrace];
    assert(atom_of(toks[0]) == atoms[0]);
    lemma_head(toks, Atom::LeftBrace);
    let t = toks[0]->Ok_0;
    let s = if is_tagged {
        st
    } else {
        build_step(st, src, Event::SetTable(t.span))->Ok_0
    };
    assert(s.drop_last() =~= st.drop_last());
    assert(s.last().elem.kind == base);
    let rest = toks.drop_first();
    assert(rest =~= toks.skip(1));
    assert(atoms =~= seq![Atom::LeftBrace] + (inner + seq![Atom::RightBrace]));
    lemma_starts_split(toks, seq![Atom::LeftBrace], inner + seq![Atom::RightBrace]);
    lemma_starts_split(rest, inner, seq![Atom::RightBrace]);
    lemma_entries_tail(es, 0);
    assert(crate::relex::entries_atoms(es, 0) + entries_tail(es, 0) =~= entries_tail(es, 0));
    assert(closed_by(rest, m, Atom::RightBrace)) by {
        assert(rest.skip(m)[0] == rest[m]);
        assert(atom_of(rest.skip(m)[0]) == seq![Atom::RightBrace][0]);
    }
    assert(strip(s.last().elem) == strip(table_of(base, es.take(0)))) by {
        lemma_strip(s.last().elem);
        lemma_strip(table_of(base, es.take(0)));
        assert(es.take(0) =~= Seq::<(Seq<char>, ElementView)>::empty());
        assert(strip_entries(Seq::<(Seq<char>, ElementView)>::empty()) =~= Seq::<
            (Seq<char>, ElementView),
        >::empty());
    }
    lemma_entries_parse(src, rest, s, base, es, 0);
    let got = table_contents::<ConfigElementVisitor>(src, rest, s);
    let after = got->Ok_0.0;
    let s2 = got->Ok_0.1;
    assert(after[0] == rest[m]);
    lemma_head(after, Atom::RightBrace);
    assert(after.drop_first() =~= toks.skip(m + 2));
    assert(s2.drop_last() == st.drop_last());
}

/// The entries of a table from index `j` on, as the printer wrote them,
/// parse into the table that is open.
pub proof fn lemma_entries_parse(
    src: SourceView,
    toks: Seq<Lexeme>,
    st: Seq<FrameView>,
    base: ElementKindView,
    es: Entries,
    j: int,
)
    requires
        0 <= j <= es.len(),
        keys_unique(es),
        forall|i: int| 0 <= i < es.len() ==> plain((#[trigger] es[i]).1),
        starts(toks, entries_tail(es, j)),
        entries_tail(es, j).len() == toks.len() || closed_by(
            toks,
            entries_tail(es, j).len() as int,
            Atom::RightBrace,
        ),
        st.len() >= 1,
        base is Table || base is TaggedTable,
        strip(st.last().elem) == strip(table_of(base, es.take(j))),
    ensures
        read(
            table_contents::<ConfigElementVisitor>(src, toks, st),
            toks,
            entries_tail(es, j).len() as int,
            st,
            table_of(base, es),
        ),
    decreases es, es.len() - j,
{
    let tail = entries_tail(es, j);
    let m = tail.len() as int;
    lemma_strip(st.last().elem);
    lemma_strip(table_of(base, es.take(j)));
    if j == es.len() {
        assert(es.take(j) =~= es);
        assert(toks.skip(0) =~= toks);
        if toks.len() > 0 {
            lemma_head(toks, Atom::RightBrace);
        }
        assert(table_element::<ConfigElementVisitor>(src, toks, st) is Absent);
        assert(st.drop_last() == st.drop_last());
    } else {
        let name = es[j].0;
        let e = es[j].1;
        let item = item_atoms(Some(name), e);
        let n = item.len() as int;
        let more = entries_tail(es, j + 1);
        lemma_starts_split(toks, item, more);
        lemma_body_atoms_nonempty(e);
        assert(ok_next(toks, n)) by {
            if n < toks.len() {
                if j + 1 < es.len() {
                    lemma_body_atoms_nonempty(es[j + 1].1);
                    assert(toks.skip(n)[0] == toks[n]);
                    assert(atom_of(toks.skip(n)[0]) == more[0]);
                    let next = item_atoms(Some(es[j + 1].0), es[j + 1].1);
                    assert(more[0] == next[0]);
                } else {
                    assert(more.len() == 0);
                }
            }
        }
        lemma_entry_parses(src, toks, st, name, e);
        let step = table_element::<ConfigElementVisitor>(src, toks, st);
        let rest = step->Matched_0;
        let s = step->Matched_1;
        lemma_grow_entries(st.last().elem, base, es, j, e);
        assert(strip(s.last().elem) == strip(table_of(base, es.take(j + 1))));
        assert(more.len() == rest.len() || closed_by(rest, more.len() as int, Atom::RightBrace)) by {
            if m < toks.len() {
                assert(rest[m - n] == toks[m]);
            }
        }
        lemma_entries_parse(src, rest, s, base, es, j + 1);
        let got = table_contents::<ConfigElementVisitor>(src, rest, s);
        assert(rest.skip(m - n) =~= toks.skip(m));
        assert(got->Ok_0.1.drop_last() == st.drop_last());
        lemma_next(toks, n);
        if rest.len() == 0 {
            // No entry is left where no lexeme is.
            assert(more.len() == 0);
            assert(table_element::<ConfigElementVisitor>(src, rest, s) is Absent);
        } else {
            assert(table_contents::<ConfigElementVisitor>(src, toks, st) == got);
        }
    }
}

/// An array between its brackets, as the printer wrote it, parses to an
/// array with elements alike to those that were printed.
proof fn lemma_array_parses(
    src: SourceView,
    toks: Seq<Lexeme>,
    st: Seq<FrameView>,
    base: ElementKindView,
    arr: Seq<ElementView>,
    is_tagged: bool,
)
    requires
        forall|i: int| 0 <= i < arr.len() ==> plain(#[trigger] arr[i]),
        starts(
            toks,
            seq![Atom::LeftBracket] + crate::relex::elements_atoms(arr, arr.len() as int) + seq![
                Atom::RightBracket,
            ],
        ),
        st.len() >= 1,
        base == ElementKindView::Array(Seq::empty()) || (base is TaggedArray
            && base->TaggedArray_1 == Seq::<ElementView>::empty()),
        is_tagged ==> st.last().elem.kind == base,
        !is_tagged ==> base is Array,
    ensures
        parsed(
            array::<ConfigElementVisitor>(src, toks, st, is_tagged),
            toks,
            crate::relex::elements_atoms(arr, arr.len() as int).len() as int + 2,
            st,
            array_of(base, arr),
        ),
    decreases arr, arr.len() + 1,
{
    let inner = crate::relex::elements_atoms(arr, arr.len() as int);
    let m = inner.len() as int;
    let atoms = seq![Atom::LeftBracket] + inner + seq![Atom::RightBracket];
    assert(atom_of(toks[0]) == atoms[0]);
    lemma_head(toks, Atom::LeftBracket);
    let t = toks[0]->Ok_0;
    let s = if is_tagged {
        st
    } else {
        build_step(st, src, Event::SetArray(t.span))->Ok_0
    };
    assert(s.drop_last() =~= st.drop_last());
    assert(s.last().elem.kind == base);
    let rest = toks.drop_first();
    assert(rest =~= toks.skip(1));
    assert(atoms =~= seq![Atom::LeftBracket] + (inner + seq![Atom::RightBracket]));
    lemma_starts_split(toks, seq![Atom::LeftBracket], inner + seq![Atom::RightBracket]);
    lemma_starts_split(rest, inner, seq![Atom::RightBracket]);
    lemma_elements_tail(arr, 0);
    assert(crate::relex::elements_atoms(arr, 0) + elements_tail(arr, 0) =~= elements_tail(
        arr,
        0,
    ));
    assert(closed_by(rest, m, Atom::RightBracket)) by {
        assert(rest.skip(m)[0] == rest[m]);
        assert(atom_of(rest.skip(m)[0]) == seq![Atom::RightBracket][0]);
    }
    assert(strip(s.last().elem) == strip(array_of(base, arr.take(0)))) by {
        lemma_strip(s.last().elem);
        lemma_strip(array_of(base, arr.take(0)));
        assert(arr.take(0) =~= Seq::<ElementView>::empty());
        assert(strip_elements(Seq::<ElementView>::empty()) =~= Seq::<ElementView>::empty());
    }
    lemma_elements_parse(src, rest, s, base, arr, 0);
    let got = array_contents::<ConfigElementVisitor>(src, rest, s);
    let after = got->Ok_0.0;
    let s2 = got->Ok_0.1;
    assert(after[0] == rest[m]);
    lemma_head(after, Atom::RightBracket);
    assert(after.drop_first() =~= toks.skip(m + 2));
    assert(s2.drop_last() == st.drop_last());
}

/// The elements of an array from index `j` on, as the printer wrote them,
/// parse into the array that is open. Before each but the very first stands
/// a comma: that before element `j` has been read where `j` is not zero.
proof fn lemma_elements_parse(
    src: SourceView,
    toks: Seq<Lexeme>,
    st: Seq<FrameView>,
    base: ElementKindView,
    arr: Seq<ElementView>,
    j: int,
)
    requires
        0 <= j <= arr.len(),
        forall|i: int| 0 <= i < arr.len() ==> plain(#[trigger] arr[i]),
        starts(toks, after_comma(arr, j)),
        closed_by(toks, after_comma(arr, j).len() as int, Atom::RightBracket),
        st.len() >= 1,
        base is Array || base is TaggedArray,
        strip(st.last().elem) == strip(array_of(base, arr.take(j))),
    ensures
        read(
            array_contents::<ConfigElementVisitor>(src, toks, st),
            toks,
            after_comma(arr, j).len() as int,
            st,
            array_of(base, arr),
        ),
    decreases arr, arr.len() - j,
{
    let tail = after_comma(arr, j);
    let m = tail.len() as int;
    lemma_strip(st.last().elem);
    lemma_strip(array_of(base, arr.take(j)));
    if j == arr.len() {
        assert(arr.take(j) =~= arr);
        assert(toks.skip(0) =~= toks);
        lemma_head(toks, Atom::RightBracket);
        assert(array_element::<ConfigElementVisitor>(src, toks, st) is Absent);
        assert(st.drop_last() == st.drop_last());
    } else {
        let e = arr[j];
        let item = body_atoms(e);
        let n = item.len() as int;
        let more = elements_tail(arr, j + 1);
        assert(tail =~= item + more);
        lemma_starts_split(toks, item, more);
        lemma_body_atoms_nonempty(e);
        assert(atom_of(toks.skip(n)[0]) == (if j + 1 < arr.len() {
            Atom::Comma
        } else {
            Atom::RightBracket
        })) by {
            assert(toks.skip(n)[0] == toks[n]);
            if j + 1 < arr.len() {
                assert(more[0] == Atom::Comma);
            }
        }
        assert(ok_next(toks, n)) by {
            assert(toks.skip(n)[0] == toks[n]);
        }
        lemma_element_parses(src, toks, st, e);
        let step = array_element::<ConfigElementVisitor>(src, toks, st);
        let rest = step->Matched_0;
        let s = step->Matched_1;
        lemma_grow_elements(st.last().elem, base, arr, j, Seq::empty(), e);
        assert(strip(s.last().elem) == strip(array_of(base, arr.take(j + 1))));
        assert(rest[0] == toks[n]);
        // The comma behind the element, where another element follows.
        let rest2 = if j + 1 < arr.len() {
            rest.drop_first()
        } else {
            rest
        };
        let skipped = if j + 1 < arr.len() {
            n + 1
        } else {
            n
        };
        assert(rest2 =~= toks.skip(skipped));
        let next = after_comma(arr, j + 1);
        assert(more =~= (if j + 1 < arr.len() {
            seq![Atom::Comma] + next
        } else {
            next
        }));
        assert(starts(rest2, next)) by {
            if j + 1 < arr.len() {
                lemma_starts_split(rest, seq![Atom::Comma], next);
                assert(rest.skip(1) =~= rest2);
            }
        }
        assert(closed_by(rest2, next.len() as int, Atom::RightBracket)) by {
            assert(rest2[m - skipped] == toks[m]);
        }
        lemma_head(rest, if j + 1 < arr.len() {
            Atom::Comma
        } else {
            Atom::RightBracket
        });
        lemma_elements_parse(src, rest2, s, base, arr, j + 1);
        let got = array_contents::<ConfigElementVisitor>(src, rest2, s);
        assert(rest2.skip(m - skipped) =~= toks.skip(m));
        assert(got->Ok_0.1.drop_last() == st.drop_last());
        assert(array_contents::<ConfigElementVisitor>(src, toks, st) == got);
    }
}

/// The atoms of the elements from index `j` on, without the comma before
/// the first of them.
pub open spec fn after_comma(arr: Seq<ElementView>, j: int) -> Seq<Atom> {
    if j < 0 || j >= arr.len() {
        Seq::empty()
    } else {
        body_atoms(arr[j]) + elements_tail(arr, j + 1)
    }
}

/// An element of an array as the printer wrote it parses to an element
/// alike to it, put behind the others of the array that is open.
pub proof fn lemma_element_parses(
    src: SourceView,
    toks: Seq<Lexeme>,
    st: Seq<FrameView>,
    e: ElementView,
)
    requires
        plain(e),
        starts(toks, body_atoms(e)),
        ok_next(toks, body_atoms(e).len() as int),
        st.len() >= 1,
        !(st.last().elem.kind is Value),
    ensures
        parsed(
            array_element::<ConfigElementVisitor>(src, toks, st),
            toks,
            body_atoms(e).len() as int,
            st,
            st.last().elem.insert(Seq::empty(), e),
        ),
    decreases e, 5nat,
{
    let atoms = body_atoms(e);
    let n = atoms.len() as int;
    assert(atom_of(toks[0]) == atoms[0]);
    lemma_started(src, st, unnamed());
    let s = st.push(fresh_frame(Seq::empty()));
    if e.kind is Table {
        let es = e.kind->Table_0;
        lemma_head(toks, Atom::LeftBrace);
        lemma_table_parses(src, toks, s, ElementKindView::Table(Seq::empty()), es, false);
        let inner = table::<ConfigElementVisitor>(src, toks, s, false);
        assert(strip(table_of(ElementKindView::Table(Seq::empty()), es)) == strip(e)) by {
            lemma_strip(table_of(ElementKindView::Table(Seq::empty()), es));
            lemma_strip(e);
        }
        lemma_ended(src, inner, toks, n, st, Seq::empty(), e);
        assert(array_element::<ConfigElementVisitor>(src, toks, st) == ended::<
            ConfigElementVisitor,
        >(src, inner));
    } else {
        lemma_tagless_parses(src, toks, s, e);
        if e.kind is Array {
            lemma_head(toks, Atom::LeftBracket);
            let inner = array::<ConfigElementVisitor>(src, toks, s, false);
            lemma_ended(src, inner, toks, n, st, Seq::empty(), e);
            assert(array_element::<ConfigElementVisitor>(src, toks, st) == ended::<
                ConfigElementVisitor,
            >(src, inner));
        } else {
            let inner = first_of(
                tagged_array::<ConfigElementVisitor>(src, toks, s),
                first_of(
                    tagged_table::<ConfigElementVisitor>(src, toks, s),
                    string_expr::<ConfigElementVisitor>(src, toks, s, None),
                ),
            );
            assert(atoms[0] is Text);
            lemma_head(toks, atoms[0]);
            lemma_ended(src, inner, toks, n, st, Seq::empty(), e);
            assert(array_element::<ConfigElementVisitor>(src, toks, st) == ended::<
                ConfigElementVisitor,
            >(src, inner));
        }
    }
}

/// Elements that are alike but for places are tables with something in
/// them alike.
proof fn lemma_alike_has_entries(a: ElementView, b: ElementView)
    requires
        strip(a) == strip(b),
    ensures
        has_entries(a) == has_entries(b),
{
    lemma_strip(a);
    lemma_strip(b);
    match a.kind {
        ElementKindView::Table(es) => {
            assert(strip_entries(es).len() == es.len());
            assert(strip_entries(b.kind->Table_0).len() == b.kind->Table_0.len());
        },
        ElementKindView::TaggedTable(_, es) => {
            assert(strip_entries(es).len() == es.len());
            assert(strip_entries(b.kind->TaggedTable_1).len() == b.kind->TaggedTable_1.len());
        },
        _ => {},
    }
}

/// Arrays whose elements are alike but for places fit on one line alike.
proof fn lemma_alike_one_line(a: Seq<ElementView>, b: Seq<ElementView>)
    requires
        strip_elements(a) == strip_elements(b),
    ensures
        fits_one_line(a) == fits_one_line(b),
        a.len() == b.len(),
{
    assert(a.len() == strip_elements(a).len());
    assert(b.len() == strip_elements(b).len());
    assert forall|i: int| 0 <= i < a.len() implies has_entries(a[i]) == has_entries(b[i]) by {
        assert(strip_elements(a)[i] == strip(a[i]));
        assert(strip_elements(b)[i] == strip(b[i]));
        lemma_alike_has_entries(a[i], b[i]);
    }
    if fits_one_line(a) {
        assert forall|i: int| 0 <= i < b.len() implies !(#[trigger] has_entries(b[i])) by {
            assert(!has_entries(a[i]));
        }
    }
    if fits_one_line(b) {
        assert forall|i: int| 0 <= i < a.len() implies !(#[trigger] has_entries(a[i])) by {
            assert(!has_entries(b[i]));
        }
    }
}

/// Elements that are alike but for the places they came from are printed
/// alike.
pub proof fn lemma_print_alike(
    p: PrinterView,
    a: ElementView,
    b: ElementView,
    name: Option<Seq<char>>,
    is_root: bool,
)
    requires
        strip(a) == strip(b),
    ensures
        print_element(p, a, name, is_root) == print_element(p, b, name, is_root),
    decreases a, 1nat,
{
    lemma_strip(a);
    lemma_strip(b);
    match a.kind {
        ElementKindView::Value(_) => {},
        ElementKindView::Table(es) => {
            let fs = b.kind->Table_0;
            assert(es.len() == strip_entries(es).len());
            assert(fs.len() == strip_entries(fs).len());
            lemma_print_entries_alike(
                p.start_table(name, None, is_root, es.len() == 0),
                es,
                fs,
                es.len() as int,
            );
        },
        ElementKindView::TaggedTable(t, es) => {
            let fs = b.kind->TaggedTable_1;
            assert(es.len() == strip_entries(es).len());
            assert(fs.len() == strip_entries(fs).len());
            lemma_print_entries_alike(
                p.start_table(name, Some(t), is_root, es.len() == 0),
                es,
                fs,
                es.len() as int,
            );
        },
        ElementKindView::Array(x) => {
            let y = b.kind->Array_0;
            lemma_alike_one_line(x, y);
            lemma_print_elements_alike(
                p.start_array(name, None, fits_one_line(x)),
                x,
                y,
                x.len() as int,
            );
        },
        ElementKindView::TaggedArray(t, x) => {
            let y = b.kind->TaggedArray_1;
            lemma_alike_one_line(x, y);
            lemma_print_elements_alike(
                p.start_array(name, Some(t), fits_one_line(x)),
                x,
                y,
                x.len() as int,
            );
        },
        ElementKindView::MultiLineArray(x) => {
            let y = b.kind->MultiLineArray_0;
            lemma_alike_one_line(x, y);
            lemma_print_elements_alike(
                p.start_array(name, None, x.len() == 0),
                x,
                y,
                x.len() as int,
            );
        },
        ElementKindView::MultiLineTaggedArray(t, x) => {
            let y = b.kind->MultiLineTaggedArray_1;
            lemma_alike_one_line(x, y);
            lemma_print_elements_alike(
                p.start_array(name, Some(t), x.len() == 0),
                x,
                y,
                x.len() as int,
            );
        },
    }
}

proof fn lemma_print_entries_alike(p: PrinterView, es: Entries, fs: Entries, k: int)
    requires
        strip_entries(es) == strip_entries(fs),
        es.len() == fs.len(),
        0 <= k <= es.len(),
    ensures
        print_entries(p, es, k) == print_entries(p, fs, k),
    decreases es, k,
{
    if k > 0 {
        lemma_print_entries_alike(p, es, fs, k - 1);
        assert(strip_entries(es)[k - 1] == (es[k - 1].0, strip(es[k - 1].1)));
        assert(strip_entries(fs)[k - 1] == (fs[k - 1].0, strip(fs[k - 1].1)));
        lemma_print_alike(
            print_entries(p, es, k - 1),
            es[k - 1].1,
            fs[k - 1].1,
            Some(es[k - 1].0),
            false,
        );
    }
}

proof fn lemma_print_elements_alike(p: PrinterView, x: Seq<ElementView>, y: Seq<ElementView>, k: int)
    requires
        strip_elements(x) == strip_elements(y),
        x.len() == y.len(),
        0 <= k <= x.len(),
    ensures
        print_elements(p, x, k) == print_elements(p, y, k),
    decreases x, k,
{
    if k > 0 {
        lemma_print_elements_alike(p, x, y, k - 1);
        assert(strip_elements(x)[k - 1] == strip(x[k - 1]));
        assert(strip_elements(y)[k - 1] == strip(y[k - 1]));
        lemma_print_alike(print_elements(p, x, k - 1), x[k - 1], y[k - 1], None, false);
    }
}

} // verus!
