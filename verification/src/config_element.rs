//! The document tree, the visitor that builds it and the way it is printed.

use vstd::prelude::*;
use vstd::string::StringExecFns;
use crate::config_string::{ConfigString, ConfigStringView};
use crate::error::{render_plain, render_span, Error, ErrorKind, ErrorView};
use crate::parser::{parse, parse_source};
use crate::printer::{Printer, PrinterView};
use crate::source::{Source, SourceView};
use crate::span::Span;
use crate::text::to_chars;
use crate::visitor::{Event, Visitor};

verus! {

/// The model of a `ConfigElement`: what it holds, and where it came from.
pub struct ElementView {
    pub kind: ElementKindView,
    pub span: Span,
}

/// A table's entries in the order in which their keys came.
pub type Entries = Seq<(Seq<char>, ElementView)>;

/// The model of a `ConfigElementKind`.
pub enum ElementKindView {
    Value(Seq<char>),
    Table(Entries),
    TaggedTable(Seq<char>, Entries),
    Array(Seq<ElementView>),
    TaggedArray(Seq<char>, Seq<ElementView>),
    MultiLineArray(Seq<ElementView>),
    MultiLineTaggedArray(Seq<char>, Seq<ElementView>),
}

/// The index of the entry with key `key` among the first `k` entries.
pub open spec fn key_index(entries: Entries, key: Seq<char>, k: int) -> Option<int>
    decreases k,
{
    if k <= 0 || k > entries.len() {
        None
    } else if entries[k - 1].0 == key {
        match key_index(entries, key, k - 1) {
            Some(i) => Some(i),
            None => Some(k - 1),
        }
    } else {
        key_index(entries, key, k - 1)
    }
}

/// The index of the first entry with key `key`.
pub open spec fn find_key(entries: Entries, key: Seq<char>) -> Option<int> {
    key_index(entries, key, entries.len() as int)
}

/// The entries after `key` has been set to `elem`: in the place of the entry
/// that had the key, or behind all others where none had it.
pub open spec fn entries_insert(entries: Entries, key: Seq<char>, elem: ElementView) -> Entries {
    match find_key(entries, key) {
        Some(i) => entries.update(i, (key, elem)),
        None => entries.push((key, elem)),
    }
}

/// No two entries have the same key.
pub open spec fn keys_unique(entries: Entries) -> bool {
    forall|i: int, j: int|
        0 <= i < entries.len() && 0 <= j < entries.len() && i != j ==> (#[trigger] entries[i]).0
            != (#[trigger] entries[j]).0
}

impl ElementKindView {
    /// The entries, where this is a table.
    pub open spec fn entries(self) -> Option<Entries> {
        match self {
            ElementKindView::Table(e) => Some(e),
            ElementKindView::TaggedTable(_, e) => Some(e),
            _ => None,
        }
    }

    /// The elements, where this is an array.
    pub open spec fn elements(self) -> Option<Seq<ElementView>> {
        match self {
            ElementKindView::Array(a) => Some(a),
            ElementKindView::TaggedArray(_, a) => Some(a),
            ElementKindView::MultiLineArray(a) => Some(a),
            ElementKindView::MultiLineTaggedArray(_, a) => Some(a),
            _ => None,
        }
    }

    /// The tag, where there is one.
    pub open spec fn tag(self) -> Option<Seq<char>> {
        match self {
            ElementKindView::TaggedTable(t, _) => Some(t),
            ElementKindView::TaggedArray(t, _) => Some(t),
            ElementKindView::MultiLineTaggedArray(t, _) => Some(t),
            _ => None,
        }
    }

    /// The same kind of element with another tag, where it has one.
    pub open spec fn with_tag(self, tag: Seq<char>) -> ElementKindView {
        match self {
            ElementKindView::TaggedTable(_, e) => ElementKindView::TaggedTable(tag, e),
            ElementKindView::TaggedArray(_, a) => ElementKindView::TaggedArray(tag, a),
            ElementKindView::MultiLineTaggedArray(_, a) => ElementKindView::MultiLineTaggedArray(
                tag,
                a,
            ),
            other => other,
        }
    }

    /// The same kind of element with other entries.
    pub open spec fn with_entries(self, entries: Entries) -> ElementKindView {
        match self {
            ElementKindView::TaggedTable(t, _) => ElementKindView::TaggedTable(t, entries),
            _ => ElementKindView::Table(entries),
        }
    }

    /// The same kind of element with other elements.
    pub open spec fn with_elements(self, elements: Seq<ElementView>) -> ElementKindView {
        match self {
            ElementKindView::TaggedArray(t, _) => ElementKindView::TaggedArray(t, elements),
            ElementKindView::MultiLineArray(_) => ElementKindView::MultiLineArray(elements),
            ElementKindView::MultiLineTaggedArray(t, _) => ElementKindView::MultiLineTaggedArray(
                t,
                elements,
            ),
            _ => ElementKindView::Array(elements),
        }
    }
}

impl ElementView {
    /// A value without a place in a source.
    pub open spec fn value(text: Seq<char>) -> ElementView {
        ElementView { kind: ElementKindView::Value(text), span: Span::invalid() }
    }

    /// Well-formedness: in every table the keys differ, and no tag is empty.
    pub open spec fn wf(self) -> bool
        decreases self,
    {
        match self.kind {
            ElementKindView::Value(_) => true,
            ElementKindView::Table(e) => keys_unique(e) && forall|i: int|
                0 <= i < e.len() ==> (#[trigger] e[i]).1.wf(),
            ElementKindView::TaggedTable(t, e) => t.len() > 0 && keys_unique(e) && forall|i: int|
                0 <= i < e.len() ==> (#[trigger] e[i]).1.wf(),
            ElementKindView::Array(a) => forall|i: int| 0 <= i < a.len() ==> (#[trigger] a[i]).wf(),
            ElementKindView::TaggedArray(t, a) => t.len() > 0 && forall|i: int|
                0 <= i < a.len() ==> (#[trigger] a[i]).wf(),
            ElementKindView::MultiLineArray(a) => forall|i: int|
                0 <= i < a.len() ==> (#[trigger] a[i]).wf(),
            ElementKindView::MultiLineTaggedArray(t, a) => t.len() > 0 && forall|i: int|
                0 <= i < a.len() ==> (#[trigger] a[i]).wf(),
        }
    }

    /// The element after `elem` has been put into it: under `name` into a
    /// table, behind the others into an array. A value takes nothing.
    pub open spec fn insert(self, name: Seq<char>, elem: ElementView) -> ElementView {
        match self.kind {
            ElementKindView::Value(_) => self,
            ElementKindView::Table(e) => ElementView {
                kind: self.kind.with_entries(entries_insert(e, name, elem)),
                ..self
            },
            ElementKindView::TaggedTable(_, e) => ElementView {
                kind: self.kind.with_entries(entries_insert(e, name, elem)),
                ..self
            },
            _ => ElementView {
                kind: self.kind.with_elements(self.kind.elements()->0.push(elem)),
                ..self
            },
        }
    }
}

/// The elements that a parse can give: well-formed, and without arrays
/// that ask for a line for each element.
pub open spec fn plain(e: ElementView) -> bool
    decreases e,
{
    match e.kind {
        ElementKindView::Value(_) => true,
        ElementKindView::Table(es) => keys_unique(es) && forall|i: int|
            0 <= i < es.len() ==> plain((#[trigger] es[i]).1),
        ElementKindView::TaggedTable(t, es) => t.len() > 0 && keys_unique(es) && forall|i: int|
            0 <= i < es.len() ==> plain((#[trigger] es[i]).1),
        ElementKindView::Array(a) => forall|i: int| 0 <= i < a.len() ==> plain(#[trigger] a[i]),
        ElementKindView::TaggedArray(t, a) => t.len() > 0 && forall|i: int|
            0 <= i < a.len() ==> plain(#[trigger] a[i]),
        _ => false,
    }
}

/// Whether an array is printed on one line: it holds no table with entries.
pub open spec fn fits_one_line(elements: Seq<ElementView>) -> bool {
    forall|i: int|
        0 <= i < elements.len() ==> !(#[trigger] has_entries(elements[i]))
}

/// Whether the element is a table that holds something.
pub open spec fn has_entries(e: ElementView) -> bool {
    match e.kind.entries() {
        Some(entries) => entries.len() > 0,
        None => false,
    }
}

/// The printer after it has printed `e` under `name`: a value as it is; a
/// table between braces with an entry on each line, or `{}` where it is
/// empty; an array between brackets, on one line where no element is a
/// table with entries, unless it asks for a line for each element and has
/// any; the root table without braces.
pub open spec fn print_element(
    p: PrinterView,
    e: ElementView,
    name: Option<Seq<char>>,
    is_root: bool,
) -> PrinterView
    decreases e, 0nat,
{
    match e.kind {
        ElementKindView::Value(v) => p.value(name, v),
        ElementKindView::Table(es) => print_entries(
            p.start_table(name, None, is_root, es.len() == 0),
            es,
            es.len() as int,
        ).end_table(is_root),
        ElementKindView::TaggedTable(tag, es) => print_entries(
            p.start_table(name, Some(tag), is_root, es.len() == 0),
            es,
            es.len() as int,
        ).end_table(is_root),
        ElementKindView::Array(a) => print_elements(
            p.start_array(name, None, fits_one_line(a)),
            a,
            a.len() as int,
        ).end_array(),
        ElementKindView::TaggedArray(tag, a) => print_elements(
            p.start_array(name, Some(tag), fits_one_line(a)),
            a,
            a.len() as int,
        ).end_array(),
        ElementKindView::MultiLineArray(a) => print_elements(
            p.start_array(name, None, a.len() == 0),
            a,
            a.len() as int,
        ).end_array(),
        ElementKindView::MultiLineTaggedArray(tag, a) => print_elements(
            p.start_array(name, Some(tag), a.len() == 0),
            a,
            a.len() as int,
        ).end_array(),
    }
}

/// The printer after it has printed the first `k` entries of a table.
pub open spec fn print_entries(p: PrinterView, entries: Entries, k: int) -> PrinterView
    decreases entries, k,
{
    if k <= 0 || k > entries.len() {
        p
    } else {
        print_element(print_entries(p, entries, k - 1), entries[k - 1].1, Some(entries[k - 1].0), false)
    }
}

/// The printer after it has printed the first `k` elements of an array.
pub open spec fn print_elements(p: PrinterView, elements: Seq<ElementView>, k: int) -> PrinterView
    decreases elements, k,
{
    if k <= 0 || k > elements.len() {
        p
    } else {
        print_element(print_elements(p, elements, k - 1), elements[k - 1], None, false)
    }
}

/// The text of a document: its root printed by a fresh printer.
pub open spec fn rendered(e: ElementView) -> Seq<char> {
    print_element(PrinterView::fresh(), e, None, true).out
}

/// The value of one decimal digit.
pub open spec fn decimal_digit(c: char) -> Option<nat> {
    if '0' <= c && c <= '9' {
        Some((c as u32 - '0' as u32) as nat)
    } else {
        None
    }
}

/// The number that the decimal digits `s` spell; nothing where a character
/// is no digit.
pub open spec fn decimal_digits(s: Seq<char>) -> Option<nat>
    decreases s.len(),
{
    if s.len() == 0 {
        Some(0)
    } else {
        match (decimal_digits(s.drop_last()), decimal_digit(s.last())) {
            (Some(a), Some(d)) => Some(10 * a + d),
            _ => None,
        }
    }
}

/// The index that `s` spells: decimal digits, at least one, with or without
/// a `+` before them, and a number that is a `usize`.
pub open spec fn parse_index(s: Seq<char>) -> Option<nat> {
    let digits = if s.len() > 0 && s[0] == '+' {
        s.skip(1)
    } else {
        s
    };
    match decimal_digits(digits) {
        Some(n) => if digits.len() > 0 && n <= usize::MAX {
            Some(n)
        } else {
            None
        },
        None => None,
    }
}

/// What `name` refers to in `e`: the entry under that key in a table, the
/// element at that index in an array, nothing in a value.
pub open spec fn lookup_in(e: ElementView, name: Seq<char>) -> Option<ElementView> {
    match e.kind {
        ElementKindView::Value(_) => None,
        ElementKindView::Table(es) => match find_key(es, name) {
            Some(i) => Some(es[i].1),
            None => None,
        },
        ElementKindView::TaggedTable(_, es) => match find_key(es, name) {
            Some(i) => Some(es[i].1),
            None => None,
        },
        _ => {
            let a = e.kind.elements()->0;
            match parse_index(name) {
                Some(i) => if i < a.len() {
                    Some(a[i as int])
                } else {
                    None
                },
                None => None,
            }
        },
    }
}

/// One open element of the builder: its name, what it holds so far, and
/// whether anything has been put into it.
pub struct FrameView {
    pub name: Seq<char>,
    pub elem: ElementView,
    pub init: bool,
}

/// What `name` refers to, looking at the lowest `k` frames, innermost first.
/// A frame of that very name is passed over, so that an element can take the
/// value that an outer scope has under its own name. The first frame that
/// has something under the name decides.
pub open spec fn resolve(stack: Seq<FrameView>, name: Seq<char>, k: int) -> Option<ElementView>
    decreases k,
{
    if k <= 0 || k > stack.len() {
        None
    } else {
        let here = if stack[k - 1].name == name {
            None
        } else {
            lookup_in(stack[k - 1].elem, name)
        };
        match here {
            Some(e) => Some(e),
            None => resolve(stack, name, k - 1),
        }
    }
}

/// The error of the builder at `span` with message `msg`.
pub open spec fn visit_error(src: SourceView, span: Span, msg: Seq<char>) -> ErrorView {
    ErrorView { kind: ErrorKind::ParseFailure, text: render_span(src, span, msg) }
}

/// The error for a reference to a name that nothing in scope has.
pub open spec fn not_found(src: SourceView, span: Span, name: Seq<char>) -> ErrorView {
    ErrorView {
        kind: ErrorKind::NotFound,
        text: render_span(src, span, "Could not find an element named `"@ + name + "`"@),
    }
}

/// The stack with another frame in the place of its top.
pub open spec fn with_top(stack: Seq<FrameView>, frame: FrameView) -> Seq<FrameView> {
    stack.update(stack.len() - 1, frame)
}

/// The stack after its top frame has been given the shape `kind`.
pub open spec fn shaped(stack: Seq<FrameView>, kind: ElementKindView, span: Span) -> Seq<
    FrameView,
> {
    with_top(stack, FrameView { name: stack.last().name, elem: ElementView { kind, span }, init: true })
}

/// What is said where a string is appended to an element of kind `kind`.
pub open spec fn cannot_append_string(kind: ElementKindView) -> Seq<char> {
    match kind {
        ElementKindView::Table(_) => "Cannot append a string to a table"@,
        ElementKindView::TaggedTable(_, _) => "Cannot append a string to a tagged table"@,
        ElementKindView::Array(_) => "Cannot append a string to an array"@,
        ElementKindView::MultiLineArray(_) => "Cannot append a string to an array"@,
        _ => "Cannot append a string to a tagged array"@,
    }
}

/// What is said where an element of kind `kind` is appended to a value.
pub open spec fn cannot_append_to_value(kind: ElementKindView) -> Seq<char> {
    match kind {
        ElementKindView::Table(_) => "Cannot append a table to a value"@,
        ElementKindView::TaggedTable(_, _) => "Cannot append a tagged table to a value"@,
        ElementKindView::Array(_) => "Cannot append an array to a value"@,
        ElementKindView::MultiLineArray(_) => "Cannot append an array to a value"@,
        _ => "Cannot append an tagged array to a value"@,
    }
}

/// What is said where something is appended to an element of kind `kind`.
pub open spec fn cannot_append_to(kind: ElementKindView) -> Seq<char> {
    match kind {
        ElementKindView::Table(_) => "Cannot append to a table"@,
        ElementKindView::TaggedTable(_, _) => "Cannot append to a tagged table"@,
        ElementKindView::Array(_) => "Cannot append to an array"@,
        ElementKindView::MultiLineArray(_) => "Cannot append to an array"@,
        _ => "Cannot append to a tagged array"@,
    }
}

/// The stack after the reference `name` has been expanded into its top
/// frame. A frame into which nothing has been put takes a copy of what the
/// name refers to; a value takes the text of a value behind its own; nothing
/// else can be joined. The frame's span becomes that of the reference.
pub open spec fn expanded(stack: Seq<FrameView>, src: SourceView, name: ConfigStringView) -> Result<
    Seq<FrameView>,
    ErrorView,
> {
    let top = stack.last();
    match resolve(stack, name.decoded(), stack.len() as int) {
        None => Err(not_found(src, name.span, name.decoded())),
        Some(found) => if !top.init {
            Ok(
                with_top(
                    stack,
                    FrameView {
                        name: top.name,
                        elem: ElementView { kind: found.kind, span: name.span },
                        init: true,
                    },
                ),
            )
        } else {
            match top.elem.kind {
                ElementKindView::Value(v) => match found.kind {
                    ElementKindView::Value(w) => Ok(
                        with_top(
                            stack,
                            FrameView {
                                name: top.name,
                                elem: ElementView {
                                    kind: ElementKindView::Value(v + w),
                                    span: name.span,
                                },
                                init: true,
                            },
                        ),
                    ),
                    _ => Err(visit_error(src, name.span, cannot_append_to_value(found.kind))),
                },
                _ => Err(visit_error(src, name.span, cannot_append_to(top.elem.kind))),
            }
        },
    }
}

/// What the builder of the document tree does with an event.
pub open spec fn build_step(stack: Seq<FrameView>, src: SourceView, event: Event) -> Result<
    Seq<FrameView>,
    ErrorView,
> {
    let top = stack.last();
    match event {
        Event::StartElement(name) => Ok(
            stack.push(
                FrameView {
                    name: name.decoded(),
                    elem: ElementView::value(Seq::empty()),
                    init: false,
                },
            ),
        ),
        Event::EndElement => if stack.len() > 1 {
            let parent = stack[stack.len() - 2];
            if parent.elem.kind is Value {
                Err(
                    ErrorView {
                        kind: ErrorKind::ParseFailure,
                        text: render_plain("Cannot insert an element into a value"@),
                    },
                )
            } else {
                Ok(
                    stack.take(stack.len() - 2).push(
                        FrameView {
                            name: parent.name,
                            elem: parent.elem.insert(top.name, top.elem),
                            init: parent.init,
                        },
                    ),
                )
            }
        } else {
            Ok(stack)
        },
        Event::SetTable(span) => Ok(shaped(stack, ElementKindView::Table(Seq::empty()), span)),
        Event::SetTaggedTable(span, tag) => if tag.decoded().len() == 0 {
            Err(visit_error(src, tag.span, "A tag cannot be empty"@))
        } else {
            Ok(shaped(stack, ElementKindView::TaggedTable(tag.decoded(), Seq::empty()), span))
        },
        Event::SetArray(span) => Ok(shaped(stack, ElementKindView::Array(Seq::empty()), span)),
        Event::SetTaggedArray(span, tag) => if tag.decoded().len() == 0 {
            Err(visit_error(src, tag.span, "A tag cannot be empty"@))
        } else {
            Ok(shaped(stack, ElementKindView::TaggedArray(tag.decoded(), Seq::empty()), span))
        },
        Event::AppendString(string) => match top.elem.kind {
            ElementKindView::Value(v) => Ok(
                with_top(
                    stack,
                    FrameView {
                        name: top.name,
                        elem: ElementView {
                            kind: ElementKindView::Value(v + string.decoded()),
                            span: top.elem.span.union(string.span),
                        },
                        init: true,
                    },
                ),
            ),
            _ => Err(visit_error(src, string.span, cannot_append_string(top.elem.kind))),
        },
        Event::Expand(name) => expanded(stack, src, name),
    }
}

/// The stack on which a document is built into `root`.
pub open spec fn root_stack(root: ElementView) -> Seq<FrameView> {
    seq![FrameView { name: "root"@, elem: root, init: true }]
}

/// The document that the text of `src` adds to the table `root`: the entries
/// of the text set in `root`, references expanded; or the first error.
pub open spec fn built(src: SourceView, root: ElementView) -> Result<ElementView, ErrorView> {
    match parse::<ConfigElementVisitor>(src, root_stack(root)) {
        Ok(stack) => Ok(stack.first().elem),
        Err(e) => Err(e),
    }
}

pub proof fn lemma_key_index(entries: Entries, key: Seq<char>, k: int)
    requires
        0 <= k <= entries.len(),
    ensures
        match key_index(entries, key, k) {
            Some(i) => 0 <= i < k && entries[i].0 == key && forall|j: int|
                0 <= j < i ==> (#[trigger] entries[j]).0 != key,
            None => forall|j: int| 0 <= j < k ==> (#[trigger] entries[j]).0 != key,
        },
    decreases k,
{
    if k > 0 {
        lemma_key_index(entries, key, k - 1);
    }
}

/// Setting a key keeps the keys apart.
pub proof fn lemma_insert_keeps_unique(entries: Entries, key: Seq<char>, elem: ElementView)
    requires
        keys_unique(entries),
    ensures
        keys_unique(entries_insert(entries, key, elem)),
{
    lemma_key_index(entries, key, entries.len() as int);
    let after = entries_insert(entries, key, elem);
    assert forall|i: int, j: int|
        0 <= i < after.len() && 0 <= j < after.len() && i != j implies (#[trigger] after[i]).0 != (
    #[trigger] after[j]).0 by {
        match find_key(entries, key) {
            Some(p) => {
                if i != p && j != p {
                    assert(entries[i].0 != entries[j].0);
                } else if i == p {
                    assert(entries[j].0 != entries[p].0);
                } else {
                    assert(entries[i].0 != entries[p].0);
                }
            },
            None => {
                if i < entries.len() && j < entries.len() {
                    assert(entries[i].0 != entries[j].0);
                } else if i < entries.len() {
                    assert(entries[i].0 != key);
                } else {
                    assert(entries[j].0 != key);
                }
            },
        }
    }
}

/// Putting a well-formed element into a well-formed one leaves it so.
pub proof fn lemma_insert_keeps_wf(parent: ElementView, name: Seq<char>, elem: ElementView)
    requires
        parent.wf(),
        elem.wf(),
    ensures
        parent.insert(name, elem).wf(),
{
    match parent.kind {
        ElementKindView::Value(_) => {},
        ElementKindView::Table(e) => {
            lemma_insert_keeps_unique(e, name, elem);
            lemma_key_index(e, name, e.len() as int);
            let after = entries_insert(e, name, elem);
            assert forall|i: int| 0 <= i < after.len() implies (#[trigger] after[i]).1.wf() by {
                if i < e.len() && after[i] == e[i] {
                    assert(e[i].1.wf());
                }
            }
        },
        ElementKindView::TaggedTable(_, e) => {
            lemma_insert_keeps_unique(e, name, elem);
            lemma_key_index(e, name, e.len() as int);
            let after = entries_insert(e, name, elem);
            assert forall|i: int| 0 <= i < after.len() implies (#[trigger] after[i]).1.wf() by {
                if i < e.len() && after[i] == e[i] {
                    assert(e[i].1.wf());
                }
            }
        },
        _ => {
            let a = parent.kind.elements()->0;
            let after = a.push(elem);
            assert forall|i: int| 0 <= i < after.len() implies (#[trigger] after[i]).wf() by {
                if i < a.len() {
                    assert(a[i].wf());
                }
            }
        },
    }
}

/// A table: elements under keys, in the order in which the keys first came.
/// It is kept in an `IndexMap` of the indexmap crate, of which the verifier
/// knows the entries and what the functions below say of them.
#[verifier::external_body]
#[derive(Debug)]
pub struct Table {
    map: indexmap::IndexMap<String, ConfigElement>,
}

/// The entries of a table: its keys in the order in which they first came,
/// each with the model of the element under it.
pub uninterp spec fn table_entries(table: Table) -> Seq<(Seq<char>, ElementView)>;

/// `IndexMap::new` of indexmap: a map without entries.
#[verifier::external_body]
fn map_new() -> (r: Table)
    ensures
        table_entries(r) == Seq::<(Seq<char>, ElementView)>::empty(),
{
    Table { map: indexmap::IndexMap::new() }
}

/// `IndexMap::len` of indexmap: the number of entries.
#[verifier::external_body]
fn map_len(table: &Table) -> (r: usize)
    ensures
        r == table_entries(*table).len(),
{
    table.map.len()
}

/// `IndexMap::get_index` of indexmap: the key and the element of the entry
/// at index `i` in the order of the entries, and nothing from the number of
/// entries on. No two entries of a map have the same key, so the key is
/// found at index `i` and at no earlier one.
#[verifier::external_body]
fn map_get_index(table: &Table, i: usize) -> (r: Option<(&String, &ConfigElement)>)
    ensures
        match r {
            Some(entry) => {
                &&& i < table_entries(*table).len()
                &&& entry.0@ == table_entries(*table)[i as int].0
                &&& entry.1@ == table_entries(*table)[i as int].1
                &&& find_key(table_entries(*table), entry.0@) == Some(i as int)
            },
            None => i >= table_entries(*table).len(),
        },
{
    table.map.get_index(i)
}

/// `IndexMap::get_index_of` of indexmap: the index of the entry with the
/// key `key`, and nothing where no entry has it.
#[verifier::external_body]
fn map_get_index_of(table: &Table, key: &str) -> (r: Option<usize>)
    ensures
        match r {
            Some(i) => find_key(table_entries(*table), key@) == Some(i as int) && i
                < table_entries(*table).len(),
            None => find_key(table_entries(*table), key@) is None,
        },
{
    table.map.get_index_of(key)
}

/// `IndexMap::insert` of indexmap: where an entry has the key, the element
/// takes the place of that entry's element and the entry keeps its place;
/// where none has it, the new entry comes last.
#[verifier::external_body]
fn map_insert(table: &mut Table, key: String, elem: ConfigElement)
    ensures
        table_entries(*final(table)) == entries_insert(table_entries(*old(table)), key@, elem@),
{
    table.map.insert(key, elem);
}

/// `IndexMap::get_mut` of indexmap: the element under `key`, to be changed
/// in its place, and nothing where no entry has the key. No other entry
/// changes, and the entry keeps its key.
#[verifier::external_body]
fn map_get_mut<'a>(table: &'a mut Table, key: &str) -> (r: Option<&'a mut ConfigElement>)
    ensures
        match (find_key(table_entries(*old(table)), key@), r) {
            (Some(i), Some(e)) => (*e)@ == table_entries(*old(table))[i].1 && table_entries(
                *final(table),
            ) == table_entries(*old(table)).update(
                i,
                (table_entries(*old(table))[i].0, (*final(e))@),
            ),
            (None, None) => *final(table) == *old(table),
            _ => false,
        },
{
    table.map.get_mut(key)
}

/// A configuration element.
#[derive(Debug)]
pub struct ConfigElement {
    kind: ConfigElementKind,
    span: Span,
}

/// The kind of a configuration element.
#[derive(Debug)]
pub enum ConfigElementKind {
    /// A simple value, containing a string.
    Value(String),
    /// A table, which is a mapping of strings to configuration elements.
    Table(Table),
    /// A table with a string tag.
    TaggedTable(String, Table),
    /// An array of configuration elements.
    Array(Vec<ConfigElement>),
    /// An array of configuration elements with a string tag.
    TaggedArray(String, Vec<ConfigElement>),
    /// An array that is printed with a line for each element.
    MultiLineArray(Vec<ConfigElement>),
    /// A tagged array that is printed with a line for each element.
    MultiLineTaggedArray(String, Vec<ConfigElement>),
}

/// Whether `views` are the models of `elements`, one for one.
pub open spec fn models(elements: Seq<ConfigElement>, views: Seq<ElementView>) -> bool {
    &&& elements.len() == views.len()
    &&& forall|i: int| 0 <= i < elements.len() ==> (#[trigger] elements[i])@ == views[i]
}

/// The models of the elements of an array.
pub open spec fn elements_view(elements: Seq<ConfigElement>) -> Seq<ElementView> {
    Seq::new(elements.len(), |i: int| elements[i]@)
}

impl View for ConfigElement {
    type V = ElementView;

    closed spec fn view(&self) -> ElementView {
        self.model()
    }
}

impl ConfigElement {
    /// The model of the element, by the models of what it holds.
    closed spec fn model(self) -> ElementView
        decreases self,
    {
        let fallback = ElementView::value(Seq::empty());
        ElementView {
            kind: match self.kind {
                ConfigElementKind::Value(s) => ElementKindView::Value(s@),
                ConfigElementKind::Table(t) => ElementKindView::Table(table_entries(t)),
                ConfigElementKind::TaggedTable(tag, t) => ElementKindView::TaggedTable(tag@, table_entries(t)),
                ConfigElementKind::Array(a) => ElementKindView::Array(
                    Seq::new(
                        a@.len(),
                        |i: int|
                            if 0 <= i < a@.len() {
                                a@[i].model()
                            } else {
                                fallback
                            },
                    ),
                ),
                ConfigElementKind::TaggedArray(tag, a) => ElementKindView::TaggedArray(
                    tag@,
                    Seq::new(
                        a@.len(),
                        |i: int|
                            if 0 <= i < a@.len() {
                                a@[i].model()
                            } else {
                                fallback
                            },
                    ),
                ),
                ConfigElementKind::MultiLineArray(a) => ElementKindView::MultiLineArray(
                    Seq::new(
                        a@.len(),
                        |i: int|
                            if 0 <= i < a@.len() {
                                a@[i].model()
                            } else {
                                fallback
                            },
                    ),
                ),
                ConfigElementKind::MultiLineTaggedArray(tag, a) => ElementKindView::MultiLineTaggedArray(
                    tag@,
                    Seq::new(
                        a@.len(),
                        |i: int|
                            if 0 <= i < a@.len() {
                                a@[i].model()
                            } else {
                                fallback
                            },
                    ),
                ),
            },
            span: self.span,
        }
    }
}

impl View for ConfigElementKind {
    type V = ElementKindView;

    closed spec fn view(&self) -> ElementKindView {
        match self {
            ConfigElementKind::Value(s) => ElementKindView::Value(s@),
            ConfigElementKind::Table(t) => ElementKindView::Table(table_entries(*t)),
            ConfigElementKind::TaggedTable(tag, t) => ElementKindView::TaggedTable(
                tag@,
                table_entries(*t),
            ),
            ConfigElementKind::Array(a) => ElementKindView::Array(elements_view(a@)),
            ConfigElementKind::TaggedArray(tag, a) => ElementKindView::TaggedArray(
                tag@,
                elements_view(a@),
            ),
            ConfigElementKind::MultiLineArray(a) => ElementKindView::MultiLineArray(
                elements_view(a@),
            ),
            ConfigElementKind::MultiLineTaggedArray(tag, a) => ElementKindView::MultiLineTaggedArray(
                tag@,
                elements_view(a@),
            ),
        }
    }
}

impl View for Table {
    type V = Entries;

    open spec fn view(&self) -> Entries {
        table_entries(*self)
    }
}

/// The model of an element, by the models of what it holds.
proof fn lemma_view(e: ConfigElement)
    ensures
        e@.span == e.span,
        match e.kind {
            ConfigElementKind::Value(s) => e@.kind == ElementKindView::Value(s@),
            ConfigElementKind::Table(t) => e@.kind == ElementKindView::Table(t@),
            ConfigElementKind::TaggedTable(tag, t) => e@.kind == ElementKindView::TaggedTable(
                tag@,
                t@,
            ),
            ConfigElementKind::Array(a) => e@.kind == ElementKindView::Array(elements_view(a@)),
            ConfigElementKind::TaggedArray(tag, a) => e@.kind == ElementKindView::TaggedArray(
                tag@,
                elements_view(a@),
            ),
            ConfigElementKind::MultiLineArray(a) => e@.kind == ElementKindView::MultiLineArray(
                elements_view(a@),
            ),
            ConfigElementKind::MultiLineTaggedArray(tag, a) => e@.kind
                == ElementKindView::MultiLineTaggedArray(tag@, elements_view(a@)),
        },
{
    match e.kind {
        ConfigElementKind::Value(s) => {},
        ConfigElementKind::Table(t) => {},
        ConfigElementKind::TaggedTable(tag, t) => {},
        ConfigElementKind::Array(a) => {
            let got = e@.kind->Array_0;
            assert forall|i: int| 0 <= i < got.len() implies got[i] == elements_view(a@)[i] by {
                assert(got[i] == a@[i]@);
            }
            assert(got =~= elements_view(a@));
        },
        ConfigElementKind::TaggedArray(tag, a) => {
            let got = e@.kind->TaggedArray_1;
            assert forall|i: int| 0 <= i < got.len() implies got[i] == elements_view(a@)[i] by {
                assert(got[i] == a@[i]@);
            }
            assert(got =~= elements_view(a@));
        },
        ConfigElementKind::MultiLineArray(a) => {
            let got = e@.kind->MultiLineArray_0;
            assert forall|i: int| 0 <= i < got.len() implies got[i] == elements_view(a@)[i] by {
                assert(got[i] == a@[i]@);
            }
            assert(got =~= elements_view(a@));
        },
        ConfigElementKind::MultiLineTaggedArray(tag, a) => {
            let got = e@.kind->MultiLineTaggedArray_1;
            assert forall|i: int| 0 <= i < got.len() implies got[i] == elements_view(a@)[i] by {
                assert(got[i] == a@[i]@);
            }
            assert(got =~= elements_view(a@));
        },
    }
}

/// The model of every element is made of the models of what it holds.
proof fn lemma_view_of_all()
    ensures
        forall|e: ConfigElement|
            #![trigger e@]
            e@.span == e.span && e@.kind == e.kind@,
{
    assert forall|e: ConfigElement| #![trigger e@] e@.span == e.span && e@.kind == e.kind@ by {
        lemma_view(e);
    }
}

impl Table {
    pub fn new() -> (r: Table)
        ensures
            r@ == Seq::<(Seq<char>, ElementView)>::empty(),
    {
        map_new()
    }

    /// The number of entries.
    pub fn len(&self) -> (r: usize)
        ensures
            r == self@.len(),
    {
        map_len(self)
    }

    pub fn is_empty(&self) -> (r: bool)
        ensures
            r == (self@.len() == 0),
    {
        map_len(self) == 0
    }

    /// The key of the entry at index `i`. No earlier entry has that key.
    pub fn key_at(&self, i: usize) -> (r: &String)
        requires
            i < self@.len(),
        ensures
            r@ == self@[i as int].0,
            find_key(self@, r@) == Some(i as int),
    {
        match map_get_index(self, i) {
            Some(entry) => entry.0,
            None => vstd::pervasive::unreached(),
        }
    }

    /// The element of the entry at index `i`.
    pub fn value_at(&self, i: usize) -> (r: &ConfigElement)
        requires
            i < self@.len(),
        ensures
            r@ == self@[i as int].1,
    {
        match map_get_index(self, i) {
            Some(entry) => entry.1,
            None => vstd::pervasive::unreached(),
        }
    }

    /// The index of the entry with key `key`.
    pub fn index_of(&self, key: &str) -> (r: Option<usize>)
        ensures
            match r {
                Some(i) => find_key(self@, key@) == Some(i as int) && i < self@.len(),
                None => find_key(self@, key@) is None,
            },
    {
        map_get_index_of(self, key)
    }

    /// The element under `key`, if there is one.
    pub fn get(&self, key: &str) -> (r: Option<&ConfigElement>)
        ensures
            match find_key(self@, key@) {
                Some(i) => r is Some && r->0@ == self@[i].1,
                None => r is None,
            },
    {
        match self.index_of(key) {
            Some(i) => Some(self.value_at(i)),
            None => None,
        }
    }

    /// The element under `key`, if there is one, to be changed.
    pub fn get_mut(&mut self, key: &str) -> (r: Option<&mut ConfigElement>)
        ensures
            match (find_key(old(self)@, key@), r) {
                (Some(i), Some(e)) => (*e)@ == old(self)@[i].1 && final(self)@ == old(self)@.update(
                    i,
                    (old(self)@[i].0, (*final(e))@),
                ),
                (None, None) => *final(self) == *old(self),
                _ => false,
            },
    {
        map_get_mut(self, key)
    }

    pub fn contains_key(&self, key: &str) -> (r: bool)
        ensures
            r == find_key(self@, key@) is Some,
    {
        self.index_of(key).is_some()
    }

    /// Sets `key` to `elem`: in the place of the entry that had the key, or
    /// behind all others where none had it.
    pub fn insert(&mut self, key: String, elem: ConfigElement)
        ensures
            final(self)@ == entries_insert(old(self)@, key@, elem@),
    {
        map_insert(self, key, elem);
    }
}

impl ConfigElement {
    /// Well-formedness: in every table the keys differ, and no tag is empty.
    pub open spec fn wf(&self) -> bool {
        self@.wf()
    }

    /// Creates a new empty table.
    pub fn new_table() -> (r: ConfigElement)
        ensures
            r@ == (ElementView { kind: ElementKindView::Table(Seq::empty()), span: Span::invalid() }),
            r.wf(),
    {
        let r = ConfigElement { kind: ConfigElementKind::Table(Table::new()), span: Span::new() };
        proof {
            lemma_view(r);
        }
        r
    }

    /// Creates a new empty tagged table.
    pub fn new_tagged_table(tag: String) -> (r: ConfigElement)
        requires
            tag@.len() > 0,
        ensures
            r@ == (ElementView {
                kind: ElementKindView::TaggedTable(tag@, Seq::empty()),
                span: Span::invalid(),
            }),
            r.wf(),
    {
        let r = ConfigElement {
            kind: ConfigElementKind::TaggedTable(tag, Table::new()),
            span: Span::new(),
        };
        proof {
            lemma_view(r);
        }
        r
    }

    /// Creates a new value.
    pub fn new_value(value: &str) -> (r: ConfigElement)
        ensures
            r@ == ElementView::value(value@),
            r.wf(),
    {
        let r = ConfigElement { kind: ConfigElementKind::Value(value.to_owned()), span: Span::new() };
        proof {
            lemma_view(r);
        }
        r
    }

    /// Creates a new array.
    pub fn new_array() -> (r: ConfigElement)
        ensures
            r@ == (ElementView { kind: ElementKindView::Array(Seq::empty()), span: Span::invalid() }),
            r.wf(),
    {
        let r = ConfigElement { kind: ConfigElementKind::Array(Vec::new()), span: Span::new() };
        proof {
            lemma_view(r);
            assert(elements_view(Seq::empty()) =~= Seq::<ElementView>::empty());
        }
        r
    }

    /// Creates a new tagged array.
    pub fn new_tagged_array(tag: String) -> (r: ConfigElement)
        requires
            tag@.len() > 0,
        ensures
            r@ == (ElementView {
                kind: ElementKindView::TaggedArray(tag@, Seq::empty()),
                span: Span::invalid(),
            }),
            r.wf(),
    {
        let r = ConfigElement {
            kind: ConfigElementKind::TaggedArray(tag, Vec::new()),
            span: Span::new(),
        };
        proof {
            lemma_view(r);
            assert(elements_view(Seq::empty()) =~= Seq::<ElementView>::empty());
        }
        r
    }

    /// Creates a new multi-line array.
    pub fn new_multi_line_array() -> (r: ConfigElement)
        ensures
            r@ == (ElementView {
                kind: ElementKindView::MultiLineArray(Seq::empty()),
                span: Span::invalid(),
            }),
            r.wf(),
    {
        let r = ConfigElement {
            kind: ConfigElementKind::MultiLineArray(Vec::new()),
            span: Span::new(),
        };
        proof {
            lemma_view(r);
            assert(elements_view(Seq::empty()) =~= Seq::<ElementView>::empty());
        }
        r
    }

    /// Creates a new multi-line tagged array.
    pub fn new_multi_line_tagged_array(tag: String) -> (r: ConfigElement)
        requires
            tag@.len() > 0,
        ensures
            r@ == (ElementView {
                kind: ElementKindView::MultiLineTaggedArray(tag@, Seq::empty()),
                span: Span::invalid(),
            }),
            r.wf(),
    {
        let r = ConfigElement {
            kind: ConfigElementKind::MultiLineTaggedArray(tag, Vec::new()),
            span: Span::new(),
        };
        proof {
            lemma_view(r);
            assert(elements_view(Seq::empty()) =~= Seq::<ElementView>::empty());
        }
        r
    }

    /// Returns the kind of this element.
    pub fn kind(&self) -> (r: &ConfigElementKind)
        ensures
            r@ == self@.kind,
    {
        proof {
            lemma_view(*self);
        }
        &self.kind
    }

    /// Returns the span associated with this element.
    pub fn span(&self) -> (r: Span)
        ensures
            r == self@.span,
    {
        proof {
            lemma_view(*self);
        }
        self.span
    }

    /// If this is a table, returns a pointer to its contents.
    pub fn as_table(&self) -> (r: Option<&Table>)
        ensures
            match r {
                Some(t) => self@.kind.entries() == Some(t@),
                None => self@.kind.entries() is None,
            },
    {
        proof {
            lemma_view(*self);
        }
        match &self.kind {
            ConfigElementKind::Table(table) => Some(table),
            ConfigElementKind::TaggedTable(_, table) => Some(table),
            _ => None,
        }
    }

    /// If this is a table, returns a pointer to its contents, through which
    /// they can be changed.
    pub fn as_table_mut(&mut self) -> (r: Option<&mut Table>)
        ensures
            match r {
                Some(t) => old(self)@.kind.entries() == Some((*t)@) && final(self)@ == (
                ElementView {
                    kind: old(self)@.kind.with_entries((*final(t))@),
                    span: old(self)@.span,
                }),
                None => old(self)@.kind.entries() is None && *final(self) == *old(self),
            },
    {
        proof {
            lemma_view(*self);
            lemma_view_of_all();
        }
        match &mut self.kind {
            ConfigElementKind::Table(table) => Some(table),
            ConfigElementKind::TaggedTable(_, table) => Some(table),
            _ => None,
        }
    }

    /// If this is a table, returns its contents.
    pub fn into_table(self) -> (r: Option<Table>)
        ensures
            match r {
                Some(t) => self@.kind.entries() == Some(t@),
                None => self@.kind.entries() is None,
            },
    {
        proof {
            lemma_view(self);
        }
        match self.kind {
            ConfigElementKind::Table(table) => Some(table),
            ConfigElementKind::TaggedTable(_, table) => Some(table),
            _ => None,
        }
    }

    /// If this is a value, returns a pointer to its contents.
    pub fn as_value(&self) -> (r: Option<&String>)
        ensures
            match r {
                Some(v) => self@.kind == ElementKindView::Value(v@),
                None => !(self@.kind is Value),
            },
    {
        proof {
            lemma_view(*self);
        }
        match &self.kind {
            ConfigElementKind::Value(value) => Some(value),
            _ => None,
        }
    }

    /// If this is a value, returns a pointer to its contents, through which
    /// they can be changed.
    pub fn as_value_mut(&mut self) -> (r: Option<&mut String>)
        ensures
            match r {
                Some(v) => old(self)@.kind == ElementKindView::Value((*v)@) && final(self)@ == (
                ElementView {
                    kind: ElementKindView::Value((*final(v))@),
                    span: old(self)@.span,
                }),
                None => !(old(self)@.kind is Value) && *final(self) == *old(self),
            },
    {
        proof {
            lemma_view(*self);
        }
        match &mut self.kind {
            ConfigElementKind::Value(value) => Some(value),
            _ => None,
        }
    }

    /// If this is a value, returns its contents.
    pub fn into_value(self) -> (r: Option<String>)
        ensures
            match r {
                Some(v) => self@.kind == ElementKindView::Value(v@),
                None => !(self@.kind is Value),
            },
    {
        proof {
            lemma_view(self);
        }
        match self.kind {
            ConfigElementKind::Value(value) => Some(value),
            _ => None,
        }
    }

    /// If this is an array, returns a pointer to its contents.
    pub fn as_array(&self) -> (r: Option<&Vec<ConfigElement>>)
        ensures
            match r {
                Some(a) => self@.kind.elements() == Some(elements_view(a@)) && models(
                    a@,
                    self@.kind.elements()->0,
                ),
                None => self@.kind.elements() is None,
            },
    {
        proof {
            lemma_view(*self);
        }
        match &self.kind {
            ConfigElementKind::Array(array) => Some(array),
            ConfigElementKind::TaggedArray(_, array) => Some(array),
            ConfigElementKind::MultiLineArray(array) => Some(array),
            ConfigElementKind::MultiLineTaggedArray(_, array) => Some(array),
            _ => None,
        }
    }

    /// If this is an array, returns a pointer to its contents, through which
    /// they can be changed.
    pub fn as_array_mut(&mut self) -> (r: Option<&mut Vec<ConfigElement>>)
        ensures
            match r {
                Some(a) => {
                    &&& old(self)@.kind.elements() == Some(elements_view((*a)@))
                    &&& models((*a)@, old(self)@.kind.elements()->0)
                    &&& final(self)@ == (ElementView {
                        kind: old(self)@.kind.with_elements(elements_view((*final(a))@)),
                        span: old(self)@.span,
                    })
                },
                None => old(self)@.kind.elements() is None && *final(self) == *old(self),
            },
    {
        proof {
            lemma_view(*self);
            lemma_view_of_all();
        }
        match &mut self.kind {
            ConfigElementKind::Array(array) => Some(array),
            ConfigElementKind::TaggedArray(_, array) => Some(array),
            ConfigElementKind::MultiLineArray(array) => Some(array),
            ConfigElementKind::MultiLineTaggedArray(_, array) => Some(array),
            _ => None,
        }
    }

    /// If this is an array, returns its contents.
    pub fn into_array(self) -> (r: Option<Vec<ConfigElement>>)
        ensures
            match r {
                Some(a) => self@.kind.elements() == Some(elements_view(a@)) && models(
                    a@,
                    self@.kind.elements()->0,
                ),
                None => self@.kind.elements() is None,
            },
    {
        proof {
            lemma_view(self);
        }
        match self.kind {
            ConfigElementKind::Array(array) => Some(array),
            ConfigElementKind::TaggedArray(_, array) => Some(array),
            ConfigElementKind::MultiLineArray(array) => Some(array),
            ConfigElementKind::MultiLineTaggedArray(_, array) => Some(array),
            _ => None,
        }
    }

    /// If this element has a tag, returns a pointer to it.
    pub fn tag(&self) -> (r: Option<&String>)
        ensures
            match r {
                Some(t) => self@.kind.tag() == Some(t@),
                None => self@.kind.tag() is None,
            },
    {
        proof {
            lemma_view(*self);
        }
        match &self.kind {
            ConfigElementKind::TaggedTable(tag, _) => Some(tag),
            ConfigElementKind::TaggedArray(tag, _) => Some(tag),
            ConfigElementKind::MultiLineTaggedArray(tag, _) => Some(tag),
            _ => None,
        }
    }

    /// If this element has a tag, returns a pointer to it, through which it
    /// can be changed.
    pub fn tag_mut(&mut self) -> (r: Option<&mut String>)
        ensures
            match r {
                Some(t) => old(self)@.kind.tag() == Some((*t)@) && final(self)@ == (ElementView {
                    kind: old(self)@.kind.with_tag((*final(t))@),
                    span: old(self)@.span,
                }),
                None => old(self)@.kind.tag() is None && *final(self) == *old(self),
            },
    {
        proof {
            lemma_view(*self);
        }
        match &mut self.kind {
            ConfigElementKind::TaggedTable(tag, _) => Some(tag),
            ConfigElementKind::TaggedArray(tag, _) => Some(tag),
            ConfigElementKind::MultiLineTaggedArray(tag, _) => Some(tag),
            _ => None,
        }
    }

    /// Returns the kind of this element, to be changed.
    pub fn kind_mut(&mut self) -> (r: &mut ConfigElementKind)
        ensures
            (*r)@ == old(self)@.kind,
            final(self)@ == (ElementView { kind: (*final(r))@, span: old(self)@.span }),
    {
        proof {
            lemma_view(*self);
            lemma_view_of_all();
        }
        &mut self.kind
    }

    /// Insert an element into a table or an array: under `name` into a table,
    /// behind the other elements into an array, where `name` is ignored. A
    /// value takes no elements.
    pub fn insert(&mut self, name: &str, elem: ConfigElement)
        requires
            !(old(self)@.kind is Value),
        ensures
            final(self)@ == old(self)@.insert(name@, elem@),
    {
        proof {
            lemma_view(*self);
        }
        let ghost before = *self;
        match &mut self.kind {
            ConfigElementKind::Value(_) => {},
            ConfigElementKind::Table(table) => {
                table.insert(name.to_owned(), elem);
            },
            ConfigElementKind::TaggedTable(_, table) => {
                table.insert(name.to_owned(), elem);
            },
            ConfigElementKind::Array(array) => {
                array.push(elem);
            },
            ConfigElementKind::TaggedArray(_, array) => {
                array.push(elem);
            },
            ConfigElementKind::MultiLineArray(array) => {
                array.push(elem);
            },
            ConfigElementKind::MultiLineTaggedArray(_, array) => {
                array.push(elem);
            },
        }
        proof {
            lemma_view(*self);
            if let Some(a) = before@.kind.elements() {
                assert(self@.kind.elements()->0 =~= a.push(elem@));
            }
        }
    }
}

/// What an element holds is less than the element, in the order in which
/// the functions that go through a document come to an end.
proof fn lemma_holds_less(e: ElementView)
    ensures
        e.kind.entries() matches Some(es) ==> decreases_to!(e => es),
        e.kind.elements() matches Some(a) ==> decreases_to!(e => a),
{
    match e.kind {
        ElementKindView::Value(_) => {},
        ElementKindView::Table(es) => {
            assert(decreases_to!(e => e.kind));
            assert(decreases_to!(e.kind => es));
        },
        ElementKindView::TaggedTable(_, es) => {
            assert(decreases_to!(e => e.kind));
            assert(decreases_to!(e.kind => es));
        },
        ElementKindView::Array(a) => {
            assert(decreases_to!(e => e.kind));
            assert(decreases_to!(e.kind => a));
        },
        ElementKindView::TaggedArray(_, a) => {
            assert(decreases_to!(e => e.kind));
            assert(decreases_to!(e.kind => a));
        },
        ElementKindView::MultiLineArray(a) => {
            assert(decreases_to!(e => e.kind));
            assert(decreases_to!(e.kind => a));
        },
        ElementKindView::MultiLineTaggedArray(_, a) => {
            assert(decreases_to!(e => e.kind));
            assert(decreases_to!(e.kind => a));
        },
    }
}

/// A copy of the elements of an array.
#[verifier::loop_isolation(false)]
fn duplicate_elements(elements: &Vec<ConfigElement>) -> (r: Vec<ConfigElement>)
    ensures
        elements_view(r@) == elements_view(elements@),
    decreases elements_view(elements@),
{
    let mut out: Vec<ConfigElement> = Vec::new();
    let mut i: usize = 0;
    while i < elements.len()
        invariant
            i <= elements.len(),
            out@.len() == i,
            forall|j: int| 0 <= j < i ==> (#[trigger] out@[j])@ == elements@[j]@,
        decreases elements.len() - i,
    {
        assert(elements_view(elements@)[i as int] == elements@[i as int]@);
        let e = elements[i].duplicate();
        out.push(e);
        i += 1;
    }
    assert(elements_view(out@) =~= elements_view(elements@));
    out
}

impl Table {
    /// A copy of the table and of all that it holds.
    #[verifier::loop_isolation(false)]
    pub fn duplicate(&self) -> (r: Table)
        ensures
            r@ == self@,
        decreases self@,
    {
        let mut out = Table::new();
        let n: usize = self.len();
        let mut i: usize = 0;
        while i < n
            invariant
                i <= n,
                n == self@.len(),
                out@ == self@.take(i as int),
            decreases n - i,
        {
            let key = self.key_at(i);
            let elem = self.value_at(i).duplicate();
            proof {
                // The key is new among the entries before it.
                let before = self@.take(i as int);
                lemma_key_index(self@, key@, self@.len() as int);
                lemma_key_index(before, key@, i as int);
                if find_key(before, key@) is Some {
                    let k = find_key(before, key@)->0;
                    assert(before[k] == self@[k]);
                }
                assert(before.push((key@, elem@)) =~= self@.take(i + 1));
            }
            out.insert(key.clone(), elem);
            i += 1;
        }
        assert(self@.take(n as int) =~= self@);
        out
    }
}

impl ConfigElement {
    /// A copy of the element and of all that it holds.
    pub fn duplicate(&self) -> (r: ConfigElement)
        ensures
            r@ == self@,
        decreases self@,
    {
        proof {
            lemma_view(*self);
            lemma_holds_less(self@);
        }
        let kind = match &self.kind {
            ConfigElementKind::Value(s) => ConfigElementKind::Value(s.clone()),
            ConfigElementKind::Table(t) => ConfigElementKind::Table(t.duplicate()),
            ConfigElementKind::TaggedTable(tag, t) => ConfigElementKind::TaggedTable(
                tag.clone(),
                t.duplicate(),
            ),
            ConfigElementKind::Array(a) => ConfigElementKind::Array(duplicate_elements(a)),
            ConfigElementKind::TaggedArray(tag, a) => ConfigElementKind::TaggedArray(
                tag.clone(),
                duplicate_elements(a),
            ),
            ConfigElementKind::MultiLineArray(a) => ConfigElementKind::MultiLineArray(
                duplicate_elements(a),
            ),
            ConfigElementKind::MultiLineTaggedArray(tag, a) => ConfigElementKind::MultiLineTaggedArray(
                tag.clone(),
                duplicate_elements(a),
            ),
        };
        let r = ConfigElement { kind, span: self.span };
        proof {
            lemma_view(r);
            lemma_view(*self);
        }
        r
    }

    /// Whether the element is a table that holds something.
    fn holds_entries(&self) -> (r: bool)
        ensures
            r == has_entries(self@),
    {
        proof {
            lemma_view(*self);
        }
        match &self.kind {
            ConfigElementKind::Table(t) => !t.is_empty(),
            ConfigElementKind::TaggedTable(_, t) => !t.is_empty(),
            _ => false,
        }
    }

    /// Outputs the string representation of this element into a printer.
    #[verifier::rlimit(50)]
    pub fn print(&self, name: Option<&str>, is_root: bool, printer: &mut Printer)
        ensures
            final(printer)@ == print_element(
                old(printer)@,
                self@,
                match name {
                    Some(n) => Some(n@),
                    None => None,
                },
                is_root,
            ),
            final(printer)@.levels.len() == old(printer)@.levels.len(),
        decreases self@, 0nat,
    {
        proof {
            lemma_view(*self);
            lemma_holds_less(self@);
            printer.lemma_wf();
        }
        match &self.kind {
            ConfigElementKind::Value(val) => {
                printer.value(name, val.as_str());
            },
            ConfigElementKind::Table(table) => {
                Self::print_table(table, name, None, is_root, printer);
            },
            ConfigElementKind::TaggedTable(tag, table) => {
                Self::print_table(table, name, Some(tag.as_str()), is_root, printer);
            },
            ConfigElementKind::Array(array) => {
                let one_line = Self::one_line(array);
                Self::print_array(array, name, None, one_line, printer);
            },
            ConfigElementKind::TaggedArray(tag, array) => {
                let one_line = Self::one_line(array);
                Self::print_array(array, name, Some(tag.as_str()), one_line, printer);
            },
            ConfigElementKind::MultiLineArray(array) => {
                Self::print_array(array, name, None, array.len() == 0, printer);
            },
            ConfigElementKind::MultiLineTaggedArray(tag, array) => {
                Self::print_array(array, name, Some(tag.as_str()), array.len() == 0, printer);
            },
        }
    }

    /// Prints a table: its start, its entries and its end.
    fn print_table(
        table: &Table,
        name: Option<&str>,
        tag: Option<&str>,
        is_root: bool,
        printer: &mut Printer,
    )
        ensures
            final(printer)@ == print_entries(
                old(printer)@.start_table(
                    match name {
                        Some(n) => Some(n@),
                        None => None,
                    },
                    match tag {
                        Some(t) => Some(t@),
                        None => None,
                    },
                    is_root,
                    table@.len() == 0,
                ),
                table@,
                table@.len() as int,
            ).end_table(is_root),
            final(printer)@.levels.len() == old(printer)@.levels.len(),
        decreases table@, 1nat,
    {
        proof {
            printer.lemma_wf();
        }
        match tag {
            Some(t) => printer.start_tagged_table(name, t, is_root, table.is_empty()),
            None => printer.start_table(name, is_root, table.is_empty()),
        }
        Self::print_entries(table, printer);
        printer.end_table(is_root);
    }

    /// Prints an array: its start, its elements and its end.
    fn print_array(
        array: &Vec<ConfigElement>,
        name: Option<&str>,
        tag: Option<&str>,
        one_line: bool,
        printer: &mut Printer,
    )
        ensures
            final(printer)@ == print_elements(
                old(printer)@.start_array(
                    match name {
                        Some(n) => Some(n@),
                        None => None,
                    },
                    match tag {
                        Some(t) => Some(t@),
                        None => None,
                    },
                    one_line,
                ),
                elements_view(array@),
                array@.len() as int,
            ).end_array(),
            final(printer)@.levels.len() == old(printer)@.levels.len(),
        decreases elements_view(array@), 1nat,
    {
        proof {
            printer.lemma_wf();
        }
        match tag {
            Some(t) => printer.start_tagged_array(name, t, one_line),
            None => printer.start_array(name, one_line),
        }
        Self::print_elements(array, printer);
        printer.end_array();
    }

    /// Whether no element of the array is a table that holds something.
    fn one_line(array: &Vec<ConfigElement>) -> (r: bool)
        ensures
            r == fits_one_line(elements_view(array@)),
    {
        let ghost views = elements_view(array@);
        let mut i: usize = 0;
        while i < array.len()
            invariant
                i <= array.len(),
                views == elements_view(array@),
                forall|j: int| 0 <= j < i ==> !(#[trigger] has_entries(views[j])),
            decreases array.len() - i,
        {
            assert(views[i as int] == array@[i as int]@);
            if array[i].holds_entries() {
                return false;
            }
            i += 1;
        }
        true
    }

    /// Prints the entries of `table`, which this element holds.
    #[verifier::loop_isolation(false)]
    fn print_entries(table: &Table, printer: &mut Printer)
        ensures
            final(printer)@ == print_entries(old(printer)@, table@, table@.len() as int),
            final(printer)@.levels.len() == old(printer)@.levels.len(),
        decreases table@, 0nat,
    {
        let n: usize = table.len();
        let mut i: usize = 0;
        while i < n
            invariant
                i <= n,
                n == table@.len(),
                printer@ == print_entries(old(printer)@, table@, i as int),
                printer@.levels.len() == old(printer)@.levels.len(),
            decreases n - i,
        {
            let key = table.key_at(i);
            let value = table.value_at(i);
            value.print(Some(key.as_str()), false, printer);
            i += 1;
        }
    }

    /// Prints the elements of `array`, which this element holds.
    #[verifier::loop_isolation(false)]
    fn print_elements(array: &Vec<ConfigElement>, printer: &mut Printer)
        ensures
            final(printer)@ == print_elements(
                old(printer)@,
                elements_view(array@),
                array@.len() as int,
            ),
            final(printer)@.levels.len() == old(printer)@.levels.len(),
        decreases elements_view(array@), 0nat,
    {
        let n: usize = array.len();
        let ghost views = elements_view(array@);
        let mut i: usize = 0;
        while i < n
            invariant
                i <= n,
                n == array@.len(),
                printer@ == print_elements(old(printer)@, views, i as int),
                printer@.levels.len() == old(printer)@.levels.len(),
            decreases n - i,
        {
            assert(views[i as int] == array@[i as int]@);
            array[i].print(None, false, printer);
            i += 1;
        }
    }

    /// The text of the document of which this element is the root.
    pub fn to_string(&self) -> (r: String)
        ensures
            r@ == rendered(self@),
    {
        let mut printer = Printer::new();
        self.print(None, true, &mut printer);
        printer.into_string()
    }
}

impl Clone for Table {
    fn clone(&self) -> (r: Table)
        ensures
            r@ == self@,
    {
        self.duplicate()
    }
}

impl Clone for ConfigElement {
    fn clone(&self) -> (r: ConfigElement)
        ensures
            r@ == self@,
    {
        self.duplicate()
    }
}

/// One open element of the builder.
struct Frame {
    name: String,
    elem: ConfigElement,
    init: bool,
}

impl View for Frame {
    type V = FrameView;

    closed spec fn view(&self) -> FrameView {
        FrameView { name: self.name@, elem: self.elem@, init: self.init }
    }
}

/// The visitor that builds the document tree.
pub struct ConfigElementVisitor {
    stack: Vec<Frame>,
}

/// The index that the characters spell, if they spell one.
fn index_of_chars(chars: &Vec<char>) -> (r: Option<usize>)
    ensures
        match r {
            Some(i) => parse_index(chars@) == Some(i as nat),
            None => parse_index(chars@) is None,
        },
{
    let n: usize = chars.len();
    let from: usize = if n > 0 && chars[0] == '+' {
        1
    } else {
        0
    };
    let ghost digits = chars@.skip(from as int);
    proof {
        if from == 0 {
            assert(chars@.skip(0) == chars@);
        }
    }
    if from == n {
        return None;
    }
    let mut acc: usize = 0;
    let mut i: usize = from;
    while i < n
        invariant
            from <= i <= n,
            from < n,
            n == chars@.len(),
            digits == chars@.skip(from as int),
            digits == if chars@.len() > 0 && chars@[0] == '+' {
                chars@.skip(1)
            } else {
                chars@
            },
            decimal_digits(digits.take(i - from)) == Some(acc as nat),
        decreases n - i,
    {
        let c = chars[i];
        let ghost before = digits.take(i - from);
        let ghost after = digits.take(i + 1 - from);
        proof {
            assert(after.drop_last() == before);
            assert(after.last() == c);
        }
        if !('0' <= c && c <= '9') {
            proof {
                lemma_digits_stay_bad(digits, i + 1 - from);
            }
            return None;
        }
        let d: usize = (c as u32 - '0' as u32) as usize;
        let next = match acc.checked_mul(10) {
            Some(m) => m.checked_add(d),
            None => None,
        };
        match next {
            Some(v) => {
                acc = v;
            },
            None => {
                proof {
                    assert(decimal_digits(after) == Some((10 * acc + d) as nat));
                    lemma_digits_grow(digits, i + 1 - from);
                }
                return None;
            },
        }
        i += 1;
    }
    assert(digits.take(n - from) == digits);
    Some(acc)
}

/// Once a prefix of `s` holds something that is no digit, so does `s`.
proof fn lemma_digits_stay_bad(s: Seq<char>, k: int)
    requires
        0 <= k <= s.len(),
        decimal_digits(s.take(k)) is None,
    ensures
        decimal_digits(s) is None,
    decreases s.len() - k,
{
    if k < s.len() {
        assert(s.take(k + 1).drop_last() == s.take(k));
        lemma_digits_stay_bad(s, k + 1);
    } else {
        assert(s.take(k) == s);
    }
}

/// The number that `s` spells is no less than what a prefix of it spells.
proof fn lemma_digits_grow(s: Seq<char>, k: int)
    requires
        0 <= k <= s.len(),
    ensures
        match (decimal_digits(s), decimal_digits(s.take(k))) {
            (Some(a), Some(b)) => a >= b,
            _ => true,
        },
    decreases s.len() - k,
{
    if k < s.len() {
        assert(s.take(k + 1).drop_last() == s.take(k));
        lemma_digits_grow(s, k + 1);
        if decimal_digits(s.take(k + 1)) is None {
            lemma_digits_stay_bad(s, k + 1);
        }
    } else {
        assert(s.take(k) == s);
    }
}

/// The models of the frames.
spec fn frames_view(frames: Seq<Frame>) -> Seq<FrameView> {
    Seq::new(frames.len(), |i: int| frames[i]@)
}

impl ConfigElement {
    /// What `name` refers to in this element.
    fn lookup(&self, name: &String, chars: &Vec<char>) -> (r: Option<&ConfigElement>)
        requires
            chars@ == name@,
        ensures
            match r {
                Some(e) => lookup_in(self@, name@) == Some(e@),
                None => lookup_in(self@, name@) is None,
            },
    {
        proof {
            lemma_view(*self);
        }
        match &self.kind {
            ConfigElementKind::Value(_) => None,
            ConfigElementKind::Table(table) => table.get(name.as_str()),
            ConfigElementKind::TaggedTable(_, table) => table.get(name.as_str()),
            ConfigElementKind::Array(array) => Self::at_index(array, chars),
            ConfigElementKind::TaggedArray(_, array) => Self::at_index(array, chars),
            ConfigElementKind::MultiLineArray(array) => Self::at_index(array, chars),
            ConfigElementKind::MultiLineTaggedArray(_, array) => Self::at_index(array, chars),
        }
    }

    /// The element of `array` at the index that `chars` spell.
    fn at_index<'a>(array: &'a Vec<ConfigElement>, chars: &Vec<char>) -> (r: Option<
        &'a ConfigElement,
    >)
        ensures
            match parse_index(chars@) {
                Some(i) => if i < array@.len() {
                    r is Some && r->0@ == elements_view(array@)[i as int]
                } else {
                    r is None
                },
                None => r is None,
            },
    {
        match index_of_chars(chars) {
            Some(i) => if i < array.len() {
                Some(&array[i])
            } else {
                None
            },
            None => None,
        }
    }
}

impl ConfigElementVisitor {
    /// The frames hold well-formed elements, and the root's frame is there.
    pub closed spec fn well_formed(&self) -> bool {
        &&& self.stack@.len() >= 1
        &&& forall|i: int| 0 <= i < self.stack@.len() ==> (#[trigger] self.stack@[i]).elem@.wf()
    }

    /// The visitor that builds a document into the table `root`.
    pub fn new(root: ConfigElement) -> (r: ConfigElementVisitor)
        requires
            root.wf(),
        ensures
            r.inv(),
            r.state() == root_stack(root@),
    {
        let mut stack: Vec<Frame> = Vec::new();
        stack.push(Frame { name: "root".to_owned(), elem: root, init: true });
        let r = ConfigElementVisitor { stack };
        assert(r.state() =~= root_stack(root@));
        r
    }

    /// The document that has been built: what the lowest frame holds.
    pub fn extract_root(self) -> (r: ConfigElement)
        requires
            self.inv(),
        ensures
            r@ == self.state().first().elem,
            r.wf(),
    {
        let mut stack = self.stack;
        let ghost frames = stack@;
        while stack.len() > 1
            invariant
                stack@.len() >= 1,
                stack@.len() <= frames.len(),
                stack@[0] == frames[0],
            decreases stack@.len(),
        {
            stack.pop();
        }
        match stack.pop() {
            Some(frame) => frame.elem,
            None => ConfigElement::new_table(),
        }
    }

    /// The top frame, taken off the stack.
    fn take_top(&mut self) -> (r: Frame)
        requires
            old(self).stack@.len() >= 1,
        ensures
            final(self).stack@ == old(self).stack@.drop_last(),
            r == old(self).stack@.last(),
    {
        match self.stack.pop() {
            Some(frame) => frame,
            None => Frame { name: String::new(), elem: ConfigElement::new_table(), init: false },
        }
    }

    /// Puts `elem` into the top frame in the place of what it held.
    fn set_top(&mut self, elem: ConfigElement)
        requires
            old(self).inv(),
            elem.wf(),
        ensures
            final(self).inv(),
            final(self).state() == with_top(
                old(self).state(),
                FrameView { name: old(self).state().last().name, elem: elem@, init: true },
            ),
    {
        let top = self.take_top();
        self.stack.push(Frame { name: top.name, elem, init: true });
        assert(self.state() =~= with_top(
            old(self).state(),
            FrameView { name: old(self).state().last().name, elem: elem@, init: true },
        ));
    }

    /// What `name` refers to in the frames, innermost first.
    fn find(&self, name: &String) -> (r: Option<ConfigElement>)
        requires
            self.inv(),
        ensures
            match r {
                Some(e) => resolve(self.state(), name@, self.state().len() as int) == Some(e@)
                    && e.wf(),
                None => resolve(self.state(), name@, self.state().len() as int) is None,
            },
    {
        let chars = to_chars(name.as_str());
        let ghost st = self.state();
        let mut k: usize = self.stack.len();
        while k > 0
            invariant
                self.inv(),
                st == self.state(),
                k <= self.stack@.len(),
                chars@ == name@,
                resolve(st, name@, k as int) == resolve(st, name@, st.len() as int),
            decreases k,
        {
            let frame = &self.stack[k - 1];
            assert(st[k - 1] == frame@);
            if frame.name != *name {
                match frame.elem.lookup(name, &chars) {
                    Some(found) => {
                        proof {
                            lemma_lookup_wf(frame.elem@, name@);
                        }
                        return Some(found.duplicate());
                    },
                    None => {},
                }
            }
            k -= 1;
        }
        None
    }
}

/// What a name refers to in a well-formed element is well-formed.
proof fn lemma_lookup_wf(e: ElementView, name: Seq<char>)
    requires
        e.wf(),
    ensures
        match lookup_in(e, name) {
            Some(found) => found.wf(),
            None => true,
        },
{
    match e.kind {
        ElementKindView::Value(_) => {},
        ElementKindView::Table(es) => {
            lemma_key_index(es, name, es.len() as int);
        },
        ElementKindView::TaggedTable(_, es) => {
            lemma_key_index(es, name, es.len() as int);
        },
        _ => {},
    }
}

impl ConfigElement {
    /// What is said where a string is appended to this element, which is no
    /// value.
    fn append_string_message(&self) -> (r: &'static str)
        ensures
            r@ == cannot_append_string(self@.kind),
    {
        proof {
            lemma_view(*self);
        }
        match &self.kind {
            ConfigElementKind::Table(_) => "Cannot append a string to a table",
            ConfigElementKind::TaggedTable(_, _) => "Cannot append a string to a tagged table",
            ConfigElementKind::Array(_) => "Cannot append a string to an array",
            ConfigElementKind::MultiLineArray(_) => "Cannot append a string to an array",
            _ => "Cannot append a string to a tagged array",
        }
    }

    /// What is said where this element, which is no value, is appended to a
    /// value.
    fn append_to_value_message(&self) -> (r: &'static str)
        ensures
            r@ == cannot_append_to_value(self@.kind),
    {
        proof {
            lemma_view(*self);
        }
        match &self.kind {
            ConfigElementKind::Table(_) => "Cannot append a table to a value",
            ConfigElementKind::TaggedTable(_, _) => "Cannot append a tagged table to a value",
            ConfigElementKind::Array(_) => "Cannot append an array to a value",
            ConfigElementKind::MultiLineArray(_) => "Cannot append an array to a value",
            _ => "Cannot append an tagged array to a value",
        }
    }

    /// What is said where something is appended to this element, which is no
    /// value.
    fn append_to_message(&self) -> (r: &'static str)
        ensures
            r@ == cannot_append_to(self@.kind),
    {
        proof {
            lemma_view(*self);
        }
        match &self.kind {
            ConfigElementKind::Table(_) => "Cannot append to a table",
            ConfigElementKind::TaggedTable(_, _) => "Cannot append to a tagged table",
            ConfigElementKind::Array(_) => "Cannot append to an array",
            ConfigElementKind::MultiLineArray(_) => "Cannot append to an array",
            _ => "Cannot append to a tagged array",
        }
    }

    /// The element with the text `more` behind its own, at `span`. An
    /// element that is no value comes back with nothing but its span changed.
    fn with_text(self, more: &str, span: Span) -> (r: ConfigElement)
        ensures
            match self@.kind {
                ElementKindView::Value(v) => r@ == (ElementView {
                    kind: ElementKindView::Value(v + more@),
                    span,
                }),
                _ => r@ == (ElementView { kind: self@.kind, span }),
            },
    {
        proof {
            lemma_view(self);
        }
        let r = match self.kind {
            ConfigElementKind::Value(val) => {
                let mut val = val;
                val.append(more);
                ConfigElement { kind: ConfigElementKind::Value(val), span }
            },
            other => ConfigElement { kind: other, span },
        };
        proof {
            lemma_view(r);
        }
        r
    }

    /// The element at another span.
    fn at_span(self, span: Span) -> (r: ConfigElement)
        ensures
            r@ == (ElementView { kind: self@.kind, span }),
    {
        proof {
            lemma_view(self);
        }
        let r = ConfigElement { kind: self.kind, span };
        proof {
            lemma_view(r);
        }
        r
    }
}

/// An element that differs from a well-formed one in its span alone is
/// well-formed.
proof fn lemma_span_keeps_wf(e: ElementView, span: Span)
    requires
        e.wf(),
    ensures
        (ElementView { kind: e.kind, span }).wf(),
{
}

/// The builder takes the events as `build_step` says. Where it refuses an
/// event, its frames stay as they were.
impl Visitor for ConfigElementVisitor {
    type State = Seq<FrameView>;

    closed spec fn state(&self) -> Seq<FrameView> {
        frames_view(self.stack@)
    }

    closed spec fn inv(&self) -> bool {
        self.well_formed()
    }

    open spec fn accept(state: Seq<FrameView>, src: SourceView, event: Event) -> Result<
        Seq<FrameView>,
        ErrorView,
    > {
        build_step(state, src, event)
    }

    fn start_element(&mut self, src: &Source, name: ConfigString) -> (r: Result<(), Error>) {
        let text = name.to_string();
        self.stack.push(Frame { name: text, elem: ConfigElement::new_value(""), init: false });
        proof {
            assert(""@ =~= Seq::<char>::empty()) by {
                reveal_strlit("");
            }
            assert(self.state() =~= old(self).state().push(
                FrameView {
                    name: name@.decoded(),
                    elem: ElementView::value(Seq::empty()),
                    init: false,
                },
            ));
        }
        Ok(())
    }

    fn end_element(&mut self) -> (r: Result<(), Error>)
        ensures
            r is Err ==> final(self).state() == old(self).state(),
    {
        if self.stack.len() > 1 {
            let ghost st = self.state();
            let n: usize = self.stack.len();
            assert(st[n - 2] == self.stack@[n - 2]@);
            assert(st[n - 1] == self.stack@[n - 1]@);
            if self.stack[n - 2].elem.as_value().is_some() {
                return Err(
                    Error::from_span(
                        Span::new(),
                        None,
                        ErrorKind::ParseFailure,
                        "Cannot insert an element into a value",
                    ),
                );
            }
            let top = self.take_top();
            let parent = self.take_top();
            let mut elem = parent.elem;
            proof {
                lemma_insert_keeps_wf(elem@, top.name@, top.elem@);
            }
            elem.insert(top.name.as_str(), top.elem);
            self.stack.push(Frame { name: parent.name, elem, init: parent.init });
            proof {
                assert(self.state() =~= st.take(st.len() - 2).push(
                    FrameView {
                        name: st[st.len() - 2].name,
                        elem: st[st.len() - 2].elem.insert(st.last().name, st.last().elem),
                        init: st[st.len() - 2].init,
                    },
                ));
            }
        }
        Ok(())
    }

    fn set_table(&mut self, src: &Source, span: Span) -> (r: Result<(), Error>) {
        let elem = ConfigElement::new_table().at_span(span);
        self.set_top(elem);
        Ok(())
    }

    fn set_tagged_table(&mut self, src: &Source, span: Span, tag: ConfigString) -> (r: Result<
        (),
        Error,
    >)
        ensures
            r is Err ==> final(self).state() == old(self).state(),
    {
        let name = tag.to_string();
        if name.as_str().is_empty() {
            return Err(
                Error::from_span(
                    tag.span,
                    Some(src),
                    ErrorKind::ParseFailure,
                    "A tag cannot be empty",
                ),
            );
        }
        let elem = ConfigElement::new_tagged_table(name).at_span(span);
        self.set_top(elem);
        Ok(())
    }

    fn set_array(&mut self, src: &Source, span: Span) -> (r: Result<(), Error>) {
        let elem = ConfigElement::new_array().at_span(span);
        self.set_top(elem);
        Ok(())
    }

    fn set_tagged_array(&mut self, src: &Source, span: Span, tag: ConfigString) -> (r: Result<
        (),
        Error,
    >)
        ensures
            r is Err ==> final(self).state() == old(self).state(),
    {
        let name = tag.to_string();
        if name.as_str().is_empty() {
            return Err(
                Error::from_span(
                    tag.span,
                    Some(src),
                    ErrorKind::ParseFailure,
                    "A tag cannot be empty",
                ),
            );
        }
        let elem = ConfigElement::new_tagged_array(name).at_span(span);
        self.set_top(elem);
        Ok(())
    }

    fn append_string(&mut self, src: &Source, string: ConfigString) -> (r: Result<(), Error>)
        ensures
            r is Err ==> final(self).state() == old(self).state(),
    {
        let n: usize = self.stack.len();
        let ghost st = self.state();
        assert(st[n - 1] == self.stack@[n - 1]@);
        if self.stack[n - 1].elem.as_value().is_none() {
            let msg = self.stack[n - 1].elem.append_string_message();
            return Err(Error::from_span(string.span, Some(src), ErrorKind::ParseFailure, msg));
        }
        let top = self.take_top();
        let mut span = top.elem.span();
        span.combine(string.span);
        let text = string.to_string();
        let elem = top.elem.with_text(text.as_str(), span);
        self.stack.push(Frame { name: top.name, elem, init: true });
        proof {
            assert(self.state() =~= with_top(
                st,
                FrameView { name: st.last().name, elem: elem@, init: true },
            ));
        }
        Ok(())
    }

    fn expand(&mut self, src: &Source, name: ConfigString) -> (r: Result<(), Error>)
        ensures
            r is Err ==> final(self).state() == old(self).state(),
    {
        let span = name.span;
        let text = name.to_string();
        let n: usize = self.stack.len();
        let ghost st = self.state();
        assert(st[n - 1] == self.stack@[n - 1]@);
        let found = match self.find(&text) {
            Some(e) => e,
            None => {
                let mut msg = String::new();
                msg.append("Could not find an element named `");
                msg.append(text.as_str());
                msg.append("`");
                proof {
                    assert(msg@ =~= "Could not find an element named `"@ + text@ + "`"@);
                }
                return Err(Error::from_span(span, Some(src), ErrorKind::NotFound, msg.as_str()));
            },
        };
        if !self.stack[n - 1].init {
            proof {
                lemma_span_keeps_wf(found@, span);
            }
            self.set_top(found.at_span(span));
            return Ok(());
        }
        if self.stack[n - 1].elem.as_value().is_none() {
            let msg = self.stack[n - 1].elem.append_to_message();
            return Err(Error::from_span(span, Some(src), ErrorKind::ParseFailure, msg));
        }
        match found.as_value() {
            None => {
                let msg = found.append_to_value_message();
                Err(Error::from_span(span, Some(src), ErrorKind::ParseFailure, msg))
            },
            Some(more) => {
                let top = self.take_top();
                let elem = top.elem.with_text(more.as_str(), span);
                self.stack.push(Frame { name: top.name, elem, init: true });
                proof {
                    assert(self.state() =~= with_top(
                        st,
                        FrameView { name: st.last().name, elem: elem@, init: true },
                    ));
                }
                Ok(())
            },
        }
    }
}

impl ConfigElement {
    /// Updates the elements in this table with new values parsed from
    /// `source`. After an error this table is empty.
    pub fn from_source_with_init(&mut self, source: &Source) -> (r: Result<(), Error>)
        requires
            old(self).wf(),
            old(self)@.kind.entries() is Some,
        ensures
            match built(source@, old(self)@) {
                Ok(e) => r is Ok && final(self)@ == e,
                Err(e) => r is Err && r->Err_0@ == e && final(self)@ == ConfigElement::empty_table(),
            },
            final(self).wf(),
    {
        let mut root = ConfigElement::new_table();
        core::mem::swap(&mut root, self);
        let mut visitor = ConfigElementVisitor::new(root);
        match parse_source(source, &mut visitor) {
            Ok(()) => {
                *self = visitor.extract_root();
                Ok(())
            },
            Err(e) => Err(e),
        }
    }

    /// Parses a source and returns a table.
    pub fn from_source(source: &Source) -> (r: Result<ConfigElement, Error>)
        ensures
            match built(source@, ConfigElement::empty_table()) {
                Ok(e) => r is Ok && r->Ok_0@ == e && r->Ok_0.wf(),
                Err(e) => r is Err && r->Err_0@ == e,
            },
    {
        let mut root = ConfigElement::new_table();
        match root.from_source_with_init(source) {
            Ok(()) => Ok(root),
            Err(e) => Err(e),
        }
    }

    /// The model of the table without entries.
    pub open spec fn empty_table() -> ElementView {
        ElementView { kind: ElementKindView::Table(Seq::empty()), span: Span::invalid() }
    }

    /// The source that a text without a file stands for.
    pub open spec fn anonymous(text: Seq<char>) -> SourceView {
        SourceView { filename: "<anon>"@, text }
    }

    /// Parses a text and returns a table.
    pub fn from_str(src: &str) -> (r: Result<ConfigElement, Error>)
        ensures
            match built(ConfigElement::anonymous(src@), ConfigElement::empty_table()) {
                Ok(e) => r is Ok && r->Ok_0@ == e && r->Ok_0.wf(),
                Err(e) => r is Err && r->Err_0@ == e,
            },
    {
        let source = Source::new("<anon>", src);
        ConfigElement::from_source(&source)
    }

    /// Updates the elements in this table with new values parsed from `src`.
    /// After an error this table is empty.
    pub fn from_str_with_init(&mut self, src: &str) -> (r: Result<(), Error>)
        requires
            old(self).wf(),
            old(self)@.kind.entries() is Some,
        ensures
            match built(ConfigElement::anonymous(src@), old(self)@) {
                Ok(e) => r is Ok && final(self)@ == e,
                Err(e) => r is Err && r->Err_0@ == e && final(self)@ == ConfigElement::empty_table(),
            },
            final(self).wf(),
    {
        let source = Source::new("<anon>", src);
        self.from_source_with_init(&source)
    }
}

} // verus!
