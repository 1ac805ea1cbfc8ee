//! What the grammar does to the frames of the builder: a rule that matches
//! leaves every frame but the innermost as it was.

use vstd::prelude::*;
use crate::config_element::{
    build_step, entries_insert, lemma_insert_keeps_unique, lemma_key_index, lookup_in, plain, resolve,
    root_stack, ConfigElementVisitor, ElementKindView, ElementView, FrameView,
};
use crate::config_string::string_of_token;
use crate::lexer::Lexeme;
use crate::parser::{
    array, array_contents, array_element, document, ended, first_of, head, rhs, string_expr, table,
    table_contents, table_element, tagged_array, tagged_table, Step,
};
use crate::source::SourceView;
use crate::span::Span;
use crate::visitor::Event;

verus! {

/// Every frame holds a plain element.
pub open spec fn good(st: Seq<FrameView>) -> bool {
    &&& st.len() >= 1
    &&& forall|i: int| 0 <= i < st.len() ==> plain((#[trigger] st[i]).elem)
}

/// The stacks differ in their top frames alone, and both are good.
pub open spec fn top_changed(a: Seq<FrameView>, b: Seq<FrameView>) -> bool {
    &&& good(b)
    &&& b.len() == a.len()
    &&& b.drop_last() == a.drop_last()
}

/// A top frame that held a table holds one still.
pub open spec fn kept_table(a: Seq<FrameView>, b: Seq<FrameView>) -> bool {
    a.last().elem.kind.entries() is Some ==> b.last().elem.kind.entries() is Some
}

/// A stack that differs from a good one in a plain top frame is good.
proof fn lemma_good_top(a: Seq<FrameView>, b: Seq<FrameView>)
    requires
        good(a),
        b.len() == a.len(),
        b.drop_last() == a.drop_last(),
        plain(b.last().elem),
    ensures
        top_changed(a, b),
{
    assert forall|i: int| 0 <= i < b.len() implies plain((#[trigger] b[i]).elem) by {
        if i < b.len() - 1 {
            assert(b[i] == b.drop_last()[i]);
            assert(a[i] == a.drop_last()[i]);
        }
    }
}

/// Putting a plain element into a plain one leaves it plain.
pub proof fn lemma_insert_keeps_plain(parent: ElementView, name: Seq<char>, elem: ElementView)
    requires
        plain(parent),
        plain(elem),
    ensures
        plain(parent.insert(name, elem)),
        parent.kind.entries() is Some ==> parent.insert(name, elem).kind.entries() is Some,
{
    match parent.kind {
        ElementKindView::Table(e) => {
            lemma_insert_keeps_unique(e, name, elem);
            lemma_key_index(e, name, e.len() as int);
            let after = entries_insert(e, name, elem);
            assert forall|i: int| 0 <= i < after.len() implies plain((#[trigger] after[i]).1) by {
                if i < e.len() && after[i] == e[i] {
                    assert(plain(e[i].1));
                }
            }
        },
        ElementKindView::TaggedTable(_, e) => {
            lemma_insert_keeps_unique(e, name, elem);
            lemma_key_index(e, name, e.len() as int);
            let after = entries_insert(e, name, elem);
            assert forall|i: int| 0 <= i < after.len() implies plain((#[trigger] after[i]).1) by {
                if i < e.len() && after[i] == e[i] {
                    assert(plain(e[i].1));
                }
            }
        },
        ElementKindView::Array(a) => {
            let after = a.push(elem);
            assert forall|i: int| 0 <= i < after.len() implies plain(#[trigger] after[i]) by {
                if i < a.len() {
                    assert(plain(a[i]));
                }
            }
        },
        ElementKindView::TaggedArray(_, a) => {
            let after = a.push(elem);
            assert forall|i: int| 0 <= i < after.len() implies plain(#[trigger] after[i]) by {
                if i < a.len() {
                    assert(plain(a[i]));
                }
            }
        },
        _ => {},
    }
}

/// What a name refers to in a plain element is plain.
proof fn lemma_lookup_plain(e: ElementView, name: Seq<char>)
    requires
        plain(e),
    ensures
        lookup_in(e, name) matches Some(found) ==> plain(found),
{
    match e.kind {
        ElementKindView::Table(es) => {
            lemma_key_index(es, name, es.len() as int);
        },
        ElementKindView::TaggedTable(_, es) => {
            lemma_key_index(es, name, es.len() as int);
        },
        _ => {},
    }
}

/// What a name refers to in good frames is plain.
proof fn lemma_resolve_plain(st: Seq<FrameView>, name: Seq<char>, k: int)
    requires
        good(st),
        0 <= k <= st.len(),
    ensures
        resolve(st, name, k) matches Some(found) ==> plain(found),
    decreases k,
{
    if k > 0 {
        lemma_resolve_plain(st, name, k - 1);
        lemma_lookup_plain(st[k - 1].elem, name);
    }
}

/// An event that tells of the open element changes the top frame alone.
proof fn lemma_step_top(st: Seq<FrameView>, src: SourceView, event: Event)
    requires
        good(st),
        !(event is StartElement),
        !(event is EndElement),
    ensures
        build_step(st, src, event) matches Ok(s) ==> top_changed(st, s),
{
    if let Ok(s) = build_step(st, src, event) {
        assert(s.drop_last() =~= st.drop_last());
        if let Event::Expand(name) = event {
            lemma_resolve_plain(st, name.decoded(), st.len() as int);
        }
        lemma_good_top(st, s);
    }
}

/// The start of an element opens a frame with a plain element.
proof fn lemma_step_start(st: Seq<FrameView>, src: SourceView, event: Event)
    requires
        good(st),
        event is StartElement,
    ensures
        build_step(st, src, event) is Ok,
        good(build_step(st, src, event)->Ok_0),
        build_step(st, src, event)->Ok_0.len() == st.len() + 1,
        build_step(st, src, event)->Ok_0.drop_last() == st,
{
    let s = build_step(st, src, event)->Ok_0;
    assert(s.drop_last() =~= st);
    assert forall|i: int| 0 <= i < s.len() implies plain((#[trigger] s[i]).elem) by {
        if i < st.len() {
            assert(s[i] == st[i]);
        }
    }
}

/// A rule went on from a stack with a fresh frame on it and changed that
/// frame alone; the end of the element then changes the frame below alone.
proof fn lemma_ended_frames(
    src: SourceView,
    step: Step<Seq<FrameView>>,
    st: Seq<FrameView>,
    opened: Seq<FrameView>,
)
    requires
        good(st),
        opened.len() == st.len() + 1,
        opened.drop_last() == st,
        step matches Step::Matched(_, s) ==> top_changed(opened, s),
    ensures
        ended::<ConfigElementVisitor>(src, step) matches Step::Matched(rest, s) ==> top_changed(
            st,
            s,
        ) && kept_table(st, s) && step is Matched && rest == step->Matched_0,
{
    if let Step::Matched(rest, s) = step {
        if let Ok(after) = build_step(s, src, Event::EndElement) {
            assert(s.drop_last() == st);
            assert(s[s.len() - 2] == st.last()) by {
                assert(s.drop_last()[s.len() - 2] == s[s.len() - 2]);
            }
            assert(after.drop_last() =~= st.drop_last()) by {
                assert forall|i: int| 0 <= i < st.len() - 1 implies after.drop_last()[i]
                    == st.drop_last()[i] by {
                    assert(s.drop_last()[i] == s[i]);
                }
            }
            assert(plain(s.last().elem));
            lemma_insert_keeps_plain(st.last().elem, s.last().name, s.last().elem);
            lemma_good_top(st, after);
        }
    }
}

pub proof fn lemma_string_expr_frames(
    src: SourceView,
    toks: Seq<Lexeme>,
    st: Seq<FrameView>,
    last: Option<Span>,
)
    requires
        good(st),
    ensures
        string_expr::<ConfigElementVisitor>(src, toks, st, last) matches Step::Matched(_, s)
            ==> top_changed(st, s),
    decreases toks.len(), 0nat,
{
    if let Some(Ok(t)) = head(toks) {
        if t.kind.is_string() {
            let event = Event::AppendString(string_of_token(t));
            lemma_step_top(st, src, event);
            if let Ok(s) = build_step(st, src, event) {
                let rest = toks.drop_first();
                if let Some(Ok(tilde)) = head(rest) {
                    if tilde.kind is Tilde {
                        lemma_string_expr_frames(src, rest.drop_first(), s, Some(tilde.span));
                    }
                }
            }
        } else if t.kind is Dollar {
            if let Some(Ok(name)) = head(toks.drop_first()) {
                if name.kind.is_string() {
                    let event = Event::Expand(string_of_token(name));
                    lemma_step_top(st, src, event);
                    if let Ok(s) = build_step(st, src, event) {
                        let rest = toks.skip(2);
                        if let Some(Ok(tilde)) = head(rest) {
                            if tilde.kind is Tilde {
                                lemma_string_expr_frames(
                                    src,
                                    rest.drop_first(),
                                    s,
                                    Some(tilde.span),
                                );
                            }
                        }
                    }
                }
            }
        }
    }
}

pub proof fn lemma_table_frames(
    src: SourceView,
    toks: Seq<Lexeme>,
    st: Seq<FrameView>,
    is_tagged: bool,
)
    requires
        good(st),
    ensures
        table::<ConfigElementVisitor>(src, toks, st, is_tagged) matches Step::Matched(_, s)
            ==> top_changed(st, s),
    decreases toks.len(), 0nat,
{
    if let Some(Ok(t)) = head(toks) {
        if t.kind is LeftBrace {
            let event = Event::SetTable(t.span);
            lemma_step_top(st, src, event);
            let told = if is_tagged {
                Ok(st)
            } else {
                build_step(st, src, event)
            };
            if let Ok(s) = told {
                lemma_table_contents_frames(src, toks.drop_first(), s);
            }
        }
    }
}

pub proof fn lemma_array_frames(
    src: SourceView,
    toks: Seq<Lexeme>,
    st: Seq<FrameView>,
    is_tagged: bool,
)
    requires
        good(st),
    ensures
        array::<ConfigElementVisitor>(src, toks, st, is_tagged) matches Step::Matched(_, s)
            ==> top_changed(st, s),
    decreases toks.len(), 0nat,
{
    if let Some(Ok(t)) = head(toks) {
        if t.kind is LeftBracket {
            let event = Event::SetArray(t.span);
            lemma_step_top(st, src, event);
            let told = if is_tagged {
                Ok(st)
            } else {
                build_step(st, src, event)
            };
            if let Ok(s) = told {
                lemma_array_contents_frames(src, toks.drop_first(), s);
            }
        }
    }
}

pub proof fn lemma_tagged_table_frames(src: SourceView, toks: Seq<Lexeme>, st: Seq<FrameView>)
    requires
        good(st),
    ensures
        tagged_table::<ConfigElementVisitor>(src, toks, st) matches Step::Matched(_, s)
            ==> top_changed(st, s),
    decreases toks.len(), 1nat,
{
    if let Some(Ok(tag)) = head(toks) {
        if tag.kind.is_string() {
            if let Some(Ok(brace)) = head(toks.drop_first()) {
                if brace.kind is LeftBrace {
                    let event = Event::SetTaggedTable(tag.span, string_of_token(tag));
                    lemma_step_top(st, src, event);
                    if let Ok(s) = build_step(st, src, event) {
                        lemma_table_frames(src, toks.drop_first(), s, true);
                    }
                }
            }
        }
    }
}

pub proof fn lemma_tagged_array_frames(src: SourceView, toks: Seq<Lexeme>, st: Seq<FrameView>)
    requires
        good(st),
    ensures
        tagged_array::<ConfigElementVisitor>(src, toks, st) matches Step::Matched(_, s)
            ==> top_changed(st, s),
    decreases toks.len(), 1nat,
{
    if let Some(Ok(tag)) = head(toks) {
        if tag.kind.is_string() {
            if let Some(Ok(bracket)) = head(toks.drop_first()) {
                if bracket.kind is LeftBracket {
                    let event = Event::SetTaggedArray(tag.span, string_of_token(tag));
                    lemma_step_top(st, src, event);
                    if let Ok(s) = build_step(st, src, event) {
                        lemma_array_frames(src, toks.drop_first(), s, true);
                    }
                }
            }
        }
    }
}

/// The rules for what is no plain table: the first that is there.
proof fn lemma_tagless_frames(src: SourceView, toks: Seq<Lexeme>, st: Seq<FrameView>)
    requires
        good(st),
    ensures
        first_of(
            tagged_array::<ConfigElementVisitor>(src, toks, st),
            first_of(
                tagged_table::<ConfigElementVisitor>(src, toks, st),
                string_expr::<ConfigElementVisitor>(src, toks, st, None),
            ),
        ) matches Step::Matched(_, s) ==> top_changed(st, s),
    decreases toks.len(), 2nat,
{
    lemma_tagged_array_frames(src, toks, st);
    lemma_tagged_table_frames(src, toks, st);
    lemma_string_expr_frames(src, toks, st, None);
}

pub proof fn lemma_rhs_frames(src: SourceView, assign: Span, toks: Seq<Lexeme>, st: Seq<FrameView>)
    requires
        good(st),
    ensures
        rhs::<ConfigElementVisitor>(src, assign, toks, st) matches Step::Matched(_, s)
            ==> top_changed(st, s),
    decreases toks.len(), 3nat,
{
    lemma_array_frames(src, toks, st, false);
    lemma_tagless_frames(src, toks, st);
}

pub proof fn lemma_table_element_frames(src: SourceView, toks: Seq<Lexeme>, st: Seq<FrameView>)
    requires
        good(st),
    ensures
        table_element::<ConfigElementVisitor>(src, toks, st) matches Step::Matched(rest, s)
            ==> top_changed(st, s) && kept_table(st, s) && rest.len() < toks.len(),
    decreases toks.len(), 4nat,
{
    if let Some(Ok(name)) = head(toks) {
        if name.kind.is_string() {
            let event = Event::StartElement(string_of_token(name));
            lemma_step_start(st, src, event);
            let s = build_step(st, src, event)->Ok_0;
            let rest = toks.drop_first();
            if let Some(Ok(t)) = head(rest) {
                if t.kind is Assign {
                    let inner = rhs::<ConfigElementVisitor>(src, t.span, rest.drop_first(), s);
                    lemma_rhs_frames(src, t.span, rest.drop_first(), s);
                    lemma_ended_frames(src, inner, st, s);
                    lemma_rhs_shrinks(src, t.span, rest.drop_first(), s);
                } else {
                    let found = first_of(
                        table::<ConfigElementVisitor>(src, rest, s, false),
                        tagged_table::<ConfigElementVisitor>(src, rest, s),
                    );
                    lemma_table_frames(src, rest, s, false);
                    lemma_tagged_table_frames(src, rest, s);
                    lemma_ended_frames(src, found, st, s);
                    lemma_table_shrinks(src, rest, s, false);
                    lemma_tagged_shrinks(src, rest, s);
                }
            }
        }
    }
}

pub proof fn lemma_array_element_frames(src: SourceView, toks: Seq<Lexeme>, st: Seq<FrameView>)
    requires
        good(st),
    ensures
        array_element::<ConfigElementVisitor>(src, toks, st) matches Step::Matched(rest, s)
            ==> top_changed(st, s) && kept_table(st, s) && rest.len() < toks.len(),
    decreases toks.len(), 4nat,
{
    if let Some(Ok(t)) = head(toks) {
        if t.kind.is_string() || t.kind is Dollar || t.kind is LeftBrace || t.kind
            is LeftBracket {
            let event = Event::StartElement(crate::parser::unnamed());
            lemma_step_start(st, src, event);
            let s = build_step(st, src, event)->Ok_0;
            if t.kind is LeftBrace {
                lemma_table_frames(src, toks, s, false);
                lemma_ended_frames(
                    src,
                    table::<ConfigElementVisitor>(src, toks, s, false),
                    st,
                    s,
                );
                lemma_table_shrinks(src, toks, s, false);
            } else if t.kind is LeftBracket {
                lemma_array_frames(src, toks, s, false);
                lemma_ended_frames(
                    src,
                    array::<ConfigElementVisitor>(src, toks, s, false),
                    st,
                    s,
                );
                lemma_array_shrinks(src, toks, s, false);
            } else {
                let found = first_of(
                    tagged_array::<ConfigElementVisitor>(src, toks, s),
                    first_of(
                        tagged_table::<ConfigElementVisitor>(src, toks, s),
                        string_expr::<ConfigElementVisitor>(src, toks, s, None),
                    ),
                );
                lemma_tagless_frames(src, toks, s);
                lemma_ended_frames(src, found, st, s);
                lemma_tagged_shrinks(src, toks, s);
                lemma_string_expr_shrinks(src, toks, s, None);
            }
        }
    }
}

pub proof fn lemma_table_contents_frames(src: SourceView, toks: Seq<Lexeme>, st: Seq<FrameView>)
    requires
        good(st),
    ensures
        table_contents::<ConfigElementVisitor>(src, toks, st) matches Ok((rest, s)) ==> top_changed(
            st,
            s,
        ) && kept_table(st, s) && rest.len() <= toks.len(),
    decreases toks.len(), 5nat,
{
    lemma_table_element_frames(src, toks, st);
    if let Step::Matched(rest, s) = table_element::<ConfigElementVisitor>(src, toks, st) {
        if let Some(Ok(t)) = head(rest) {
            let rest2 = if t.kind is Comma {
                rest.drop_first()
            } else {
                rest
            };
            lemma_table_contents_frames(src, rest2, s);
        }
    }
}

pub proof fn lemma_array_contents_frames(src: SourceView, toks: Seq<Lexeme>, st: Seq<FrameView>)
    requires
        good(st),
    ensures
        array_contents::<ConfigElementVisitor>(src, toks, st) matches Ok((rest, s)) ==> top_changed(
            st,
            s,
        ) && kept_table(st, s) && rest.len() <= toks.len(),
    decreases toks.len(), 5nat,
{
    lemma_array_element_frames(src, toks, st);
    if let Step::Matched(rest, s) = array_element::<ConfigElementVisitor>(src, toks, st) {
        if let Some(Ok(t)) = head(rest) {
            let rest2 = if t.kind is Comma {
                rest.drop_first()
            } else {
                rest
            };
            lemma_array_contents_frames(src, rest2, s);
        }
    }
}

/// A string expression that matches has read something.
pub proof fn lemma_string_expr_shrinks(
    src: SourceView,
    toks: Seq<Lexeme>,
    st: Seq<FrameView>,
    last: Option<Span>,
)
    ensures
        string_expr::<ConfigElementVisitor>(src, toks, st, last) matches Step::Matched(rest, _)
            ==> rest.len() < toks.len(),
    decreases toks.len(),
{
    if let Some(Ok(t)) = head(toks) {
        if t.kind.is_string() {
            if let Ok(s) = build_step(st, src, Event::AppendString(string_of_token(t))) {
                let rest = toks.drop_first();
                if let Some(Ok(tilde)) = head(rest) {
                    if tilde.kind is Tilde {
                        lemma_string_expr_shrinks(src, rest.drop_first(), s, Some(tilde.span));
                    }
                }
            }
        } else if t.kind is Dollar {
            if let Some(Ok(name)) = head(toks.drop_first()) {
                if name.kind.is_string() {
                    if let Ok(s) = build_step(st, src, Event::Expand(string_of_token(name))) {
                        let rest = toks.skip(2);
                        if let Some(Ok(tilde)) = head(rest) {
                            if tilde.kind is Tilde {
                                lemma_string_expr_shrinks(
                                    src,
                                    rest.drop_first(),
                                    s,
                                    Some(tilde.span),
                                );
                            }
                        }
                    }
                }
            }
        }
    }
}

/// A table that matches has read something.
pub proof fn lemma_table_shrinks(
    src: SourceView,
    toks: Seq<Lexeme>,
    st: Seq<FrameView>,
    is_tagged: bool,
)
    requires
        good(st),
    ensures
        table::<ConfigElementVisitor>(src, toks, st, is_tagged) matches Step::Matched(rest, _)
            ==> rest.len() < toks.len(),
    decreases toks.len(), 0nat,
{
    if let Some(Ok(t)) = head(toks) {
        if t.kind is LeftBrace {
            let event = Event::SetTable(t.span);
            lemma_step_top(st, src, event);
            let told = if is_tagged {
                Ok(st)
            } else {
                build_step(st, src, event)
            };
            if let Ok(s) = told {
                lemma_table_contents_frames(src, toks.drop_first(), s);
            }
        }
    }
}

/// An array that matches has read something.
pub proof fn lemma_array_shrinks(
    src: SourceView,
    toks: Seq<Lexeme>,
    st: Seq<FrameView>,
    is_tagged: bool,
)
    requires
        good(st),
    ensures
        array::<ConfigElementVisitor>(src, toks, st, is_tagged) matches Step::Matched(rest, _)
            ==> rest.len() < toks.len(),
    decreases toks.len(), 0nat,
{
    if let Some(Ok(t)) = head(toks) {
        if t.kind is LeftBracket {
            let event = Event::SetArray(t.span);
            lemma_step_top(st, src, event);
            let told = if is_tagged {
                Ok(st)
            } else {
                build_step(st, src, event)
            };
            if let Ok(s) = told {
                lemma_array_contents_frames(src, toks.drop_first(), s);
            }
        }
    }
}

/// A tagged table or array that matches has read something.
pub proof fn lemma_tagged_shrinks(src: SourceView, toks: Seq<Lexeme>, st: Seq<FrameView>)
    requires
        good(st),
    ensures
        tagged_table::<ConfigElementVisitor>(src, toks, st) matches Step::Matched(rest, _)
            ==> rest.len() < toks.len(),
        tagged_array::<ConfigElementVisitor>(src, toks, st) matches Step::Matched(rest, _)
            ==> rest.len() < toks.len(),
    decreases toks.len(), 1nat,
{
    if let Some(Ok(tag)) = head(toks) {
        if tag.kind.is_string() {
            if let Some(Ok(next)) = head(toks.drop_first()) {
                if next.kind is LeftBrace {
                    let event = Event::SetTaggedTable(tag.span, string_of_token(tag));
                    lemma_step_top(st, src, event);
                    if let Ok(s) = build_step(st, src, event) {
                        lemma_table_shrinks(src, toks.drop_first(), s, true);
                    }
                }
                if next.kind is LeftBracket {
                    let event = Event::SetTaggedArray(tag.span, string_of_token(tag));
                    lemma_step_top(st, src, event);
                    if let Ok(s) = build_step(st, src, event) {
                        lemma_array_shrinks(src, toks.drop_first(), s, true);
                    }
                }
            }
        }
    }
}

/// What stands behind `=` has read something where it matches.
pub proof fn lemma_rhs_shrinks(src: SourceView, assign: Span, toks: Seq<Lexeme>, st: Seq<FrameView>)
    requires
        good(st),
    ensures
        rhs::<ConfigElementVisitor>(src, assign, toks, st) matches Step::Matched(rest, _)
            ==> rest.len() < toks.len(),
    decreases toks.len(), 3nat,
{
    lemma_array_shrinks(src, toks, st, false);
    lemma_tagged_shrinks(src, toks, st);
    lemma_string_expr_shrinks(src, toks, st, None);
}

/// A document that parses into a plain table is a plain table.
pub proof fn lemma_document_is_plain(src: SourceView, toks: Seq<Lexeme>, root: ElementView)
    requires
        plain(root),
        root.kind.entries() is Some,
    ensures
        document::<ConfigElementVisitor>(src, toks, root_stack(root)) matches Ok(s) ==> s.len()
            == 1 && plain(s.first().elem) && s.first().elem.kind.entries() is Some,
{
    let st = root_stack(root);
    assert(good(st));
    lemma_table_contents_frames(src, toks, st);
}

} // verus!
