//! The seam between the grammar and whoever builds something from a document.

use vstd::prelude::*;
use crate::config_string::{ConfigString, ConfigStringView};
use crate::error::{Error, ErrorView};
use crate::source::{Source, SourceView};
use crate::span::Span;

verus! {

/// What the parser tells a visitor, in the order of the source.
pub enum Event {
    /// An element with this name starts. Elements of an array have the empty
    /// name.
    StartElement(ConfigStringView),
    /// The innermost open element ends.
    EndElement,
    /// The open element is a table.
    SetTable(Span),
    /// The open element is a table with this tag.
    SetTaggedTable(Span, ConfigStringView),
    /// The open element is an array.
    SetArray(Span),
    /// The open element is an array with this tag.
    SetTaggedArray(Span, ConfigStringView),
    /// This string is appended to the open element.
    AppendString(ConfigStringView),
    /// What this name refers to is appended to the open element.
    Expand(ConfigStringView),
}

/// A consumer of the parser's events.
///
/// A visitor is a state machine: `accept` says, for a state and an event,
/// which state follows or with which error the visitor refuses. Each method
/// takes one kind of event and has to act as `accept` says. After a refusal
/// nothing is known of the state but `inv`.
pub trait Visitor {
    /// The model of the visitor's state.
    type State;

    /// The state. A visitor that says nothing of itself has some state or
    /// other.
    open spec fn state(&self) -> Self::State {
        arbitrary()
    }

    /// What the visitor needs to hold between calls.
    open spec fn inv(&self) -> bool {
        true
    }

    /// The state that follows when `event` comes in `state`, or the error
    /// with which the visitor refuses.
    open spec fn accept(state: Self::State, src: SourceView, event: Event) -> Result<
        Self::State,
        ErrorView,
    > {
        arbitrary()
    }

    fn start_element(&mut self, src: &Source, name: ConfigString) -> (r: Result<(), Error>)
        requires
            old(self).inv(),
        ensures
            final(self).inv(),
            went(Self::accept(old(self).state(), src@, Event::StartElement(name@)), final(self).state(), r),
    ;

    /// The end of an element is taken without a look at the source.
    fn end_element(&mut self) -> (r: Result<(), Error>)
        requires
            old(self).inv(),
        ensures
            final(self).inv(),
            forall|src: SourceView|
                went(
                    #[trigger] Self::accept(old(self).state(), src, Event::EndElement),
                    final(self).state(),
                    r,
                ),
    ;

    fn set_table(&mut self, src: &Source, span: Span) -> (r: Result<(), Error>)
        requires
            old(self).inv(),
        ensures
            final(self).inv(),
            went(Self::accept(old(self).state(), src@, Event::SetTable(span)), final(self).state(), r),
    ;

    fn set_tagged_table(&mut self, src: &Source, span: Span, tag: ConfigString) -> (r: Result<
        (),
        Error,
    >)
        requires
            old(self).inv(),
        ensures
            final(self).inv(),
            went(Self::accept(old(self).state(), src@, Event::SetTaggedTable(span, tag@)), final(self).state(), r),
    ;

    fn set_array(&mut self, src: &Source, span: Span) -> (r: Result<(), Error>)
        requires
            old(self).inv(),
        ensures
            final(self).inv(),
            went(Self::accept(old(self).state(), src@, Event::SetArray(span)), final(self).state(), r),
    ;

    fn set_tagged_array(&mut self, src: &Source, span: Span, tag: ConfigString) -> (r: Result<
        (),
        Error,
    >)
        requires
            old(self).inv(),
        ensures
            final(self).inv(),
            went(Self::accept(old(self).state(), src@, Event::SetTaggedArray(span, tag@)), final(self).state(), r),
    ;

    fn append_string(&mut self, src: &Source, string: ConfigString) -> (r: Result<(), Error>)
        requires
            old(self).inv(),
        ensures
            final(self).inv(),
            went(Self::accept(old(self).state(), src@, Event::AppendString(string@)), final(self).state(), r),
    ;

    fn expand(&mut self, src: &Source, name: ConfigString) -> (r: Result<(), Error>)
        requires
            old(self).inv(),
        ensures
            final(self).inv(),
            went(Self::accept(old(self).state(), src@, Event::Expand(name@)), final(self).state(), r),
    ;
}

/// A call went as `expected` says: it returned `Ok` and left the state that
/// `expected` gives, or it returned the error that `expected` gives.
pub open spec fn went<S>(expected: Result<S, ErrorView>, after: S, r: Result<(), Error>) -> bool {
    match expected {
        Ok(s) => r is Ok && after == s,
        Err(e) => r is Err && r->Err_0@ == e,
    }
}

} // verus!
