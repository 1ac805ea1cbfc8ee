//! Source ranges.

use vstd::prelude::*;

verus! {

/// A range of the source text: the byte offset of its first byte and its length
/// in bytes. The value with `start == usize::MAX` stands for "no range".
#[derive(Debug, Clone, Copy, PartialEq, Eq, Structural)]
pub struct Span {
    pub start: usize,
    pub len: usize,
}

impl Span {
    /// The span that covers nothing and belongs to no source.
    pub open spec fn invalid() -> Span {
        Span { start: usize::MAX, len: 0 }
    }

    /// Whether the span names a range at all.
    pub open spec fn valid(self) -> bool {
        self.start != usize::MAX
    }

    /// The offset one past the last byte, capped at the largest offset.
    pub open spec fn end(self) -> int {
        if self.start + self.len <= usize::MAX {
            self.start + self.len
        } else {
            usize::MAX as int
        }
    }

    /// The smallest span that covers both; an invalid span contributes nothing.
    pub open spec fn union(self, other: Span) -> Span {
        if !self.valid() {
            other
        } else if !other.valid() {
            self
        } else {
            let start = if self.start <= other.start {
                self.start
            } else {
                other.start
            };
            let end = if self.end() >= other.end() {
                self.end()
            } else {
                other.end()
            };
            Span { start, len: (end - start) as usize }
        }
    }

    /// The span that runs from byte `from` up to, not including, byte `to`.
    pub open spec fn between(from: int, to: int) -> Span {
        Span { start: from as usize, len: (to - from) as usize }
    }

    pub fn new() -> (r: Span)
        ensures
            r == Span::invalid(),
    {
        Span { start: usize::MAX, len: 0 }
    }

    pub fn is_valid(&self) -> (r: bool)
        ensures
            r == self.valid(),
    {
        self.start != usize::MAX
    }

    fn end_offset(&self) -> (r: usize)
        ensures
            r == self.end(),
    {
        match self.start.checked_add(self.len) {
            Some(e) => e,
            None => usize::MAX,
        }
    }

    /// Widens `self` to the union of both spans.
    pub fn combine(&mut self, other: Span)
        ensures
            *final(self) == old(self).union(other),
    {
        if !self.is_valid() {
            *self = other;
        } else if other.is_valid() {
            let a: usize = self.end_offset();
            let b: usize = other.end_offset();
            let start: usize = if self.start <= other.start {
                self.start
            } else {
                other.start
            };
            let end: usize = if a >= b {
                a
            } else {
                b
            };
            self.start = start;
            self.len = end - start;
        }
    }
}

} // verus!
