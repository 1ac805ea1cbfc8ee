//! The printer: writes the pieces of a document as text that parses back.

use vstd::prelude::*;
use vstd::string::StringExecFns;
use crate::error::repeat;
use crate::quote::{get_string_quote_type, is_naked, quote_braces, StringQuoteType};
use crate::text::{grow_str, push_char};

verus! {

/// What the printer knows of one open table or array.
#[derive(Debug, Clone, Copy, PartialEq, Eq, Structural)]
pub struct Level {
    /// Whether it is an array.
    pub in_array: bool,
    /// Whether its elements share one line.
    pub one_line: bool,
    /// Whether nothing has been written into it yet.
    pub is_empty: bool,
}

/// The model of a `Printer`.
pub struct PrinterView {
    /// The text written so far.
    pub out: Seq<char>,
    /// The open tables and arrays, outermost first. The first level stands
    /// for the document itself.
    pub levels: Seq<Level>,
    /// Whether the root table has been started.
    pub in_root: bool,
}

/// A string as the printer writes it: as it is where it reads back unquoted,
/// else between quotes and as many braces as `quote_braces` says.
pub open spec fn written(s: Seq<char>) -> Seq<char> {
    if is_naked(s) {
        s
    } else {
        repeat('{', quote_braces(s)).push('"') + s.push('"') + repeat('}', quote_braces(s))
    }
}

impl PrinterView {
    /// The printer that has written nothing.
    pub open spec fn fresh() -> PrinterView {
        PrinterView {
            out: Seq::empty(),
            levels: seq![Level { in_array: false, one_line: false, is_empty: true }],
            in_root: false,
        }
    }

    pub open spec fn wf(self) -> bool {
        self.levels.len() >= 1
    }

    /// The innermost open level.
    pub open spec fn top(self) -> Level {
        self.levels.last()
    }

    /// The number of open tables and arrays, the root table not counted.
    pub open spec fn depth(self) -> nat {
        (self.levels.len() - 1) as nat
    }

    pub open spec fn put(self, s: Seq<char>) -> PrinterView {
        PrinterView { out: self.out + s, ..self }
    }

    pub open spec fn put_char(self, c: char) -> PrinterView {
        PrinterView { out: self.out.push(c), ..self }
    }

    pub open spec fn indent(self) -> PrinterView {
        self.put(repeat('\t', self.depth()))
    }

    /// Marks the innermost level as holding something.
    pub open spec fn filled(self) -> PrinterView {
        PrinterView {
            levels: self.levels.update(
                self.levels.len() - 1,
                Level { is_empty: false, ..self.top() },
            ),
            ..self
        }
    }

    pub open spec fn opened(self, in_array: bool, one_line: bool) -> PrinterView {
        PrinterView { levels: self.levels.push(Level { in_array, one_line, is_empty: true }), ..self }
    }

    pub open spec fn closed(self) -> PrinterView {
        PrinterView { levels: self.levels.drop_last(), ..self }
    }

    /// What stands before every element: a comma behind an earlier element
    /// of an array or of a line, then a new indented line, or a space within
    /// a line. The first element of the root table starts the text.
    pub open spec fn start_value(self) -> PrinterView {
        let top = self.top();
        let a = if (top.in_array || top.one_line) && !top.is_empty {
            self.put_char(',')
        } else {
            self
        };
        if !top.one_line {
            let b = if !(self.depth() == 0 && self.in_root && top.is_empty) {
                a.put_char('\n')
            } else {
                a
            };
            b.indent()
        } else if !top.is_empty {
            a.put_char(' ')
        } else {
            a
        }
    }

    pub open spec fn write_string(self, s: Seq<char>) -> PrinterView {
        self.put(written(s))
    }

    /// A value, with its name in a table and without in an array.
    pub open spec fn value(self, name: Option<Seq<char>>, value: Seq<char>) -> PrinterView {
        let a = self.start_value();
        let b = match name {
            Some(n) => a.write_string(n).put(" = "@),
            None => a,
        };
        b.write_string(value).filled()
    }

    /// What stands between a name or tag and the bracket that opens its
    /// contents: a space within a line, else a new indented line.
    pub open spec fn before_bracket(self, one_line: bool) -> PrinterView {
        if one_line {
            self.put_char(' ')
        } else {
            self.put_char('\n').indent()
        }
    }

    /// The start of an array: name, `=`, tag and `[`, as far as there are any.
    pub open spec fn start_array(
        self,
        name: Option<Seq<char>>,
        tag: Option<Seq<char>>,
        one_line: bool,
    ) -> PrinterView {
        let a = self.start_value();
        let b = match (name, tag) {
            (Some(n), Some(t)) => a.write_string(n).put(" = "@).write_string(t).before_bracket(
                one_line,
            ),
            (Some(n), None) => a.write_string(n).put(" ="@).before_bracket(one_line),
            (None, Some(t)) => a.write_string(t).before_bracket(one_line),
            (None, None) => a,
        };
        b.put_char('[').filled().opened(true, one_line)
    }

    /// Whether the innermost level ends on a line of its own.
    pub open spec fn breaks(self) -> bool {
        !self.top().one_line && !self.top().is_empty
    }

    pub open spec fn end_array(self) -> PrinterView {
        let a = if self.breaks() {
            self.put_char('\n')
        } else {
            self
        };
        let b = if self.breaks() {
            a.put(repeat('\t', (self.depth() - 1) as nat))
        } else {
            a
        };
        b.closed().put_char(']')
    }

    /// The start of a table: name, `=` and tag, and `{`, as far as there are
    /// any. The root table starts without a word.
    pub open spec fn start_table(
        self,
        name: Option<Seq<char>>,
        tag: Option<Seq<char>>,
        is_root: bool,
        one_line: bool,
    ) -> PrinterView {
        if is_root {
            PrinterView { in_root: true, ..self }
        } else {
            let a = self.start_value();
            let b = match (name, tag) {
                (Some(n), Some(t)) => a.write_string(n).put(" = "@).write_string(t).before_bracket(
                    one_line,
                ),
                (Some(n), None) => a.write_string(n).before_bracket(one_line),
                (None, Some(t)) => a.write_string(t).before_bracket(one_line),
                (None, None) => a,
            };
            b.put_char('{').filled().opened(false, one_line)
        }
    }

    pub open spec fn end_table(self, is_root: bool) -> PrinterView {
        let a = if self.breaks() {
            self.put_char('\n')
        } else {
            self
        };
        if is_root {
            a
        } else {
            let b = if self.breaks() {
                a.put(repeat('\t', (self.depth() - 1) as nat))
            } else {
                a
            };
            b.closed().put_char('}')
        }
    }
}

/// Writes the pieces of a document into a text.
pub struct Printer {
    out: String,
    /// The innermost open level, and those around it, outermost first.
    top: Level,
    outer: Vec<Level>,
    in_root: bool,
}

impl View for Printer {
    type V = PrinterView;

    closed spec fn view(&self) -> PrinterView {
        PrinterView { out: self.out@, levels: self.outer@.push(self.top), in_root: self.in_root }
    }
}

impl Printer {
    pub fn new() -> (r: Printer)
        ensures
            r@ == PrinterView::fresh(),
    {
        let top = Level { in_array: false, one_line: false, is_empty: true };
        let r = Printer { out: String::new(), top, outer: Vec::new(), in_root: false };
        assert(r@.levels =~= PrinterView::fresh().levels);
        r
    }

    /// The text written so far.
    pub fn into_string(self) -> (r: String)
        ensures
            r@ == self@.out,
    {
        self.out
    }

    /// A level is always open.
    pub proof fn lemma_wf(&self)
        ensures
            self@.wf(),
    {
    }

    fn top(&self) -> (r: Level)
        ensures
            r == self@.top(),
            self@.wf(),
    {
        self.top
    }

    fn depth(&self) -> (r: usize)
        ensures
            r == self@.depth(),
    {
        self.outer.len()
    }

    fn in_array(&self) -> (r: bool)
        ensures
            r == self@.top().in_array,
    {
        self.top().in_array
    }

    fn one_line(&self) -> (r: bool)
        ensures
            r == self@.top().one_line,
    {
        self.top().one_line
    }

    fn is_empty(&self) -> (r: bool)
        ensures
            r == self@.top().is_empty,
    {
        self.top().is_empty
    }

    fn set_empty(&mut self, empty: bool)
        ensures
            final(self)@ == (PrinterView {
                levels: old(self)@.levels.update(
                    old(self)@.levels.len() - 1,
                    Level { is_empty: empty, ..old(self)@.top() },
                ),
                ..old(self)@
            }),
    {
        self.top.is_empty = empty;
        assert(self@.levels =~= old(self)@.levels.update(
            old(self)@.levels.len() - 1,
            Level { is_empty: empty, ..old(self)@.top() },
        ));
    }

    fn put(&mut self, s: &str)
        ensures
            final(self)@ == old(self)@.put(s@),
    {
        self.out.append(s);
    }

    fn put_char(&mut self, c: char)
        ensures
            final(self)@ == old(self)@.put_char(c),
    {
        push_char(&mut self.out, c);
    }

    /// Writes `count` tabs.
    fn write_tabs(&mut self, count: usize)
        ensures
            final(self)@ == old(self)@.put(repeat('\t', count as nat)),
    {
        grow_str(&mut self.out, count, '\t');
    }

    fn write_indent(&mut self)
        ensures
            final(self)@ == old(self)@.indent(),
    {
        let depth: usize = self.depth();
        self.write_tabs(depth);
    }

    fn start_value(&mut self)
        ensures
            final(self)@ == old(self)@.start_value(),
    {
        let top = self.top();
        let depth: usize = self.depth();
        if (top.in_array || top.one_line) && !top.is_empty {
            self.put_char(',');
        }
        if !top.one_line {
            if !(depth == 0 && self.in_root && top.is_empty) {
                self.put_char('\n');
            }
            self.write_indent();
        } else if !top.is_empty {
            self.put_char(' ');
        }
    }

    fn write_string(&mut self, s: &str)
        ensures
            final(self)@ == old(self)@.write_string(s@),
    {
        match get_string_quote_type(s) {
            StringQuoteType::Naked => {
                self.out.append(s);
            },
            StringQuoteType::Quoted(n) => {
                grow_str(&mut self.out, n, '{');
                push_char(&mut self.out, '"');
                self.out.append(s);
                push_char(&mut self.out, '"');
                grow_str(&mut self.out, n, '}');
                assert(self.out@ =~= old(self)@.out + written(s@));
            },
        }
    }

    fn before_bracket(&mut self, one_line: bool)
        ensures
            final(self)@ == old(self)@.before_bracket(one_line),
    {
        if one_line {
            self.put_char(' ');
        } else {
            self.put_char('\n');
            self.write_indent();
        }
    }

    fn open(&mut self, in_array: bool, one_line: bool)
        ensures
            final(self)@ == old(self)@.opened(in_array, one_line),
    {
        self.outer.push(self.top);
        self.top = Level { in_array, one_line, is_empty: true };
    }

    fn close(&mut self)
        requires
            old(self)@.levels.len() > 1,
        ensures
            final(self)@ == old(self)@.closed(),
    {
        match self.outer.pop() {
            Some(level) => {
                self.top = level;
            },
            None => {},
        }
        assert(self@.levels =~= old(self)@.levels.drop_last());
    }

    /// Writes a value: `name = value` in a table, the value alone in an array.
    pub fn value(&mut self, name: Option<&str>, value: &str)
        ensures
            final(self)@ == old(self)@.value(
                match name {
                    Some(n) => Some(n@),
                    None => None,
                },
                value@,
            ),
    {
        self.start_value();
        match name {
            Some(n) => {
                self.write_string(n);
                self.put(" = ");
            },
            None => {},
        }
        self.write_string(value);
        self.set_empty(false);
    }

    fn start_array_impl(&mut self, name: Option<&str>, tag: Option<&str>, one_line: bool)
        ensures
            final(self)@ == old(self)@.start_array(
                match name {
                    Some(n) => Some(n@),
                    None => None,
                },
                match tag {
                    Some(t) => Some(t@),
                    None => None,
                },
                one_line,
            ),
    {
        self.start_value();
        match name {
            Some(n) => {
                self.write_string(n);
                match tag {
                    Some(t) => {
                        self.put(" = ");
                        self.write_string(t);
                    },
                    None => {
                        self.put(" =");
                    },
                }
                self.before_bracket(one_line);
            },
            None => {
                match tag {
                    Some(t) => {
                        self.write_string(t);
                        self.before_bracket(one_line);
                    },
                    None => {},
                }
            },
        }
        self.put_char('[');
        self.set_empty(false);
        self.open(true, one_line);
    }

    /// Starts an array, on one line or with a line for each element.
    pub fn start_array(&mut self, name: Option<&str>, one_line: bool)
        ensures
            final(self)@ == old(self)@.start_array(
                match name {
                    Some(n) => Some(n@),
                    None => None,
                },
                None,
                one_line,
            ),
    {
        self.start_array_impl(name, None, one_line);
    }

    /// Starts an array with a tag.
    pub fn start_tagged_array(&mut self, name: Option<&str>, tag: &str, one_line: bool)
        ensures
            final(self)@ == old(self)@.start_array(
                match name {
                    Some(n) => Some(n@),
                    None => None,
                },
                Some(tag@),
                one_line,
            ),
    {
        self.start_array_impl(name, Some(tag), one_line);
    }

    /// Ends the innermost array.
    pub fn end_array(&mut self)
        requires
            old(self)@.levels.len() > 1,
        ensures
            final(self)@ == old(self)@.end_array(),
    {
        let top = self.top();
        let breaks = !top.one_line && !top.is_empty;
        if breaks {
            self.put_char('\n');
            let depth: usize = self.depth() - 1;
            self.write_tabs(depth);
        }
        self.close();
        self.put_char(']');
    }

    fn start_table_impl(
        &mut self,
        name: Option<&str>,
        tag: Option<&str>,
        is_root: bool,
        one_line: bool,
    )
        ensures
            final(self)@ == old(self)@.start_table(
                match name {
                    Some(n) => Some(n@),
                    None => None,
                },
                match tag {
                    Some(t) => Some(t@),
                    None => None,
                },
                is_root,
                one_line,
            ),
    {
        if is_root {
            self.in_root = true;
            return ;
        }
        self.start_value();
        match name {
            Some(n) => {
                self.write_string(n);
                match tag {
                    Some(t) => {
                        self.put(" = ");
                        self.write_string(t);
                    },
                    None => {},
                }
                self.before_bracket(one_line);
            },
            None => {
                match tag {
                    Some(t) => {
                        self.write_string(t);
                        self.before_bracket(one_line);
                    },
                    None => {},
                }
            },
        }
        self.put_char('{');
        self.set_empty(false);
        self.open(false, one_line);
    }

    /// Starts a table. The root table has neither name nor braces.
    pub fn start_table(&mut self, name: Option<&str>, is_root: bool, one_line: bool)
        ensures
            final(self)@ == old(self)@.start_table(
                match name {
                    Some(n) => Some(n@),
                    None => None,
                },
                None,
                is_root,
                one_line,
            ),
    {
        self.start_table_impl(name, None, is_root, one_line);
    }

    /// Starts a table with a tag.
    pub fn start_tagged_table(&mut self, name: Option<&str>, tag: &str, is_root: bool, one_line: bool)
        ensures
            final(self)@ == old(self)@.start_table(
                match name {
                    Some(n) => Some(n@),
                    None => None,
                },
                Some(tag@),
                is_root,
                one_line,
            ),
    {
        self.start_table_impl(name, Some(tag), is_root, one_line);
    }

    /// Ends the innermost table, or the root table.
    pub fn end_table(&mut self, is_root: bool)
        requires
            is_root || old(self)@.levels.len() > 1,
        ensures
            final(self)@ == old(self)@.end_table(is_root),
    {
        let top = self.top();
        let breaks = !top.one_line && !top.is_empty;
        if breaks {
            self.put_char('\n');
        }
        if is_root {
            return ;
        }
        if breaks {
            let depth: usize = self.depth() - 1;
            self.write_tabs(depth);
        }
        self.close();
        self.put_char('}');
    }
}

} // verus!
