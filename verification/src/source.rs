//! The source text and the places in it.

use vstd::prelude::*;
use crate::text::{string_of, to_chars};
use vstd::utf8::{encode_scalar, encode_utf8};

verus! {

broadcast use {vstd::slice::group_slice_axioms, vstd::utf8::char_is_scalar};

/// The number of bytes that the UTF-8 encoding of `c` takes.
pub open spec fn utf8_width(c: char) -> nat {
    if c as u32 <= 0x7F {
        1
    } else if c as u32 <= 0x7FF {
        2
    } else if c as u32 <= 0xFFFF {
        3
    } else {
        4
    }
}

/// The byte offset of the character at index `i`: the number of bytes that the
/// first `i` characters of `text` take in UTF-8.
pub open spec fn byte_offset(text: Seq<char>, i: int) -> nat
    decreases i,
{
    if i <= 0 || i > text.len() {
        0
    } else {
        byte_offset(text, i - 1) + utf8_width(text[i - 1])
    }
}

/// The index of the character in which byte `pos` lies, looking at the first
/// `k` characters only: the greatest index `i <= k` whose byte offset is at
/// most `pos`.
pub open spec fn index_below(text: Seq<char>, pos: int, k: int) -> int
    decreases k,
{
    if k <= 0 {
        0
    } else if byte_offset(text, k) <= pos {
        k
    } else {
        index_below(text, pos, k - 1)
    }
}

/// The index of the character in which byte `pos` lies; the length of the text
/// where `pos` is at or beyond its end.
pub open spec fn index_at(text: Seq<char>, pos: int) -> int {
    index_below(text, pos, text.len() as int)
}

/// The index at which the line that holds index `i` starts.
pub open spec fn line_start(text: Seq<char>, i: int) -> int
    decreases i,
{
    if i <= 0 || i > text.len() {
        0
    } else if text[i - 1] == '\n' {
        i
    } else {
        line_start(text, i - 1)
    }
}

/// The index at which the line that holds index `i` ends: that of its newline,
/// or the length of the text.
pub open spec fn line_end(text: Seq<char>, i: int) -> int
    decreases text.len() - i,
{
    if i < 0 || i >= text.len() {
        text.len() as int
    } else if text[i] == '\n' {
        i
    } else {
        line_end(text, i + 1)
    }
}

/// The number of the line that holds index `i`, counted from zero: the number
/// of newlines before `i`.
pub open spec fn line_number(text: Seq<char>, i: int) -> nat
    decreases i,
{
    if i <= 0 || i > text.len() {
        0
    } else if text[i - 1] == '\n' {
        line_number(text, i - 1) + 1
    } else {
        line_number(text, i - 1)
    }
}

/// The line in which byte `pos` lies, counted from zero.
pub open spec fn line_of(text: Seq<char>, pos: int) -> nat {
    line_number(text, index_at(text, pos))
}

/// The column of byte `pos`: its distance in bytes from the start of its line.
pub open spec fn column_of(text: Seq<char>, pos: int) -> int {
    pos - byte_offset(text, line_start(text, index_at(text, pos)))
}

pub proof fn lemma_byte_offset_step(text: Seq<char>, i: int)
    requires
        0 <= i < text.len(),
    ensures
        byte_offset(text, i + 1) == byte_offset(text, i) + utf8_width(text[i]),
        byte_offset(text, i) < byte_offset(text, i + 1),
{
}

pub proof fn lemma_byte_offset_monotonic(text: Seq<char>, i: int, j: int)
    requires
        0 <= i <= j <= text.len(),
    ensures
        byte_offset(text, i) <= byte_offset(text, j),
        j - i <= byte_offset(text, j) - byte_offset(text, i),
    decreases j - i,
{
    if i < j {
        lemma_byte_offset_monotonic(text, i, j - 1);
    }
}

proof fn lemma_encode_push(s: Seq<char>, c: char)
    ensures
        encode_utf8(s.push(c)).len() == encode_utf8(s).len() + utf8_width(c),
    decreases s.len(),
{
    if s.len() == 0 {
        assert(s.push(c).drop_first() == Seq::<char>::empty());
        assert(encode_utf8(Seq::<char>::empty()).len() == 0);
        assert(encode_scalar(c as u32).len() == utf8_width(c));
    } else {
        assert(s.push(c).drop_first() == s.drop_first().push(c));
        assert(s.push(c)[0] == s[0]);
        lemma_encode_push(s.drop_first(), c);
    }
}

proof fn lemma_byte_offset_is_encoded_len(text: Seq<char>, i: int)
    requires
        0 <= i <= text.len(),
    ensures
        byte_offset(text, i) == encode_utf8(text.take(i)).len(),
    decreases i,
{
    if i == 0 {
        assert(text.take(0) == Seq::<char>::empty());
    } else {
        lemma_byte_offset_is_encoded_len(text, i - 1);
        assert(text.take(i) == text.take(i - 1).push(text[i - 1]));
        lemma_encode_push(text.take(i - 1), text[i - 1]);
    }
}

pub proof fn lemma_index_below(text: Seq<char>, pos: int, k: int)
    requires
        0 <= k <= text.len(),
        0 <= pos,
    ensures
        0 <= index_below(text, pos, k) <= k,
        byte_offset(text, index_below(text, pos, k)) <= pos,
        forall|j: int| index_below(text, pos, k) < j <= k ==> byte_offset(text, j) > pos,
    decreases k,
{
    if k > 0 && byte_offset(text, k) > pos {
        lemma_index_below(text, pos, k - 1);
    }
}

/// The index at which the line with the number `line` starts, counted from
/// the line that starts at index `from`; the length of the text where it has
/// no such line.
pub open spec fn line_start_after(text: Seq<char>, line: nat, from: int) -> int
    decreases line,
{
    if line == 0 {
        from
    } else if line_end(text, from) >= text.len() {
        text.len() as int
    } else {
        line_start_after(text, (line - 1) as nat, line_end(text, from) + 1)
    }
}

/// The index at which the line with the number `line` starts, counted from
/// zero.
pub open spec fn nth_line_start(text: Seq<char>, line: nat) -> int {
    line_start_after(text, line, 0)
}

/// The characters of the line with the number `line`, without its newline.
pub open spec fn nth_line(text: Seq<char>, line: nat) -> Seq<char> {
    text.subrange(nth_line_start(text, line), line_end(text, nth_line_start(text, line)))
}

/// The model of a `Source`: the name it goes by and its characters.
pub struct SourceView {
    pub filename: Seq<char>,
    pub text: Seq<char>,
}

/// A source text: its characters, and the name under which errors report it.
/// The places of its newlines are kept, so that the line of a place is found
/// by bisection.
pub struct Source {
    filename: String,
    text: Vec<char>,
    /// The number of bytes of the text.
    bytes: usize,
    /// The indices of the newlines in order, and their byte offsets.
    newlines: Vec<usize>,
    newline_offsets: Vec<usize>,
}

impl View for Source {
    type V = SourceView;

    closed spec fn view(&self) -> SourceView {
        SourceView { filename: self.filename@, text: self.text@ }
    }
}

/// Where a byte of a source lies.
pub struct Place {
    /// The index of the character that holds the byte, and its byte offset.
    pub index: usize,
    pub offset: usize,
    /// The number of the line, counted from zero.
    pub line: usize,
    /// The index at which the line starts, and the byte offset of that.
    pub line_start: usize,
    pub line_start_offset: usize,
    /// The index at which the line ends, and the byte offset of that.
    pub line_end: usize,
    pub line_end_offset: usize,
}

/// The number of bytes that the UTF-8 encoding of `c` takes.
pub fn char_width(c: char) -> (r: usize)
    ensures
        r == utf8_width(c),
        1 <= r <= 4,
{
    let n: u32 = c as u32;
    if n <= 0x7F {
        1
    } else if n <= 0x7FF {
        2
    } else if n <= 0xFFFF {
        3
    } else {
        4
    }
}

/// `newlines` lists the indices below `upto` at which `text` holds a newline,
/// in order, and `offsets` their byte offsets.
pub open spec fn lists_newlines(
    text: Seq<char>,
    newlines: Seq<usize>,
    offsets: Seq<usize>,
    upto: int,
) -> bool {
    &&& newlines.len() == offsets.len()
    &&& forall|k: int|
        0 <= k < newlines.len() ==> (#[trigger] newlines[k]) < upto && newlines[k] < text.len()
            && text[newlines[k] as int] == '\n' && offsets[k] == byte_offset(
            text,
            newlines[k] as int,
        )
    &&& forall|j: int, k: int|
        0 <= j < k < newlines.len() ==> (#[trigger] newlines[j]) < (#[trigger] newlines[k])
    &&& forall|i: int|
        0 <= i < upto && i < text.len() && #[trigger] text[i] == '\n' ==> exists|k: int|
            0 <= k < newlines.len() && #[trigger] newlines[k] == i
}

/// The number of a line is the number of the newlines before it.
proof fn lemma_line_number(
    text: Seq<char>,
    newlines: Seq<usize>,
    offsets: Seq<usize>,
    i: int,
    m: int,
)
    requires
        lists_newlines(text, newlines, offsets, text.len() as int),
        0 <= i <= text.len(),
        0 <= m <= newlines.len(),
        forall|k: int| 0 <= k < m ==> (#[trigger] newlines[k]) < i,
        forall|k: int| m <= k < newlines.len() ==> (#[trigger] newlines[k]) >= i,
    ensures
        line_number(text, i) == m,
    decreases i,
{
    if i == 0 {
        if m > 0 {
            assert(newlines[0] < 0);
        }
    } else if text[i - 1] == '\n' {
        let k0 = choose|k: int| 0 <= k < newlines.len() && #[trigger] newlines[k] == i - 1;
        assert(k0 < m);
        assert(k0 == m - 1) by {
            if k0 < m - 1 {
                assert(newlines[k0] < newlines[m - 1]);
            }
        }
        assert forall|k: int| 0 <= k < m - 1 implies (#[trigger] newlines[k]) < i - 1 by {
            assert(newlines[k] < newlines[m - 1]);
        }
        lemma_line_number(text, newlines, offsets, i - 1, m - 1);
    } else {
        assert forall|k: int| 0 <= k < m implies (#[trigger] newlines[k]) < i - 1 by {
            assert(text[newlines[k] as int] == '\n');
        }
        lemma_line_number(text, newlines, offsets, i - 1, m);
    }
}

/// A line starts behind the last newline before a place in it.
proof fn lemma_line_start(text: Seq<char>, start: int, i: int)
    requires
        0 <= start <= i <= text.len(),
        start == 0 || text[start - 1] == '\n',
        forall|j: int| start <= j < i ==> text[j] != '\n',
    ensures
        line_start(text, i) == start,
    decreases i - start,
{
    if start < i {
        lemma_line_start(text, start, i - 1);
    }
}

/// A line ends at the first newline from a place in it on.
proof fn lemma_line_end(text: Seq<char>, i: int, end: int)
    requires
        0 <= i <= end <= text.len(),
        end == text.len() || text[end] == '\n',
        forall|j: int| i <= j < end ==> text[j] != '\n',
    ensures
        line_end(text, i) == end,
    decreases end - i,
{
    if i < end {
        lemma_line_end(text, i + 1, end);
    }
}

/// The line with the number `line` starts behind the newline with the number
/// `line - 1`.
proof fn lemma_nth_line_start(
    text: Seq<char>,
    newlines: Seq<usize>,
    offsets: Seq<usize>,
    first: int,
    line: nat,
)
    requires
        lists_newlines(text, newlines, offsets, text.len() as int),
        0 <= first,
        first + line <= newlines.len(),
    ensures
        line_start_after(
            text,
            line,
            if first == 0 {
                0
            } else {
                newlines[first - 1] + 1
            },
        ) == (if first + line == 0 {
            0
        } else {
            newlines[first + line - 1] + 1
        }),
    decreases line,
{
    if line > 0 {
        let from: int = if first == 0 {
            0
        } else {
            newlines[first - 1] + 1
        };
        lemma_line_bounds(text, newlines, offsets, first);
        lemma_nth_line_start(text, newlines, offsets, first + 1, (line - 1) as nat);
    }
}

/// The line with the number `line` runs from behind the newline before it up
/// to its own newline, or to the end of the text.
proof fn lemma_line_bounds(text: Seq<char>, newlines: Seq<usize>, offsets: Seq<usize>, line: int)
    requires
        lists_newlines(text, newlines, offsets, text.len() as int),
        0 <= line <= newlines.len(),
    ensures
        ({
            let start: int = if line == 0 {
                0
            } else {
                newlines[line - 1] + 1
            };
            let end: int = if line < newlines.len() {
                newlines[line] as int
            } else {
                text.len() as int
            };
            &&& 0 <= start <= end <= text.len()
            &&& line_end(text, start) == end
            &&& forall|j: int| start <= j < end ==> text[j] != '\n'
        }),
{
    let start: int = if line == 0 {
        0
    } else {
        newlines[line - 1] + 1
    };
    let end: int = if line < newlines.len() {
        newlines[line] as int
    } else {
        text.len() as int
    };
    if 0 < line < newlines.len() {
        assert(newlines[line - 1] < newlines[line]);
    }
    assert forall|j: int| start <= j < end implies text[j] != '\n' by {
        if text[j] == '\n' {
            let k = choose|k: int| 0 <= k < newlines.len() && #[trigger] newlines[k] == j;
            if k < line {
                if k < line - 1 {
                    assert(newlines[k] < newlines[line - 1]);
                }
            } else if k > line {
                assert(newlines[line] < newlines[k]);
            }
        }
    }
    lemma_line_end(text, start, end);
}

/// The number of the numbers in the sorted `v` that are less than `x`.
fn count_below(v: &Vec<usize>, x: usize) -> (m: usize)
    requires
        forall|j: int, k: int| 0 <= j < k < v@.len() ==> (#[trigger] v@[j]) < (#[trigger] v@[k]),
    ensures
        m <= v@.len(),
        forall|k: int| 0 <= k < m ==> (#[trigger] v@[k]) < x,
        forall|k: int| m <= k < v@.len() ==> (#[trigger] v@[k]) >= x,
{
    let mut lo: usize = 0;
    let mut hi: usize = v.len();
    while lo < hi
        invariant
            lo <= hi <= v@.len(),
            forall|j: int, k: int|
                0 <= j < k < v@.len() ==> (#[trigger] v@[j]) < (#[trigger] v@[k]),
            forall|k: int| 0 <= k < lo ==> (#[trigger] v@[k]) < x,
            forall|k: int| hi <= k < v@.len() ==> (#[trigger] v@[k]) >= x,
        decreases hi - lo,
    {
        let mid: usize = lo + (hi - lo) / 2;
        if v[mid] < x {
            assert forall|k: int| 0 <= k < mid + 1 implies (#[trigger] v@[k]) < x by {
                if k < mid {
                    assert(v@[k] < v@[mid as int]);
                }
            }
            lo = mid + 1;
        } else {
            assert forall|k: int| mid <= k < v@.len() implies (#[trigger] v@[k]) >= x by {
                if k > mid {
                    assert(v@[mid as int] < v@[k]);
                }
            }
            hi = mid;
        }
    }
    lo
}

impl Source {
    /// The whole text fits into an address space, as the text of any string
    /// does, and the newlines are listed.
    #[verifier::type_invariant]
    spec fn listed(&self) -> bool {
        &&& self.bytes == byte_offset(self.text@, self.text@.len() as int)
        &&& lists_newlines(
            self.text@,
            self.newlines@,
            self.newline_offsets@,
            self.text@.len() as int,
        )
    }

    pub fn new(filename: &str, source: &str) -> (r: Source)
        ensures
            r@.filename == filename@,
            r@.text == source@,
    {
        let text = to_chars(source);
        let bytes: usize = source.as_bytes().len();
        let ghost s = text@;
        proof {
            lemma_byte_offset_is_encoded_len(s, s.len() as int);
            assert(s.take(s.len() as int) == s);
        }
        let mut newlines: Vec<usize> = Vec::new();
        let mut newline_offsets: Vec<usize> = Vec::new();
        let mut i: usize = 0;
        let mut off: usize = 0;
        while i < text.len()
            invariant
                i <= text@.len(),
                s == text@,
                bytes == byte_offset(s, s.len() as int),
                off == byte_offset(s, i as int),
                lists_newlines(s, newlines@, newline_offsets@, i as int),
            decreases text@.len() - i,
        {
            let c = text[i];
            let w: usize = char_width(c);
            proof {
                lemma_byte_offset_step(s, i as int);
                lemma_byte_offset_monotonic(s, i + 1, s.len() as int);
            }
            let ghost before = newlines@;
            if c == '\n' {
                newlines.push(i);
                newline_offsets.push(off);
                proof {
                    assert forall|j: int, k: int| 0 <= j < k < newlines@.len() implies (
                    #[trigger] newlines@[j]) < (#[trigger] newlines@[k]) by {
                        if k == before.len() {
                            assert(before[j] < i);
                        } else {
                            assert(before[j] < before[k]);
                        }
                    }
                    assert forall|x: int|
                        0 <= x < i + 1 && x < s.len() && #[trigger] s[x] == '\n' implies exists|
                        k: int,
                    |
                        0 <= k < newlines@.len() && #[trigger] newlines@[k] == x by {
                        if x < i {
                            let k = choose|k: int| 0 <= k < before.len() && #[trigger] before[k] == x;
                            assert(newlines@[k] == x);
                        } else {
                            assert(newlines@[before.len() as int] == x);
                        }
                    }
                }
            } else {
                proof {
                    assert forall|x: int|
                        0 <= x < i + 1 && x < s.len() && #[trigger] s[x] == '\n' implies exists|
                        k: int,
                    |
                        0 <= k < newlines@.len() && #[trigger] newlines@[k] == x by {
                        let k = choose|k: int| 0 <= k < before.len() && #[trigger] before[k] == x;
                        assert(newlines@[k] == x);
                    }
                }
            }
            off = off + w;
            i = i + 1;
        }
        Source { filename: filename.to_owned(), text, bytes, newlines, newline_offsets }
    }

    /// Establishes that every offset into the text is a `usize`.
    pub fn offsets_fit(&self)
        ensures
            forall|i: int|
                0 <= i <= self@.text.len() ==> #[trigger] byte_offset(self@.text, i) <= usize::MAX,
    {
        proof {
            use_type_invariant(self);
            assert forall|i: int| 0 <= i <= self@.text.len() implies #[trigger] byte_offset(
                self@.text,
                i,
            ) <= usize::MAX by {
                lemma_byte_offset_monotonic(self@.text, i, self@.text.len() as int);
            }
        }
    }

    /// The number of characters.
    pub fn len(&self) -> (r: usize)
        ensures
            r == self@.text.len(),
    {
        self.text.len()
    }

    /// The character at index `i`, if the text is that long.
    pub fn get(&self, i: usize) -> (r: Option<char>)
        ensures
            r == if i < self@.text.len() {
                Some(self@.text[i as int])
            } else {
                None::<char>
            },
    {
        if i < self.text.len() {
            Some(self.text[i])
        } else {
            None
        }
    }

    pub fn filename(&self) -> (r: &str)
        ensures
            r@ == self@.filename,
    {
        self.filename.as_str()
    }

    /// The characters of the text.
    pub fn chars(&self) -> (r: &Vec<char>)
        ensures
            r@ == self@.text,
    {
        &self.text
    }

    /// The number of newlines in the text: one less than the number of its
    /// lines.
    pub fn newline_count(&self) -> (r: usize)
        ensures
            r == line_number(self@.text, self@.text.len() as int),
    {
        proof {
            use_type_invariant(self);
            lemma_line_number(
                self.text@,
                self.newlines@,
                self.newline_offsets@,
                self.text@.len() as int,
                self.newlines@.len() as int,
            );
        }
        self.newlines.len()
    }

    /// Where byte `pos` lies: the character that holds it and the line
    /// around that character. The line is found by bisection.
    pub fn locate(&self, pos: usize) -> (r: Place)
        ensures
            r.index == index_at(self@.text, pos as int),
            r.offset == byte_offset(self@.text, r.index as int),
            r.line == line_of(self@.text, pos as int),
            r.line_start == line_start(self@.text, r.index as int),
            r.line_start_offset == byte_offset(self@.text, r.line_start as int),
            r.line_end == line_end(self@.text, r.index as int),
            r.line_end_offset == byte_offset(self@.text, r.line_end as int),
            r.line_start <= r.index <= r.line_end <= self@.text.len(),
            r.line_start_offset <= r.offset <= pos,
    {
        let ghost s = self.text@;
        let ghost nl = self.newlines@;
        let ghost offs = self.newline_offsets@;
        let n: usize = self.text.len();
        proof {
            use_type_invariant(self);
            assert forall|j: int, k: int| 0 <= j < k < offs.len() implies (#[trigger] offs[j]) < (
            #[trigger] offs[k]) by {
                assert(nl[j] < nl[k]);
                lemma_byte_offset_monotonic(s, nl[j] as int, nl[k] as int);
            }
        }
        self.offsets_fit();
        assert(s == self@.text);
        let line: usize = count_below(&self.newline_offsets, pos);
        let start: usize = if line == 0 {
            0
        } else {
            self.newlines[line - 1] + 1
        };
        let start_off: usize = if line == 0 {
            0
        } else {
            proof {
                lemma_byte_offset_step(s, nl[line - 1] as int);
            }
            self.newline_offsets[line - 1] + 1
        };
        let end: usize = if line < self.newlines.len() {
            self.newlines[line]
        } else {
            n
        };
        let end_off: usize = if line < self.newlines.len() {
            self.newline_offsets[line]
        } else {
            self.bytes
        };
        proof {
            lemma_line_bounds(s, nl, offs, line as int);
        }
        // The character within the line.
        let mut i: usize = start;
        let mut off: usize = start_off;
        while i < end
            invariant_except_break
                i <= end,
            invariant
                n == s.len(),
                s == self.text@,
                start <= i <= end <= n,
                off == byte_offset(s, i as int),
                start_off <= off <= pos,
                forall|k: int| 0 <= k <= s.len() ==> #[trigger] byte_offset(s, k) <= usize::MAX,
            ensures
                i < end ==> byte_offset(s, i + 1) > pos,
            decreases end - i,
        {
            let w: usize = char_width(self.text[i]);
            proof {
                assert(byte_offset(s, i + 1) <= usize::MAX);
                lemma_byte_offset_step(s, i as int);
            }
            if off + w > pos {
                break;
            }
            off = off + w;
            i = i + 1;
        }
        proof {
            // The index is the greatest whose offset is at most `pos`.
            lemma_index_below(s, pos as int, n as int);
            let r = index_at(s, pos as int);
            if i == end && end < n {
                assert(offs[line as int] >= pos);
                lemma_byte_offset_step(s, end as int);
            }
            if r > i {
                lemma_byte_offset_monotonic(s, i + 1, r);
            }
            if r < i {
                assert(byte_offset(s, i as int) > pos);
            }
            // No newline stands between the start of the line and the index.
            lemma_line_start(s, start as int, i as int);
            lemma_line_end(s, i as int, end as int);
            assert forall|k: int| 0 <= k < line implies (#[trigger] nl[k]) < i by {
                if k < line - 1 {
                    assert(nl[k] < nl[line - 1]);
                }
            }
            assert forall|k: int| line <= k < nl.len() implies (#[trigger] nl[k]) >= i by {
                if k > line {
                    assert(nl[line as int] < nl[k]);
                }
            }
            lemma_line_number(s, nl, offs, i as int, line as int);
        }
        Place {
            index: i,
            offset: off,
            line,
            line_start: start,
            line_start_offset: start_off,
            line_end: end,
            line_end_offset: end_off,
        }
    }

    /// The line in which byte `pos` lies, counted from zero, and the column of
    /// `pos` in it, in bytes.
    pub fn get_line_col_from_pos(&self, pos: usize) -> (r: (usize, usize))
        ensures
            r.0 == line_of(self@.text, pos as int),
            r.1 == column_of(self@.text, pos as int),
    {
        let place = self.locate(pos);
        (place.line, pos - place.line_start_offset)
    }

    /// The index of the character in which byte `pos` lies.
    pub fn index_of(&self, pos: usize) -> (r: usize)
        ensures
            r == index_at(self@.text, pos as int),
            r <= self@.text.len(),
    {
        self.locate(pos).index
    }

    /// The indices at which the line with the number `line` starts and ends.
    /// The text must have such a line.
    pub fn get_line_start_end(&self, line: usize) -> (r: (usize, usize))
        requires
            line <= line_number(self@.text, self@.text.len() as int),
        ensures
            r.0 == nth_line_start(self@.text, line as nat),
            r.1 == line_end(self@.text, r.0 as int),
            r.0 <= r.1 <= self@.text.len(),
    {
        let ghost s = self.text@;
        let n: usize = self.text.len();
        let count: usize = self.newline_count();
        proof {
            use_type_invariant(self);
            lemma_line_number(
                s,
                self.newlines@,
                self.newline_offsets@,
                s.len() as int,
                self.newlines@.len() as int,
            );
            lemma_nth_line_start(s, self.newlines@, self.newline_offsets@, 0, line as nat);
            lemma_line_bounds(s, self.newlines@, self.newline_offsets@, line as int);
            if line > 0 {
                assert(self.newlines@[line - 1] < s.len());
            }
        }
        let start: usize = if line == 0 {
            0
        } else {
            self.newlines[line - 1] + 1
        };
        let end: usize = if line < count {
            self.newlines[line]
        } else {
            n
        };
        (start, end)
    }

    /// The line with the number `line`, without its newline. The text must
    /// have such a line.
    pub fn get_line(&self, line: usize) -> (r: String)
        requires
            line <= line_number(self@.text, self@.text.len() as int),
        ensures
            r@ == nth_line(self@.text, line as nat),
    {
        let (start, end) = self.get_line_start_end(line);
        string_of(&self.text, start, end)
    }
}

} // verus!
