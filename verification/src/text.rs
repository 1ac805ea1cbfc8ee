//! Moving between `str`, `String` and sequences of characters.

use vstd::prelude::*;

verus! {

broadcast use vstd::string::group_string_axioms;

/// `String::push` of std: appends one character.
#[verifier::external_body]
pub(crate) fn push_char(dest: &mut String, c: char)
    ensures
        final(dest)@ == old(dest)@.push(c),
{
    dest.push(c)
}

/// `char::from_u32` of std: the character with the given code, where the code
/// is a Unicode scalar value, and nothing for a surrogate or a code beyond
/// `0x10FFFF`.
#[verifier::external_body]
pub(crate) fn char_from_u32(n: u32) -> (r: Option<char>)
    ensures
        r == if n < 0xD800 || (0xE000 <= n && n <= 0x10FFFF) {
            Some(n as char)
        } else {
            None::<char>
        },
{
    char::from_u32(n)
}

/// The characters of a string slice, in order.
pub fn to_chars(s: &str) -> (v: Vec<char>)
    ensures
        v@ == s@,
{
    let mut v: Vec<char> = Vec::new();
    for c in it: s.chars()
        invariant
            v@ == it.seq().take(it.index() as int),
            it.seq() == s@,
    {
        v.push(c);
    }
    v
}

/// Appends the characters `chars[from..to]` to `dest`.
pub fn push_chars(dest: &mut String, chars: &Vec<char>, from: usize, to: usize)
    requires
        from <= to <= chars@.len(),
    ensures
        final(dest)@ == old(dest)@ + chars@.subrange(from as int, to as int),
{
    let mut i: usize = from;
    while i < to
        invariant
            from <= i <= to <= chars@.len(),
            dest@ == old(dest)@ + chars@.subrange(from as int, i as int),
        decreases to - i,
    {
        push_char(dest, chars[i]);
        assert(chars@.subrange(from as int, i + 1) == chars@.subrange(from as int, i as int).push(
            chars@[i as int],
        ));
        i += 1;
    }
}

/// The string made of the characters `chars[from..to]`.
pub fn string_of(chars: &Vec<char>, from: usize, to: usize) -> (s: String)
    requires
        from <= to <= chars@.len(),
    ensures
        s@ == chars@.subrange(from as int, to as int),
{
    let mut s = String::new();
    push_chars(&mut s, chars, from, to);
    s
}

/// Appends `count` copies of `ch` to `dest`.
pub fn grow_str(dest: &mut String, count: usize, ch: char)
    ensures
        final(dest)@ == old(dest)@ + Seq::new(count as nat, |i: int| ch),
{
    let mut i: usize = 0;
    while i < count
        invariant
            i <= count,
            dest@ == old(dest)@ + Seq::new(i as nat, |j: int| ch),
        decreases count - i,
    {
        push_char(dest, ch);
        assert(Seq::new((i + 1) as nat, |j: int| ch) == Seq::new(i as nat, |j: int| ch).push(ch));
        i += 1;
    }
}

} // verus!
