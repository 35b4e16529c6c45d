//! Texts as sequences of characters, and what the standard library is
//! trusted to do with them.

use vstd::prelude::*;
use vstd::std_specs::iter::IteratorSpec;
use vstd::string::*;

verus! {

/// `String::push` of the standard library appends the given character to
/// the end of the string and changes nothing else.
pub assume_specification[ std::string::String::push ](s: &mut std::string::String, c: char)
    ensures
        final(s)@ == old(s)@.push(c),
;

/// `std::char::from_u32` of the standard library turns a number into the
/// character with that code: it returns `None` for a surrogate (`0xD800` to
/// `0xDFFF`) and for a number above `0x10FFFF`, which are no characters.
pub assume_specification[ std::char::from_u32 ](code: u32) -> (res: Option<char>)
    ensures
        res == (if code <= 0xD7FF || (0xE000 <= code && code <= 0x10FFFF) {
            Some(code as char)
        } else {
            None
        }),
;

/// The characters of `input`, in order.
pub fn to_chars(input: &str) -> (chars: Vec<char>)
    ensures
        chars@ == input@,
{
    let mut chars: Vec<char> = Vec::new();
    for c in it: input.chars()
        invariant
            it.seq() == input@,
            chars@ == it.seq().take(it.index()),
    {
        chars.push(c);
    }
    chars
}

/// The text made of `chars[from..to]`.
pub(crate) fn text_of(chars: &[char], from: usize, to: usize) -> (text: String)
    requires
        from <= to <= chars.len(),
    ensures
        text@ == chars@.subrange(from as int, to as int),
{
    let mut text = String::new();
    let mut i: usize = from;
    while i < to
        invariant
            from <= i <= to <= chars.len(),
            text@ == chars@.subrange(from as int, i as int),
        decreases to - i,
    {
        text.push(chars[i]);
        i += 1;
    }
    text
}

/// Appends `chars[from..to]` to `text`.
pub(crate) fn push_range(text: &mut String, chars: &[char], from: usize, to: usize)
    requires
        from <= to <= chars.len(),
    ensures
        final(text)@ == old(text)@ + chars@.subrange(from as int, to as int),
{
    let mut i: usize = from;
    while i < to
        invariant
            from <= i <= to <= chars.len(),
            text@ == old(text)@ + chars@.subrange(from as int, i as int),
        decreases to - i,
    {
        text.push(chars[i]);
        i += 1;
    }
}

/// What is left of `input` after its first `from` characters, where `len`
/// is the number of characters of `input`.
pub(crate) fn rest_of(input: &str, from: usize, len: usize) -> (rest: &str)
    requires
        from <= len == input@.len(),
    ensures
        rest@ == input@.skip(from as int),
{
    input.substring_char(from, len)
}

} // verus!
