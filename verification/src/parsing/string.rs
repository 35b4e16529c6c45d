//! The string rule: literals between double quotes, with escapes.

use vstd::prelude::*;
use super::lexical::{
    is_digit, is_digit_char, is_hex, lemma_run_bounds, run, scan, taken, CharClass,
};
use super::text::push_range;

verus! {

/// What the letter behind a backslash stands for, where it stands for one
/// character.
pub open spec fn escape(c: char) -> Option<char> {
    if c == 'n' {
        Some('\n')
    } else if c == 'r' {
        Some('\r')
    } else if c == 't' {
        Some('\t')
    } else if c == 'b' {
        Some('\u{08}')
    } else if c == 'f' {
        Some('\u{0C}')
    } else if c == '\\' || c == '/' || c == '"' {
        Some(c)
    } else {
        None
    }
}

/// What a hexadecimal digit counts for.
pub open spec fn hex_value(c: char) -> nat {
    if is_digit(c) {
        (c as int - '0' as int) as nat
    } else if 'a' <= c && c <= 'f' {
        (c as int - 'a' as int + 10) as nat
    } else {
        (c as int - 'A' as int + 10) as nat
    }
}

/// The number that a sequence of hexadecimal digits spells.
pub open spec fn hexadecimal(digits: Seq<char>) -> nat
    decreases digits.len(),
{
    if digits.len() == 0 {
        0
    } else {
        16 * hexadecimal(digits.drop_last()) + hex_value(digits.last())
    }
}

/// Whether `code` is the code of a character: at most `0x10FFFF` and no
/// surrogate.
pub open spec fn is_scalar(code: nat) -> bool {
    code <= 0xD7FF || (0xE000 <= code && code <= 0x10FFFF)
}

/// The escape `u{..}` behind a backslash: between the braces one to six
/// hexadecimal digits, which spell the code of the character meant.
pub open spec fn unicode_escape(s: Seq<char>) -> Option<(char, Seq<char>)> {
    if s.len() >= 2 && s[0] == 'u' && s[1] == '{' {
        let digits = s.skip(2);
        let n = if run(digits, CharClass::Hex) <= 6 {
            run(digits, CharClass::Hex)
        } else {
            6
        };
        if n >= 1 && n < digits.len() && digits[n as int] == '}' && is_scalar(
            hexadecimal(digits.take(n as int)),
        ) {
            Some((hexadecimal(digits.take(n as int)) as char, digits.skip(n as int + 1)))
        } else {
            None
        }
    } else {
        None
    }
}

/// One piece of the inside of a string literal, with the text it stands for
/// and what follows it. A piece is a run of plain characters, which stands
/// for itself; or a backslash and an escape, which stand for one character;
/// or a backslash and a run of white space, which stand for nothing.
pub open spec fn fragment(s: Seq<char>) -> Option<(Seq<char>, Seq<char>)> {
    let plain = run(s, CharClass::Plain);
    if plain > 0 {
        Some((s.take(plain as int), s.skip(plain as int)))
    } else if s.len() >= 2 && s[0] == '\\' {
        let t = s.skip(1);
        if let Some((c, rest)) = unicode_escape(t) {
            Some((seq![c], rest))
        } else if let Some(c) = escape(t[0]) {
            Some((seq![c], t.skip(1)))
        } else if run(t, CharClass::Space) > 0 {
            Some((Seq::empty(), t.skip(run(t, CharClass::Space) as int)))
        } else {
            None
        }
    } else {
        None
    }
}

/// The inside of a string literal: pieces as long as there are any. The
/// result is the text they stand for together, and what follows the last.
pub open spec fn fragments(s: Seq<char>) -> (Seq<char>, Seq<char>)
    decreases s.len(),
{
    match fragment(s) {
        Some((piece, rest)) => if rest.len() < s.len() {
            let (more, end) = fragments(rest);
            (piece + more, end)
        } else {
            (Seq::empty(), s)
        },
        None => (Seq::empty(), s),
    }
}

/// The string rule: a double quote, pieces, and a double quote. The result
/// is the text that the pieces stand for, and what follows the closing quote.
pub open spec fn string_literal(s: Seq<char>) -> Option<(Seq<char>, Seq<char>)> {
    if s.len() > 0 && s[0] == '"' {
        let (text, rest) = fragments(s.skip(1));
        if rest.len() > 0 && rest[0] == '"' {
            Some((text, rest.skip(1)))
        } else {
            None
        }
    } else {
        None
    }
}

/// Sixteen to the power of `k`.
pub open spec fn sixteen_to(k: nat) -> nat
    decreases k,
{
    if k == 0 {
        1
    } else {
        16 * sixteen_to((k - 1) as nat)
    }
}

/// `k` hexadecimal digits spell a number below sixteen to the power of `k`.
pub proof fn lemma_hexadecimal_bound(digits: Seq<char>)
    requires
        forall|i: int| 0 <= i < digits.len() ==> is_hex(#[trigger] digits[i]),
    ensures
        hexadecimal(digits) < sixteen_to(digits.len()),
    decreases digits.len(),
{
    if digits.len() > 0 {
        lemma_hexadecimal_bound(digits.drop_last());
        assert(is_hex(digits.last()));
    }
}

/// What the hexadecimal digit `c` counts for.
fn hex_digit(c: char) -> (v: u32)
    requires
        is_hex(c),
    ensures
        v == hex_value(c),
{
    if is_digit_char(c) {
        c as u32 - '0' as u32
    } else if 'a' <= c && c <= 'f' {
        c as u32 - 'a' as u32 + 10
    } else {
        c as u32 - 'A' as u32 + 10
    }
}

/// Reads the escape `u{..}` at `pos`, which is the place behind the
/// backslash.
fn parse_unicode(chars: &[char], pos: usize) -> (res: Option<(char, usize)>)
    requires
        pos <= chars.len(),
    ensures
        match unicode_escape(chars@.skip(pos as int)) {
            Some((c, rest)) => res matches Some((d, end)) && d == c && pos < end <= chars.len()
                && chars@.skip(end as int) == rest,
            None => res is None,
        },
{
    let ghost s = chars@.skip(pos as int);
    if !(chars.len() - pos >= 2 && chars[pos] == 'u' && chars[pos + 1] == '{') {
        return None;
    }
    let start = pos + 2;
    let ghost digits = s.skip(2);
    assert(digits == chars@.skip(start as int));
    let run_end = scan(chars, start, CharClass::Hex);
    let n: usize = if run_end - start <= 6 {
        run_end - start
    } else {
        6
    };
    if !(n >= 1 && start + n < chars.len() && chars[start + n] == '}') {
        return None;
    }
    proof {
        lemma_run_bounds(digits, CharClass::Hex);
    }
    let mut code: u32 = 0;
    let mut i: usize = 0;
    while i < n
        invariant
            0 <= i <= n <= 6,
            start + n < chars.len(),
            digits == chars@.skip(start as int),
            forall|j: int| 0 <= j < n ==> is_hex(#[trigger] digits[j]),
            code == hexadecimal(digits.take(i as int)),
        decreases n - i,
    {
        let c = chars[start + i];
        assert(c == digits[i as int]);
        proof {
            let next = digits.take(i + 1);
            assert(next.drop_last() == digits.take(i as int));
            assert(next.last() == c);
            lemma_hexadecimal_bound(digits.take(i as int));
            reveal_with_fuel(sixteen_to, 7);
        }
        code = code * 16 + hex_digit(c);
        i += 1;
    }
    assert(chars@.skip(start + n + 1) == digits.skip(n + 1));
    match std::char::from_u32(code) {
        Some(c) => Some((c, start + n + 1)),
        None => None,
    }
}

/// Reads one piece of the inside of a string literal at `pos` and appends
/// to `text` what it stands for. Returns where the rest begins, or `None`,
/// with `text` as it was, where no piece begins at `pos`.
fn parse_fragment(chars: &[char], pos: usize, text: &mut String) -> (res: Option<usize>)
    requires
        pos <= chars.len(),
    ensures
        match fragment(chars@.skip(pos as int)) {
            Some((piece, rest)) => res matches Some(end) && pos < end <= chars.len()
                && chars@.skip(end as int) == rest && final(text)@ == old(text)@ + piece,
            None => res is None && final(text)@ == old(text)@,
        },
{
    let ghost s = chars@.skip(pos as int);
    let plain = scan(chars, pos, CharClass::Plain);
    if plain > pos {
        push_range(text, chars, pos, plain);
        assert(chars@.subrange(pos as int, plain as int) == s.take(plain - pos));
        assert(chars@.skip(plain as int) == s.skip(plain - pos));
        return Some(plain);
    }
    if !(chars.len() - pos >= 2 && chars[pos] == '\\') {
        return None;
    }
    let ghost t = s.skip(1);
    assert(t == chars@.skip(pos + 1));
    if let Some((c, end)) = parse_unicode(chars, pos + 1) {
        text.push(c);
        assert(old(text)@.push(c) == old(text)@ + seq![c]);
        return Some(end);
    }
    let c = chars[pos + 1];
    assert(c == t[0]);
    if let Some(d) = unescape(c) {
        text.push(d);
        assert(old(text)@.push(d) == old(text)@ + seq![d]);
        assert(chars@.skip(pos + 2) == t.skip(1));
        return Some(pos + 2);
    }
    let blank = scan(chars, pos + 1, CharClass::Space);
    if blank > pos + 1 {
        assert(chars@.skip(blank as int) == t.skip(blank - (pos + 1)));
        assert(old(text)@ == old(text)@ + Seq::<char>::empty());
        return Some(blank);
    }
    None
}

/// What the letter `c` behind a backslash stands for.
fn unescape(c: char) -> (res: Option<char>)
    ensures
        res == escape(c),
{
    if c == 'n' {
        Some('\n')
    } else if c == 'r' {
        Some('\r')
    } else if c == 't' {
        Some('\t')
    } else if c == 'b' {
        Some('\u{08}')
    } else if c == 'f' {
        Some('\u{0C}')
    } else if c == '\\' || c == '/' || c == '"' {
        Some(c)
    } else {
        None
    }
}

/// Reads a string literal at `pos`: the text it stands for and where the
/// rest begins, or `None` where the string rule does not apply.
pub fn parse_string(chars: &[char], pos: usize) -> (res: Option<(String, usize)>)
    requires
        pos <= chars.len(),
    ensures
        match string_literal(chars@.skip(pos as int)) {
            Some((content, rest)) => res matches Some((text, end)) && text@ == content && pos
                < end <= chars.len() && chars@.skip(end as int) == rest && end - pos == taken(
                chars@.skip(pos as int),
                rest,
            ),
            None => res is None,
        },
{
    let ghost s = chars@.skip(pos as int);
    if !(pos < chars.len() && chars[pos] == '"') {
        return None;
    }
    let ghost inside = s.skip(1);
    assert(inside == chars@.skip(pos + 1));
    let mut text = String::new();
    let mut i: usize = pos + 1;
    loop
        invariant
            pos < i <= chars.len(),
            fragments(inside).0 == text@ + fragments(chars@.skip(i as int)).0,
            fragments(inside).1 == fragments(chars@.skip(i as int)).1,
        ensures
            pos < i <= chars.len(),
            fragments(inside) == (text@, chars@.skip(i as int)),
        decreases chars.len() - i,
    {
        let ghost before = text@;
        let ghost here = chars@.skip(i as int);
        match parse_fragment(chars, i, &mut text) {
            Some(end) => {
                proof {
                    let found = fragment(here)->0;
                    let piece = found.0;
                    let more = fragments(chars@.skip(end as int)).0;
                    assert(before + (piece + more) == (before + piece) + more);
                }
                i = end;
            },
            None => {
                assert(text@ + Seq::<char>::empty() == text@);
                break ;
            },
        }
    }
    if i < chars.len() && chars[i] == '"' {
        assert(chars@.skip(i + 1) == chars@.skip(i as int).skip(1));
        Some((text, i + 1))
    } else {
        None
    }
}

} // verus!
