//! The symbol rule.

use vstd::prelude::*;
use super::lexical::{
    is_letter, is_letter_char, lemma_run_bounds, run, scan, taken, CharClass,
};
use super::text::text_of;

verus! {

/// How many characters the symbol rule takes from the front of `s`: a run
/// of operator characters where there is one; else a letter or an
/// underscore, the run of word characters behind it, and one question mark
/// where one follows; else none.
pub open spec fn symbol_len(s: Seq<char>) -> nat {
    if run(s, CharClass::Operator) > 0 {
        run(s, CharClass::Operator)
    } else if s.len() > 0 && (is_letter(s[0]) || s[0] == '_') {
        let word = 1 + run(s.skip(1), CharClass::Word);
        if word < s.len() && s[word as int] == '?' {
            word + 1
        } else {
            word
        }
    } else {
        0
    }
}

/// The symbol rule: the name and what follows it.
pub open spec fn symbol(s: Seq<char>) -> Option<(Seq<char>, Seq<char>)> {
    let n = symbol_len(s);
    if n > 0 {
        Some((s.take(n as int), s.skip(n as int)))
    } else {
        None
    }
}

/// A symbol lies within the sequence.
pub proof fn lemma_symbol_len_bound(s: Seq<char>)
    ensures
        symbol_len(s) <= s.len(),
{
    lemma_run_bounds(s, CharClass::Operator);
    if s.len() > 0 {
        lemma_run_bounds(s.skip(1), CharClass::Word);
    }
}

/// Reads a symbol at `pos`: its name and where the rest begins, or `None`
/// where the symbol rule does not apply.
pub fn parse_symbol(chars: &[char], pos: usize) -> (res: Option<(String, usize)>)
    requires
        pos <= chars.len(),
    ensures
        match symbol(chars@.skip(pos as int)) {
            Some((name, rest)) => res matches Some((text, end)) && text@ == name && pos < end
                <= chars.len() && chars@.skip(end as int) == rest && end - pos == taken(
                chars@.skip(pos as int),
                rest,
            ),
            None => res is None,
        },
{
    let ghost s = chars@.skip(pos as int);
    let operators = scan(chars, pos, CharClass::Operator);
    let end = if operators > pos {
        operators
    } else if pos < chars.len() && (is_letter_char(chars[pos]) || chars[pos] == '_') {
        assert(s.skip(1) == chars@.skip(pos + 1));
        let word = scan(chars, pos + 1, CharClass::Word);
        if word < chars.len() && chars[word] == '?' {
            word + 1
        } else {
            word
        }
    } else {
        return None;
    };
    assert(end - pos == symbol_len(s));
    assert(chars@.subrange(pos as int, end as int) == s.take(end - pos));
    assert(chars@.skip(end as int) == s.skip(end - pos));
    Some((text_of(chars, pos, end), end))
}

} // verus!
