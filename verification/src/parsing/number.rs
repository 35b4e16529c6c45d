//! The number rule.

use vstd::prelude::*;
use super::lexical::{is_digit, lemma_run_bounds, run, scan, taken, CharClass};

verus! {

/// What a decimal digit counts for.
pub open spec fn digit_value(c: char) -> nat {
    (c as int - '0' as int) as nat
}

/// The number that a sequence of decimal digits spells.
pub open spec fn decimal(digits: Seq<char>) -> nat
    decreases digits.len(),
{
    if digits.len() == 0 {
        0
    } else {
        10 * decimal(digits.drop_last()) + digit_value(digits.last())
    }
}

/// The word that stands for 1.
pub open spec fn word_true() -> Seq<char> {
    seq!['t', 'r', 'u', 'e']
}

/// The word that stands for 0.
pub open spec fn word_false() -> Seq<char> {
    seq!['f', 'a', 'l', 's', 'e']
}

/// The number rule: the word `true` stands for 1, the word `false` for 0,
/// and a run of decimal digits for the number it spells, provided that
/// number fits in 64 bits with a sign. A run that does not fit is no number.
pub open spec fn number(s: Seq<char>) -> Option<(i64, Seq<char>)> {
    if word_true().is_prefix_of(s) {
        Some((1i64, s.skip(4)))
    } else if word_false().is_prefix_of(s) {
        Some((0i64, s.skip(5)))
    } else {
        let n = run(s, CharClass::Digit);
        if n > 0 && decimal(s.take(n as int)) <= i64::MAX {
            Some((decimal(s.take(n as int)) as i64, s.skip(n as int)))
        } else {
            None
        }
    }
}

/// A prefix of a digit sequence spells no more than the whole sequence.
pub proof fn lemma_decimal_grows(digits: Seq<char>, k: int)
    requires
        0 <= k <= digits.len(),
    ensures
        decimal(digits.take(k)) <= decimal(digits),
    decreases digits.len(),
{
    if k < digits.len() {
        lemma_decimal_grows(digits.drop_last(), k);
        assert(digits.drop_last().take(k) == digits.take(k));
    } else {
        assert(digits.take(k) == digits);
    }
}

/// Whether the word `true` stands at `pos`.
fn has_true(chars: &[char], pos: usize) -> (res: bool)
    requires
        pos <= chars.len(),
    ensures
        res == word_true().is_prefix_of(chars@.skip(pos as int)),
{
    let res = chars.len() - pos >= 4 && chars[pos] == 't' && chars[pos + 1] == 'r' && chars[pos
        + 2] == 'u' && chars[pos + 3] == 'e';
    proof {
        let s = chars@.skip(pos as int);
        if s.len() >= 4 {
            assert(s[0] == chars@[pos as int] && s[1] == chars@[pos + 1] && s[2] == chars@[pos
                + 2] && s[3] == chars@[pos + 3]);
            let head = s.subrange(0, 4);
            assert(head[0] == s[0] && head[1] == s[1] && head[2] == s[2] && head[3] == s[3]);
            assert(word_true()[0] == 't' && word_true()[1] == 'r' && word_true()[2] == 'u'
                && word_true()[3] == 'e');
        }
    }
    res
}

/// Whether the word `false` stands at `pos`.
fn has_false(chars: &[char], pos: usize) -> (res: bool)
    requires
        pos <= chars.len(),
    ensures
        res == word_false().is_prefix_of(chars@.skip(pos as int)),
{
    let res = chars.len() - pos >= 5 && chars[pos] == 'f' && chars[pos + 1] == 'a' && chars[pos
        + 2] == 'l' && chars[pos + 3] == 's' && chars[pos + 4] == 'e';
    proof {
        let s = chars@.skip(pos as int);
        if s.len() >= 5 {
            assert(s[0] == chars@[pos as int] && s[1] == chars@[pos + 1] && s[2] == chars@[pos
                + 2] && s[3] == chars@[pos + 3] && s[4] == chars@[pos + 4]);
            let head = s.subrange(0, 5);
            assert(head[0] == s[0] && head[1] == s[1] && head[2] == s[2] && head[3] == s[3]
                && head[4] == s[4]);
            assert(word_false()[0] == 'f' && word_false()[1] == 'a' && word_false()[2] == 'l'
                && word_false()[3] == 's' && word_false()[4] == 'e');
        }
    }
    res
}

/// Reads a number at `pos`: the value and where the rest begins, or `None`
/// where the number rule does not apply.
pub fn parse_number(chars: &[char], pos: usize) -> (res: Option<(i64, usize)>)
    requires
        pos <= chars.len(),
    ensures
        match number(chars@.skip(pos as int)) {
            Some((n, rest)) => res matches Some((m, end)) && m == n && pos < end <= chars.len()
                && chars@.skip(end as int) == rest && end - pos == taken(
                chars@.skip(pos as int),
                rest,
            ),
            None => res is None,
        },
{
    let ghost s = chars@.skip(pos as int);
    if has_true(chars, pos) {
        assert(chars@.skip(pos + 4) == s.skip(4));
        return Some((1, pos + 4));
    }
    if has_false(chars, pos) {
        assert(chars@.skip(pos + 5) == s.skip(5));
        return Some((0, pos + 5));
    }
    let end = scan(chars, pos, CharClass::Digit);
    if end == pos {
        return None;
    }
    let ghost digits = s.take(end - pos);
    proof {
        lemma_run_bounds(s, CharClass::Digit);
    }
    let mut value: i64 = 0;
    let mut i: usize = pos;
    while i < end
        invariant
            pos <= i <= end <= chars.len(),
            s == chars@.skip(pos as int),
            digits == s.take(end - pos),
            end - pos == run(s, CharClass::Digit),
            !word_true().is_prefix_of(s),
            !word_false().is_prefix_of(s),
            forall|j: int| 0 <= j < end - pos ==> is_digit(#[trigger] s[j]),
            value == decimal(digits.take(i - pos)),
        decreases end - i,
    {
        let c = chars[i];
        assert(c == s[i - pos]);
        let d: i64 = (c as u32 - '0' as u32) as i64;
        proof {
            let next = digits.take(i - pos + 1);
            assert(next.drop_last() == digits.take(i - pos));
            assert(next.last() == c);
            assert(decimal(next) == 10 * value + d);
            lemma_decimal_grows(digits, i - pos + 1);
        }
        if value > (i64::MAX - d) / 10 {
            return None;
        }
        value = value * 10 + d;
        i += 1;
    }
    assert(digits.take(end - pos) == digits);
    assert(chars@.skip(end as int) == s.skip(end - pos));
    Some((value, end))
}

} // verus!
