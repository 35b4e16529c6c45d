//! What a rule reads depends on the characters it takes and on the one
//! behind them, and on nothing else in the text.

use vstd::prelude::*;
use super::facts::{
    lemma_closing_parenthesis, lemma_elements_rest, lemma_expression_rest,
    lemma_first_character, lemma_fragment_rest, lemma_fragments_rest, lemma_number_rest,
    lemma_string_rest, lemma_symbol_rest, lemma_trim, lemma_words,
};
use super::grammar::{elements, expression, quotation};
use super::lexical::{
    is_letter, is_space, lemma_run_agrees, lemma_run_bounds, run, taken, trim, CharClass,
};
use super::number::{number, word_false, word_true};
use super::string::{escape, fragment, fragments, string_literal, unicode_escape};
use super::symbol::{lemma_symbol_len_bound, symbol, symbol_len};
use super::value::Value;

verus! {

/// Whether `other` has the same first `k` characters as `s`.
pub open spec fn agree(s: Seq<char>, other: Seq<char>, k: int) -> bool {
    0 <= k <= s.len() && k <= other.len() && forall|i: int| 0 <= i < k ==> #[trigger] other[i]
        == s[i]
}

/// Whether `next` can stand behind an expression in place of `rest` without
/// moving the end of the expression: it is empty, or it begins with white
/// space, with a closing parenthesis, or with the character that `rest`
/// begins with.
pub open spec fn ends_alike(rest: Seq<char>, next: Seq<char>) -> bool {
    next.len() == 0 || is_space(next[0]) || next[0] == ')' || (rest.len() > 0 && next[0]
        == rest[0])
}

/// A run is at least as long as any prefix that holds only characters of
/// the class.
pub proof fn lemma_run_at_least(s: Seq<char>, class: CharClass, m: int)
    requires
        0 <= m <= s.len(),
        forall|i: int| 0 <= i < m ==> class.has(#[trigger] s[i]),
    ensures
        run(s, class) >= m,
{
    lemma_run_bounds(s, class);
}

/// The number rule reads the same number from any text that begins with the
/// characters it took and ends alike.
pub proof fn lemma_frame_number(s: Seq<char>, other: Seq<char>, n: i64, rest: Seq<char>)
    requires
        number(s) == Some((n, rest)),
        agree(s, other, taken(s, rest)),
        ends_alike(rest, other.skip(taken(s, rest))),
    ensures
        number(other) == Some((n, other.skip(taken(s, rest)))),
{
    let k = taken(s, rest);
    lemma_words(s);
    lemma_words(other);
    lemma_number_rest(s);
    lemma_run_bounds(s, CharClass::Digit);
    if word_true().is_prefix_of(s) {
        assert(other[0] == s[0] && other[1] == s[1] && other[2] == s[2] && other[3] == s[3]);
    } else if word_false().is_prefix_of(s) {
        assert(other[0] == s[0] && other[1] == s[1] && other[2] == s[2] && other[3] == s[3]
            && other[4] == s[4]);
    } else {
        assert(other[0] == s[0]);
        if k < other.len() {
            assert(other[k] == other.skip(k)[0]);
            if k < s.len() {
                assert(s[k] == rest[0]);
            }
        }
        lemma_run_agrees(s, other, CharClass::Digit);
        assert(other.take(k) =~= s.take(k));
    }
}

/// The symbol rule reads the same symbol from any text that begins with the
/// characters it took and ends alike; and where the number rule did not
/// apply before, it does not apply after.
pub proof fn lemma_frame_symbol(s: Seq<char>, other: Seq<char>, name: Seq<char>, rest: Seq<char>)
    requires
        number(s) is None,
        symbol(s) == Some((name, rest)),
        agree(s, other, taken(s, rest)),
        ends_alike(rest, other.skip(taken(s, rest))),
    ensures
        number(other) is None,
        symbol(other) == Some((name, other.skip(taken(s, rest)))),
{
    let k = taken(s, rest);
    lemma_symbol_rest(s);
    lemma_symbol_len_bound(s);
    lemma_words(s);
    lemma_words(other);
    lemma_run_bounds(s, CharClass::Operator);
    assert(other[0] == s[0]);
    assert(k == symbol_len(s));
    if k < other.len() {
        assert(other[k] == other.skip(k)[0]);
        if k < s.len() {
            assert(s[k] == rest[0]);
        }
    }
    let tail = s.skip(1);
    let tail2 = other.skip(1);
    lemma_run_bounds(tail, CharClass::Word);
    if run(s, CharClass::Operator) > 0 {
        lemma_run_agrees(s, other, CharClass::Operator);
    } else {
        let word = 1 + run(tail, CharClass::Word);
        assert forall|i: int| 0 <= i < word - 1 implies tail2[i] == tail[i] by {
            assert(tail2[i] == other[i + 1]);
            assert(tail[i] == s[i + 1]);
        }
        if word - 1 < tail2.len() {
            assert(tail2[word - 1] == other[word as int]);
            if word < s.len() {
                assert(tail[word - 1] == s[word as int]);
            }
        }
        lemma_run_agrees(tail, tail2, CharClass::Word);
        // Neither word of the number rule can begin where a shorter symbol ended.
        if word_true().is_prefix_of(other) && k < 4 {
            assert forall|i: int| 0 <= i < k implies CharClass::Word.has(#[trigger] tail[i]) by {
                assert(tail[i] == s[i + 1]);
                assert(is_letter(other[i + 1]));
            }
            lemma_run_at_least(tail, CharClass::Word, k);
        }
        if word_false().is_prefix_of(other) && k < 5 {
            assert forall|i: int| 0 <= i < k implies CharClass::Word.has(#[trigger] tail[i]) by {
                assert(tail[i] == s[i + 1]);
                assert(is_letter(other[i + 1]));
            }
            lemma_run_at_least(tail, CharClass::Word, k);
        }
    }
    assert(other.take(k) =~= s.take(k));
    assert(symbol_len(other) == k);
    assert(!word_true().is_prefix_of(other));
    assert(!word_false().is_prefix_of(other));
}

/// A piece of a string literal reads the same from any text that begins
/// with the characters of the piece and the character behind it.
pub proof fn lemma_frame_fragment(
    s: Seq<char>,
    other: Seq<char>,
    piece: Seq<char>,
    rest: Seq<char>,
)
    requires
        fragment(s) == Some((piece, rest)),
        rest.len() > 0,
        agree(s, other, taken(s, rest) + 1),
    ensures
        fragment(other) == Some((piece, other.skip(taken(s, rest)))),
{
    let j = taken(s, rest);
    lemma_fragment_rest(s);
    lemma_run_bounds(s, CharClass::Plain);
    assert(other[0] == s[0]);
    assert(other[j] == s[j]);
    if run(s, CharClass::Plain) > 0 {
        lemma_run_agrees(s, other, CharClass::Plain);
        assert(other.take(j) =~= s.take(j));
    } else {
        let t = s.skip(1);
        let t2 = other.skip(1);
        assert(t2[0] == other[1] && t[0] == s[1]);
        lemma_run_bounds(t, CharClass::Space);
        if let Some((c, after)) = unicode_escape(t) {
            let digits = t.skip(2);
            let digits2 = t2.skip(2);
            lemma_run_bounds(digits, CharClass::Hex);
            let n = run(digits, CharClass::Hex) as int;
            assert(n <= 6) by {
                if n > 6 {
                    assert(CharClass::Hex.has(digits[6]));
                }
            }
            assert(j == n + 4);
            assert(t2[1] == other[2] && t[1] == s[2]);
            assert forall|i: int| 0 <= i <= n implies digits2[i] == digits[i] by {
                assert(digits2[i] == other[i + 3]);
                assert(digits[i] == s[i + 3]);
            }
            lemma_run_agrees(digits, digits2, CharClass::Hex);
            assert(digits2.take(n) =~= digits.take(n));
            assert(digits2.skip(n + 1) =~= other.skip(j));
        } else if escape(t[0]) is Some {
            assert(unicode_escape(t2) is None);
            assert(t2.skip(1) =~= other.skip(2));
            assert(t.skip(1).len() == s.len() - 2);
        } else {
            let m = run(t, CharClass::Space) as int;
            assert(j == m + 1);
            assert forall|i: int| 0 <= i <= m implies t2[i] == t[i] by {
                assert(t2[i] == other[i + 1]);
                assert(t[i] == s[i + 1]);
            }
            lemma_run_agrees(t, t2, CharClass::Space);
            assert(unicode_escape(t2) is None);
            assert(t2.skip(m) =~= other.skip(j));
        }
    }
}

/// The pieces of a string literal read the same from any text that begins
/// with their characters and the closing quote.
pub proof fn lemma_frame_fragments(
    s: Seq<char>,
    other: Seq<char>,
    text: Seq<char>,
    rest: Seq<char>,
)
    requires
        fragments(s) == (text, rest),
        rest.len() > 0,
        rest[0] == '"',
        agree(s, other, taken(s, rest) + 1),
    ensures
        fragments(other) == (text, other.skip(taken(s, rest))),
    decreases s.len(),
{
    let k = taken(s, rest);
    lemma_fragments_rest(s);
    lemma_fragment_rest(s);
    assert(other[0] == s[0]);
    match fragment(s) {
        Some((piece, mid)) => {
            let more = fragments(mid).0;
            lemma_fragments_rest(mid);
            let j = taken(s, mid);
            lemma_frame_fragment(s, other, piece, mid);
            let mid2 = other.skip(j);
            assert forall|i: int| 0 <= i < k - j + 1 implies #[trigger] mid2[i] == mid[i] by {
                assert(mid2[i] == other[i + j]);
                assert(mid[i] == s[i + j]);
            }
            lemma_frame_fragments(mid, mid2, more, rest);
            assert(mid2.skip(k - j) =~= other.skip(k));
        },
        None => {
            assert(rest == s);
            assert(other.skip(0) =~= other);
        },
    }
}

/// The string rule reads the same text from any text that begins with the
/// characters of the literal.
pub proof fn lemma_frame_string(s: Seq<char>, other: Seq<char>, text: Seq<char>, rest: Seq<char>)
    requires
        string_literal(s) == Some((text, rest)),
        agree(s, other, taken(s, rest)),
    ensures
        string_literal(other) == Some((text, other.skip(taken(s, rest)))),
{
    let k = taken(s, rest);
    lemma_string_rest(s);
    let inside = s.skip(1);
    let inside2 = other.skip(1);
    let after = fragments(inside).1;
    lemma_fragments_rest(inside);
    let kk = taken(inside, after);
    assert(other[0] == s[0]);
    assert(k == kk + 2);
    assert forall|i: int| 0 <= i < kk + 1 implies #[trigger] inside2[i] == inside[i] by {
        assert(inside2[i] == other[i + 1]);
        assert(inside[i] == s[i + 1]);
    }
    lemma_frame_fragments(inside, inside2, text, after);
    assert(inside2.skip(kk)[0] == inside2[kk]);
    assert(after[0] == inside[kk]);
    assert(inside2.skip(kk).skip(1) =~= other.skip(k));
}

/// An expression reads the same from any text that begins with the
/// characters it took and ends alike.
pub proof fn lemma_frame_expression(s: Seq<char>, other: Seq<char>, v: Value, rest: Seq<char>)
    requires
        expression(s) == Ok::<(Value, Seq<char>), Seq<char>>((v, rest)),
        agree(s, other, taken(s, rest)),
        ends_alike(rest, other.skip(taken(s, rest))),
    ensures
        expression(other) == Ok::<(Value, Seq<char>), Seq<char>>((v, other.skip(taken(s, rest)))),
    decreases s.len(), 0nat,
{
    let k = taken(s, rest);
    lemma_expression_rest(s);
    lemma_trim(s);
    lemma_run_bounds(s, CharClass::Space);
    let m = run(s, CharClass::Space) as int;
    let t = trim(s);
    assert(t[0] == s[m]);
    assert(other[m] == s[m]);
    lemma_run_agrees(s, other, CharClass::Space);
    let t2 = trim(other);
    let kt = k - m;
    assert(kt == taken(t, rest));
    assert forall|i: int| 0 <= i < kt implies #[trigger] t2[i] == t[i] by {
        assert(t2[i] == other[i + m]);
        assert(t[i] == s[i + m]);
    }
    assert(t2.skip(kt) =~= other.skip(k));
    assert(t2[0] == t[0]);
    lemma_first_character(t);
    lemma_first_character(t2);
    if quotation(t) is Ok {
        let quoted = t.skip(1);
        let quoted2 = t2.skip(1);
        let inner = expression(quoted)->Ok_0;
        lemma_expression_rest(quoted);
        assert forall|i: int| 0 <= i < kt - 1 implies #[trigger] quoted2[i] == quoted[i] by {
            assert(quoted2[i] == t2[i + 1]);
            assert(quoted[i] == t[i + 1]);
        }
        assert(quoted2.skip(kt - 1) =~= other.skip(k));
        lemma_frame_expression(quoted, quoted2, inner.0, rest);
    } else if let Some((n, r)) = number(t) {
        lemma_frame_number(t, t2, n, r);
    } else if let Some((name, r)) = symbol(t) {
        lemma_frame_symbol(t, t2, name, r);
    } else if let Some((text, r)) = string_literal(t) {
        lemma_frame_string(t, t2, text, r);
    } else {
        let inside = t.skip(1);
        let inside2 = t2.skip(1);
        let items = elements(inside).0;
        let after = elements(inside).1;
        lemma_elements_rest(inside);
        let kk = taken(inside, after);
        assert(kt == kk + 2);
        assert forall|i: int| 0 <= i < kk + 1 implies #[trigger] inside2[i] == inside[i] by {
            assert(inside2[i] == t2[i + 1]);
            assert(inside[i] == t[i + 1]);
        }
        lemma_frame_elements(inside, inside2, items, after);
        assert(inside2.skip(kk)[0] == inside2[kk]);
        assert(after[0] == inside[kk]);
        assert(inside2.skip(kk).skip(1) =~= other.skip(k));
    }
}

/// The expressions in front of a closing parenthesis read the same from any
/// text that begins with their characters and the parenthesis.
pub proof fn lemma_frame_elements(
    s: Seq<char>,
    other: Seq<char>,
    items: Seq<Value>,
    rest: Seq<char>,
)
    requires
        elements(s) == (items, rest),
        rest.len() > 0,
        rest[0] == ')',
        agree(s, other, taken(s, rest) + 1),
    ensures
        elements(other) == (items, other.skip(taken(s, rest))),
    decreases s.len(), 1nat,
{
    let k = taken(s, rest);
    lemma_elements_rest(s);
    lemma_expression_rest(s);
    lemma_trim(s);
    assert(other[0] == s[0]);
    match expression(s) {
        Ok((v, mid)) => {
            let more = elements(mid).0;
            lemma_elements_rest(mid);
            let j = taken(s, mid);
            let mid2 = other.skip(j);
            assert(mid2[0] == other[j]);
            assert(mid[0] == s[j]);
            lemma_frame_expression(s, other, v, mid);
            assert forall|i: int| 0 <= i < k - j + 1 implies #[trigger] mid2[i] == mid[i] by {
                assert(mid2[i] == other[i + j]);
                assert(mid[i] == s[i + j]);
            }
            lemma_frame_elements(mid, mid2, more, rest);
            assert(mid2.skip(k - j) =~= other.skip(k));
        },
        Err(_) => {
            assert(rest == s);
            lemma_closing_parenthesis(other);
            assert(other.skip(0) =~= other);
        },
    }
}

} // verus!
