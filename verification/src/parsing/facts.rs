//! First facts about the grammar: what the rules take from a text and what
//! they leave.

use vstd::prelude::*;
use super::grammar::{elements, expression, list, parsed, quotation};
use super::lexical::{
    is_digit, is_letter, is_operator, is_space, is_tail, lemma_run_bounds, lemma_run_is, run,
    taken, trim, CharClass,
};
use super::number::{number, word_false, word_true};
use super::string::{fragment, fragments, string_literal, unicode_escape};
use super::symbol::{lemma_symbol_len_bound, symbol};
use super::value::Value;

verus! {

/// Whether all characters of `w` are white space.
pub open spec fn is_blank(w: Seq<char>) -> bool {
    forall|i: int| 0 <= i < w.len() ==> is_space(#[trigger] w[i])
}

/// What is left of a tail is a tail of the whole.
pub proof fn lemma_tail_of_tail(rest: Seq<char>, middle: Seq<char>, s: Seq<char>)
    requires
        is_tail(rest, middle),
        is_tail(middle, s),
    ensures
        is_tail(rest, s),
{
    assert(s.skip(taken(s, middle)).skip(taken(middle, rest)) =~= s.skip(taken(s, rest)));
}

/// A sequence begins with the word `true`, or with the word `false`, if it
/// has the letters of the word at its front.
pub proof fn lemma_words(s: Seq<char>)
    ensures
        word_true().is_prefix_of(s) <==> (s.len() >= 4 && s[0] == 't' && s[1] == 'r' && s[2] == 'u'
            && s[3] == 'e'),
        word_false().is_prefix_of(s) <==> (s.len() >= 5 && s[0] == 'f' && s[1] == 'a' && s[2]
            == 'l' && s[3] == 's' && s[4] == 'e'),
{
    if s.len() >= 4 {
        let head = s.subrange(0, 4);
        assert(head[0] == s[0] && head[1] == s[1] && head[2] == s[2] && head[3] == s[3]);
        assert(word_true()[0] == 't' && word_true()[1] == 'r' && word_true()[2] == 'u'
            && word_true()[3] == 'e');
    }
    if s.len() >= 5 {
        let head = s.subrange(0, 5);
        assert(head[0] == s[0] && head[1] == s[1] && head[2] == s[2] && head[3] == s[3] && head[4]
            == s[4]);
        assert(word_false()[0] == 'f' && word_false()[1] == 'a' && word_false()[2] == 'l'
            && word_false()[3] == 's' && word_false()[4] == 'e');
    }
}

/// Trimming takes white space only, and all of it.
pub proof fn lemma_trim(s: Seq<char>)
    ensures
        is_tail(trim(s), s),
        taken(s, trim(s)) == run(s, CharClass::Space),
        trim(s).len() > 0 ==> !is_space(trim(s)[0]),
        run(trim(s), CharClass::Space) == 0,
{
    lemma_run_bounds(s, CharClass::Space);
}

/// A text that begins with anything but white space is trimmed already.
pub proof fn lemma_trimmed(s: Seq<char>)
    requires
        s.len() == 0 || !is_space(s[0]),
    ensures
        trim(s) == s,
{
    assert(s.skip(0) =~= s);
}

/// White space in front of a text is trimmed away with the text's own.
pub proof fn lemma_trim_blank(w: Seq<char>, s: Seq<char>)
    requires
        is_blank(w),
    ensures
        trim(w + s) == trim(s),
{
    let m = run(s, CharClass::Space) as int;
    let n = w.len() as int;
    lemma_run_bounds(s, CharClass::Space);
    let whole = w + s;
    assert forall|i: int| 0 <= i < n + m implies CharClass::Space.has(
        #[trigger] whole[i],
    ) by {
        if i < w.len() {
            assert(whole[i] == w[i]);
        } else {
            assert(whole[i] == s[i - w.len()]);
        }
    }
    if n + m < whole.len() {
        assert(whole[n + m] == s[m]);
    }
    lemma_run_is(whole, CharClass::Space, (n + m) as nat);
    assert(whole.skip(n + m) =~= s.skip(m));
}

/// White space in front of a text changes nothing in what is read from it.
pub proof fn lemma_leading_white_space(w: Seq<char>, s: Seq<char>)
    requires
        is_blank(w),
    ensures
        expression(w + s) == expression(s),
        parsed(w + s) == parsed(s),
{
    lemma_trim_blank(w, s);
}

/// The number rule takes at least one character from the front.
pub proof fn lemma_number_rest(s: Seq<char>)
    ensures
        number(s) matches Some((_, rest)) ==> is_tail(rest, s) && rest.len() < s.len(),
{
    lemma_run_bounds(s, CharClass::Digit);
}

/// The symbol rule takes at least one character from the front.
pub proof fn lemma_symbol_rest(s: Seq<char>)
    ensures
        symbol(s) matches Some((_, rest)) ==> is_tail(rest, s) && rest.len() < s.len(),
{
    lemma_symbol_len_bound(s);
}

/// A piece of a string literal takes at least one character from the front.
pub proof fn lemma_fragment_rest(s: Seq<char>)
    ensures
        fragment(s) matches Some((_, rest)) ==> is_tail(rest, s) && rest.len() < s.len(),
{
    lemma_run_bounds(s, CharClass::Plain);
    if run(s, CharClass::Plain) == 0 && s.len() >= 2 && s[0] == '\\' {
        let t = s.skip(1);
        lemma_run_bounds(t, CharClass::Space);
        if let Some((_, rest)) = unicode_escape(t) {
            let digits = t.skip(2);
            assert(rest =~= s.skip(s.len() - rest.len()));
        } else {
            assert(t.skip(1) =~= s.skip(2));
            let blanks = run(t, CharClass::Space) as int;
            assert(t.skip(blanks) =~= s.skip(1 + blanks));
        }
    }
}

/// A piece of a string literal stands for no more characters than it has.
pub proof fn lemma_fragment_length(s: Seq<char>)
    ensures
        fragment(s) matches Some((piece, rest)) ==> piece.len() <= taken(s, rest),
{
    lemma_run_bounds(s, CharClass::Plain);
    lemma_fragment_rest(s);
}

/// The pieces of a string literal stand for no more characters than they
/// have.
pub proof fn lemma_fragments_length(s: Seq<char>)
    ensures
        fragments(s).0.len() <= taken(s, fragments(s).1),
    decreases s.len(),
{
    lemma_fragment_length(s);
    lemma_fragment_rest(s);
    if let Some((_, rest)) = fragment(s) {
        if rest.len() < s.len() {
            lemma_fragments_length(rest);
        }
    }
}

/// What follows the pieces of a string literal is a tail of the text.
pub proof fn lemma_fragments_rest(s: Seq<char>)
    ensures
        is_tail(fragments(s).1, s),
    decreases s.len(),
{
    lemma_fragment_rest(s);
    match fragment(s) {
        Some((_, rest)) => {
            if rest.len() < s.len() {
                lemma_fragments_rest(rest);
                lemma_tail_of_tail(fragments(rest).1, rest, s);
            } else {
                assert(s.skip(0) =~= s);
            }
        },
        None => {
            assert(s.skip(0) =~= s);
        },
    }
}

/// The string rule takes at least two characters from the front.
pub proof fn lemma_string_rest(s: Seq<char>)
    ensures
        string_literal(s) matches Some((_, rest)) ==> is_tail(rest, s) && rest.len() + 2
            <= s.len(),
{
    if s.len() > 0 {
        let inside = s.skip(1);
        lemma_fragments_rest(inside);
        let after = fragments(inside).1;
        if after.len() > 0 {
            assert(after.skip(1) =~= s.skip(s.len() - after.len() + 1));
        }
    }
}

/// Which rules can apply after the first character of a text.
pub proof fn lemma_first_character(s: Seq<char>)
    requires
        s.len() > 0,
    ensures
        quotation(s) is Ok ==> s[0] == '\'',
        number(s) is Some ==> s[0] == 't' || s[0] == 'f' || is_digit(s[0]),
        symbol(s) is Some ==> is_operator(s[0]) || is_letter(s[0]) || s[0] == '_',
        string_literal(s) is Some ==> s[0] == '"',
        list(s) is Ok ==> s[0] == '(',
{
    lemma_words(s);
}

/// An expression takes at least one character after the white space in
/// front of it, and what it leaves is a tail of the text. Where no
/// expression can be read, the place of the failure is a tail of the text.
pub proof fn lemma_expression_rest(s: Seq<char>)
    ensures
        expression(s) matches Ok((_, rest)) ==> is_tail(rest, s) && rest.len() < trim(s).len(),
        expression(s) matches Err(at) ==> is_tail(at, s),
    decreases s.len(), 0nat,
{
    let t = trim(s);
    lemma_trim(s);
    if let Err(at) = expression(s) {
        if t.len() > 0 && t[0] == '(' {
            lemma_elements_rest(t.skip(1));
            lemma_tail_of_tail(at, t.skip(1), t);
        } else {
            assert(t.skip(0) =~= t);
        }
        lemma_tail_of_tail(at, t, s);
    }
    if let Ok((_, rest)) = expression(s) {
        if quotation(t) is Ok {
            lemma_expression_rest(t.skip(1));
            let inner = expression(t.skip(1))->Ok_0;
            assert(is_tail(inner.1, t.skip(1)));
            lemma_trim(t.skip(1));
            assert(t.skip(1).skip(taken(t.skip(1), rest)) =~= t.skip(taken(t, rest)));
        } else if number(t) is Some {
            lemma_number_rest(t);
        } else if symbol(t) is Some {
            lemma_symbol_rest(t);
        } else if string_literal(t) is Some {
            lemma_string_rest(t);
        } else {
            lemma_elements_rest(t.skip(1));
            let after = elements(t.skip(1)).1;
            assert(after.skip(1) =~= t.skip(taken(t, rest)));
        }
        assert(is_tail(rest, t));
        lemma_tail_of_tail(rest, t, s);
    }
}

/// What follows the expressions at the front of a text is a tail of the
/// text.
pub proof fn lemma_elements_rest(s: Seq<char>)
    ensures
        is_tail(elements(s).1, s),
    decreases s.len(), 1nat,
{
    lemma_expression_rest(s);
    lemma_trim(s);
    match expression(s) {
        Ok((_, rest)) => {
            if rest.len() < s.len() {
                lemma_elements_rest(rest);
                lemma_tail_of_tail(elements(rest).1, rest, s);
            } else {
                assert(s.skip(0) =~= s);
            }
        },
        Err(_) => {
            assert(s.skip(0) =~= s);
        },
    }
}

/// Where `elements` reads at least one expression, the first is what
/// `expression` reads, and the others are what `elements` reads behind it.
pub proof fn lemma_elements_first(s: Seq<char>, items: Seq<Value>, after: Seq<char>)
    requires
        elements(s) == (items, after),
        items.len() > 0,
    ensures
        expression(s) matches Ok((v, rest)) && v == items[0] && rest.len() < s.len() && elements(
            rest,
        ) == (items.skip(1), after),
{
    let found = expression(s)->Ok_0;
    let more = elements(found.1).0;
    let whole = seq![found.0] + more;
    assert(whole == items);
    assert(whole[0] == found.0);
    assert(more =~= items.skip(1)) by {
        assert forall|i: int| 0 <= i < more.len() implies more[i] == items.skip(1)[i] by {
            assert(whole[i + 1] == more[i]);
        }
    }
}

/// No expression begins with a closing parenthesis.
pub proof fn lemma_closing_parenthesis(s: Seq<char>)
    requires
        s.len() > 0,
        s[0] == ')',
    ensures
        expression(s) is Err,
        elements(s) == (Seq::<Value>::empty(), s),
{
    lemma_trimmed(s);
    lemma_first_character(s);
}

} // verus!
