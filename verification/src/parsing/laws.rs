//! What holds of the reader: of types, of repeated reading, of operators
//! and large numbers, and of white space between tokens.

use vstd::prelude::*;
use super::facts::{
    is_blank, lemma_elements_rest, lemma_expression_rest, lemma_first_character,
    lemma_tail_of_tail, lemma_trim, lemma_trim_blank, lemma_trimmed, lemma_words,
};
use super::framing::{agree, ends_alike, lemma_frame_expression};
use super::grammar::{elements, expression, parsed};
use super::lexical::{
    is_digit, is_operator, is_space, is_tail, lemma_run_bounds, lemma_run_is, run, taken, trim,
    CharClass,
};
use super::number::decimal;
use super::roundtrip::lemma_render_then_read;
use super::value::{LispType, LispVal, Value};
use super::{parse, ParseError};

verus! {

/// Quoting does not change the type: a quoted tree has the type tag of the
/// tree.
pub proof fn lemma_quote_keeps_type(v: Value)
    ensures
        Value::Unevaluated(Box::new(v)).type_tag() == v.type_tag(),
        v.type_tag() != LispType::Any,
    decreases v,
{
    if let Value::Unevaluated(inner) = v {
        lemma_quote_keeps_type(*inner);
    }
}

/// Determinism: what `parse` gives for a text is decided by the text. Any
/// two results of `parse` for the same text are failures at the same place,
/// or hold the same tree and the same rest.
pub proof fn lemma_same_text_same_result<'a, 'b>(
    a: &'a str,
    b: &'b str,
    first: Result<(&'a str, LispVal), ParseError>,
    second: Result<(&'b str, LispVal), ParseError>,
)
    requires
        a@ == b@,
        call_ensures(parse, (a,), first),
        call_ensures(parse, (b,), second),
    ensures
        match (first, second) {
            (Ok((left1, val1)), Ok((left2, val2))) => left1@ == left2@ && val1@ == val2@,
            (Err(e1), Err(e2)) => e1 == e2,
            _ => false,
        },
{
}

/// Reading makes progress. What `parse` leaves is a tail of the text that
/// is shorter than the text and does not begin with white space, so that
/// reading one expression after the other from what is left comes to an
/// end. Where `parse` fails, the place of the failure is a tail of the text.
pub proof fn lemma_parse_makes_progress(s: Seq<char>)
    ensures
        parsed(s) matches Ok((_, rest)) ==> is_tail(rest, s) && rest.len() < s.len() && (
        rest.len() == 0 || !is_space(rest[0])),
        parsed(s) matches Err(at) ==> is_tail(at, s),
{
    lemma_expression_rest(s);
    lemma_trim(s);
    if let Ok((_, after)) = expression(s) {
        lemma_trim(after);
        lemma_tail_of_tail(trim(after), after, s);
    }
}

/// Operators are not split: a text made of operator characters only is
/// read as one symbol of that name.
pub proof fn lemma_operators_are_one_symbol(name: Seq<char>)
    requires
        name.len() > 0,
        forall|i: int| 0 <= i < name.len() ==> is_operator(#[trigger] name[i]),
    ensures
        parsed(name) == Ok::<(Value, Seq<char>), Seq<char>>((Value::Symbol(name), Seq::empty())),
{
    assert(CharClass::Operator.has(name[0]));
    lemma_run_is(name, CharClass::Operator, name.len());
    lemma_words(name);
    lemma_render_then_read(Value::Symbol(name));
}

/// Too large a number is no number: a text made of decimal digits only
/// that spell more than fits in 64 bits with a sign cannot be read, and the
/// failure is at its first character.
pub proof fn lemma_too_large_number_fails(s: Seq<char>)
    requires
        s.len() > 0,
        forall|i: int| 0 <= i < s.len() ==> is_digit(#[trigger] s[i]),
        decimal(s) > i64::MAX,
    ensures
        parsed(s) == Err::<(Value, Seq<char>), Seq<char>>(s),
{
    assert(is_digit(s[0]));
    lemma_trimmed(s);
    lemma_first_character(s);
    lemma_words(s);
    lemma_run_is(s, CharClass::Digit, s.len());
    assert(s.take(s.len() as int) =~= s);
}

/// `s` with `w` put in at offset `i`.
pub open spec fn insert(s: Seq<char>, i: int, w: Seq<char>) -> Seq<char> {
    s.take(i) + w + s.skip(i)
}

/// Whether offset `i` of `s` is a place in front of an expression that
/// `expression(s)` reads: a place in the white space in front of the
/// expression or the place of its first character, or, where the expression
/// is a quotation or a list, such a place for an expression inside it. The
/// place of a closing parenthesis is none: no expression begins there.
pub open spec fn begins_expression(s: Seq<char>, i: int) -> bool
    decreases s.len(), 0nat,
{
    let blanks = run(s, CharClass::Space) as int;
    let t = trim(s);
    proof {
        lemma_run_bounds(s, CharClass::Space);
    }
    (0 <= i <= blanks) || (t.len() > 0 && t[0] == '\'' && begins_expression(
        t.skip(1),
        i - blanks - 1,
    )) || (t.len() > 0 && t[0] == '(' && begins_element(t.skip(1), i - blanks - 1))
}

/// Whether offset `i` of `s` is a place in front of an expression among
/// those that `elements(s)` reads, or in front of one inside them.
pub open spec fn begins_element(s: Seq<char>, i: int) -> bool
    decreases s.len(), 1nat,
{
    match expression(s) {
        Ok((_, rest)) => rest.len() < s.len() && (begins_expression(s, i) || begins_element(
            rest,
            i - taken(s, rest),
        )),
        Err(_) => false,
    }
}

/// Whether white space may be put in at offset `i` of `s`: in front of an
/// expression that `parse` reads, or in or next to the white space behind
/// the outermost expression.
pub open spec fn is_gap(s: Seq<char>, i: int) -> bool {
    begins_expression(s, i) || (expression(s) matches Ok((_, rest)) && taken(s, rest) <= i
        <= taken(s, trim(rest)))
}

/// White space in front of an expression, at any depth, changes nothing in
/// what `expression` reads.
pub proof fn lemma_white_space_before_expression(
    s: Seq<char>,
    i: int,
    w: Seq<char>,
    v: Value,
    rest: Seq<char>,
)
    requires
        expression(s) == Ok::<(Value, Seq<char>), Seq<char>>((v, rest)),
        begins_expression(s, i),
        is_blank(w),
    ensures
        0 <= i <= taken(s, rest),
        expression(insert(s, i, w)) == expression(s),
    decreases s.len(), 0nat,
{
    let m = run(s, CharClass::Space) as int;
    let t = trim(s);
    let ins = insert(s, i, w);
    lemma_trim(s);
    lemma_expression_rest(s);
    lemma_run_bounds(s, CharClass::Space);
    if 0 <= i <= m {
        let front = s.take(i);
        assert(is_blank(front + w)) by {
            assert forall|j: int| 0 <= j < (front + w).len() implies is_space(
                #[trigger] (front + w)[j],
            ) by {
                if j < i {
                    assert((front + w)[j] == s[j]);
                } else {
                    assert((front + w)[j] == w[j - i]);
                }
            }
        }
        assert(is_blank(front)) by {
            assert forall|j: int| 0 <= j < front.len() implies is_space(#[trigger] front[j]) by {
                assert(front[j] == s[j]);
            }
        }
        lemma_trim_blank(front + w, s.skip(i));
        lemma_trim_blank(front, s.skip(i));
        assert(front + s.skip(i) =~= s);
        assert((front + w) + s.skip(i) =~= ins);
    } else {
        lemma_first_character(t);
        assert(t[0] == s[m]);
        let inside = t.skip(1);
        let j = i - m - 1;
        if t[0] == '\'' {
            let inner = expression(inside)->Ok_0;
            lemma_white_space_before_expression(inside, j, w, inner.0, inner.1);
        } else {
            lemma_white_space_before_elements(inside, j, w);
            lemma_elements_rest(inside);
        }
        assert forall|n: int| 0 <= n <= m implies #[trigger] ins[n] == s[n] by {}
        lemma_run_is(ins, CharClass::Space, m as nat);
        assert(trim(ins).skip(1) =~= insert(inside, j, w));
        assert(trim(ins)[0] == ins[m]);
        lemma_first_character(trim(ins));
    }
}

/// White space in front of an expression among those that `elements`
/// reads, or inside one of them, changes nothing in what `elements` reads.
pub proof fn lemma_white_space_before_elements(s: Seq<char>, i: int, w: Seq<char>)
    requires
        begins_element(s, i),
        is_blank(w),
    ensures
        0 <= i <= taken(s, elements(s).1),
        elements(insert(s, i, w)) == elements(s),
    decreases s.len(), 1nat,
{
    let ins = insert(s, i, w);
    let found = expression(s)->Ok_0;
    let v = found.0;
    let mid = found.1;
    let c = taken(s, mid);
    lemma_expression_rest(s);
    lemma_trim(s);
    lemma_elements_rest(mid);
    if begins_expression(s, i) {
        lemma_white_space_before_expression(s, i, w, v, mid);
    } else {
        lemma_white_space_before_elements(mid, i - c, w);
        let next = insert(mid, i - c, w);
        assert(ins.skip(c) =~= next);
        assert(agree(s, ins, c));
        assert(ends_alike(mid, next)) by {
            if next.len() > 0 {
                if i - c > 0 {
                    assert(next[0] == mid[0]);
                } else if w.len() > 0 {
                    assert(next[0] == w[0]);
                } else {
                    assert(next[0] == mid[0]);
                }
            }
        }
        lemma_frame_expression(s, ins, v, mid);
    }
}

/// White space between tokens: white space put in where there is a gap
/// changes nothing in what `parse` gives, neither the tree nor the rest.
/// Read from right to left this is the removal of white space: it may be
/// removed wherever the text without it has a gap.
pub proof fn lemma_white_space_between_tokens(s: Seq<char>, i: int, w: Seq<char>)
    requires
        parsed(s) is Ok,
        is_gap(s, i),
        is_blank(w),
    ensures
        parsed(insert(s, i, w)) == parsed(s),
{
    let found = expression(s)->Ok_0;
    let v = found.0;
    let rest = found.1;
    let ins = insert(s, i, w);
    if begins_expression(s, i) {
        lemma_white_space_before_expression(s, i, w, v, rest);
    } else {
        let k = taken(s, rest);
        lemma_expression_rest(s);
        lemma_trim(rest);
        lemma_run_bounds(rest, CharClass::Space);
        let front = rest.take(i - k);
        let back = rest.skip(i - k);
        let next = front + w + back;
        assert(ins.skip(k) =~= next);
        assert(agree(s, ins, k));
        assert(ends_alike(rest, next)) by {
            if next.len() > 0 {
                if i - k > 0 {
                    assert(next[0] == rest[0]);
                } else if w.len() > 0 {
                    assert(next[0] == w[0]);
                } else {
                    assert(next[0] == rest[0]);
                }
            }
        }
        lemma_frame_expression(s, ins, v, rest);
        assert(is_blank(front)) by {
            assert forall|j: int| 0 <= j < front.len() implies is_space(#[trigger] front[j]) by {
                assert(front[j] == rest[j]);
            }
        }
        assert(is_blank(front + w)) by {
            assert forall|j: int| 0 <= j < (front + w).len() implies is_space(
                #[trigger] (front + w)[j],
            ) by {
                if j < front.len() {
                    assert((front + w)[j] == front[j]);
                } else {
                    assert((front + w)[j] == w[j - front.len()]);
                }
            }
        }
        lemma_trim_blank(front + w, back);
        lemma_trim_blank(front, back);
        assert(front + back =~= rest);
    }
}

} // verus!
