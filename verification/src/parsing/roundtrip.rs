//! Rendering then reading: which trees come back from their text.

use vstd::prelude::*;
use super::facts::{
    lemma_closing_parenthesis, lemma_elements_first, lemma_expression_rest,
    lemma_first_character, lemma_leading_white_space, lemma_symbol_rest, lemma_trim,
    lemma_trimmed, lemma_words,
};
use super::framing::{ends_alike, lemma_frame_expression, lemma_frame_symbol};
use super::grammar::{elements, expression, parsed};
use super::lexical::{is_digit, lemma_run_bounds, lemma_run_is, trim, CharClass};
use super::number::number;
use super::quotes::lemma_strings_do_not_read_back;
use super::render::{lemma_digits, render, render_items};
use super::symbol::{lemma_symbol_len_bound, symbol_len};
use super::value::{is_string_free, Value};

verus! {

/// Whether the text of a tree reads back as the tree. It does for a symbol
/// whose name is what the symbol rule takes and the number rule declines,
/// for a number that is not negative, for a quotation of a tree that reads
/// back, and for a list of trees that read back. It does not for a string,
/// whose text has no quotes, for a negative number, whose sign reads as an
/// operator, nor for the void value, which has no text. That these are the
/// trees that read back, and no others, is `lemma_reads_back_exactly`.
pub open spec fn is_readable(v: Value) -> bool
    decreases v,
{
    match v {
        Value::Symbol(name) => name.len() > 0 && symbol_len(name) == name.len() && number(name)
            is None,
        Value::String(_) => false,
        Value::List(items) => forall|i: int|
            0 <= i < items.len() ==> is_readable(#[trigger] items[i]),
        Value::Number(n) => n >= 0,
        Value::Unevaluated(inner) => is_readable(*inner),
        Value::Void => false,
    }
}

/// Rendering then reading: the text of a tree that reads back is read as
/// that tree, with nothing left over.
pub proof fn lemma_render_then_read(v: Value)
    requires
        is_readable(v),
    ensures
        expression(render(v)) == Ok::<(Value, Seq<char>), Seq<char>>((v, Seq::empty())),
        parsed(render(v)) == Ok::<(Value, Seq<char>), Seq<char>>((v, Seq::empty())),
    decreases v, 0nat,
{
    let s = render(v);
    let nothing = Seq::<char>::empty();
    assert(trim(nothing) =~= nothing);
    match v {
        Value::Symbol(name) => {
            lemma_symbol_len_bound(s);
            lemma_run_bounds(s, CharClass::Operator);
            lemma_trimmed(s);
            lemma_first_character(s);
            assert(s.take(s.len() as int) =~= s);
            assert(s.skip(s.len() as int) =~= nothing);
        },
        Value::Number(n) => {
            lemma_digits(n as nat);
            assert(is_digit(s[0]));
            lemma_trimmed(s);
            lemma_first_character(s);
            lemma_words(s);
            lemma_run_is(s, CharClass::Digit, s.len());
            assert(s.take(s.len() as int) =~= s);
            assert(s.skip(s.len() as int) =~= nothing);
        },
        Value::Unevaluated(inner) => {
            lemma_render_then_read(*inner);
            lemma_trimmed(s);
            assert(s.skip(1) =~= render(*inner));
        },
        Value::List(items) => {
            lemma_trimmed(s);
            lemma_first_character(s);
            lemma_items_then_read(items, 0);
            let closing = seq![')'];
            assert(s.skip(1) =~= render_items(items, 0) + closing);
            assert(closing.skip(1) =~= nothing);
            assert(items.skip(0) =~= items);
        },
        _ => {},
    }
}

/// Rendering then reading, for the items of a list from index `from` on.
pub proof fn lemma_items_then_read(items: Seq<Value>, from: nat)
    requires
        forall|i: int| 0 <= i < items.len() ==> is_readable(#[trigger] items[i]),
        from <= items.len(),
    ensures
        elements(render_items(items, from) + seq![')']) == (items.skip(from as int), seq![')']),
    decreases items, items.len() - from,
{
    let closing = seq![')'];
    let text = render_items(items, from) + closing;
    if from >= items.len() {
        assert(text =~= closing);
        lemma_closing_parenthesis(closing);
        assert(items.skip(from as int) =~= Seq::<Value>::empty());
    } else {
        let item = items[from as int];
        let lead = if from == 0 {
            Seq::<char>::empty()
        } else {
            seq![' ']
        };
        let own = render(item);
        let tail = render_items(items, from + 1) + closing;
        assert(text =~= lead + (own + tail));
        lemma_render_then_read(item);
        lemma_expression_rest(own);
        lemma_trim(own);
        // What follows the item begins with a blank or with the parenthesis.
        assert(ends_alike(Seq::<char>::empty(), tail)) by {
            if from + 1 < items.len() {
                assert(tail[0] == ' ');
            } else {
                assert(tail[0] == ')');
            }
        }
        let framed = own + tail;
        assert(framed.skip(own.len() as int) =~= tail);
        lemma_frame_expression(own, framed, item, Seq::empty());
        lemma_leading_white_space(lead, framed);
        lemma_items_then_read(items, from + 1);
        assert(seq![item] + items.skip(from as int + 1) =~= items.skip(from as int));
    }
}

/// Whether a text can stand behind an item of a rendered list: it is empty,
/// or it begins with a blank or with a closing parenthesis.
pub open spec fn ends_item(tail: Seq<char>) -> bool {
    tail.len() == 0 || tail[0] == ' ' || tail[0] == ')'
}

/// Reading the text of a tree that holds no string, with `tail` behind it:
/// where the tree is what is read, reading stopped where the text of the
/// tree ends, and the tree is one that `is_readable` names.
pub proof fn lemma_read_ends_with_text(v: Value, tail: Seq<char>, rest: Seq<char>)
    requires
        is_string_free(v),
        ends_item(tail),
        expression(render(v) + tail) == Ok::<(Value, Seq<char>), Seq<char>>((v, rest)),
    ensures
        rest == tail,
        is_readable(v),
    decreases v, 0nat,
{
    let own = render(v);
    let s = own + tail;
    let t = trim(s);
    lemma_trim(s);
    lemma_expression_rest(s);
    match v {
        Value::Symbol(name) => {
            lemma_symbol_rest(t);
            lemma_symbol_len_bound(t);
            let k = symbol_len(t) as int;
            assert(t.take(k) == name);
            assert(t.take(k)[0] == t[0]);
            assert(s[0] == name[0]);
            assert(t =~= s);
            assert(s.skip(k) =~= tail);
            assert(ends_alike(rest, name.skip(k)));
            lemma_frame_symbol(s, name, name, rest);
            lemma_symbol_len_bound(name);
            assert(name.take(symbol_len(name) as int).len() == name.len());
        },
        Value::Number(n) => {
            if n < 0 {
                assert(s[0] == '-');
                lemma_trimmed(s);
                lemma_first_character(s);
            } else {
                lemma_digits(n as nat);
                assert(s[0] == own[0]);
                lemma_trimmed(s);
                lemma_first_character(s);
                lemma_words(s);
                assert forall|i: int| 0 <= i < own.len() implies CharClass::Digit.has(
                    #[trigger] s[i],
                ) by {
                    assert(s[i] == own[i]);
                }
                if own.len() < s.len() {
                    assert(s[own.len() as int] == tail[0]);
                }
                lemma_run_is(s, CharClass::Digit, own.len());
                assert(s.skip(own.len() as int) =~= tail);
            }
        },
        Value::Unevaluated(inner) => {
            assert(s[0] == '\'');
            lemma_trimmed(s);
            lemma_first_character(s);
            assert(s.skip(1) =~= render(*inner) + tail);
            lemma_read_ends_with_text(*inner, tail, rest);
        },
        Value::List(items) => {
            assert(s[0] == '(');
            lemma_trimmed(s);
            lemma_first_character(s);
            let closing = seq![')'];
            let after = elements(s.skip(1)).1;
            assert(s.skip(1) =~= render_items(items, 0) + closing + tail);
            assert(items.skip(0) =~= items);
            lemma_items_end_with_text(items, 0, tail, after);
            assert(after.skip(1) =~= tail);
        },
        Value::Void => {
            assert(s =~= tail);
        },
        Value::String(_) => {},
    }
}

/// Reading the texts of the items of a list from index `from` on, with the
/// closing parenthesis and `tail` behind them: where the items are what is
/// read, reading stopped at the parenthesis, and the items are such as
/// `is_readable` names.
pub proof fn lemma_items_end_with_text(
    items: Seq<Value>,
    from: nat,
    tail: Seq<char>,
    after: Seq<char>,
)
    requires
        forall|i: int| 0 <= i < items.len() ==> is_string_free(#[trigger] items[i]),
        from <= items.len(),
        elements(render_items(items, from) + seq![')'] + tail) == (
            items.skip(from as int),
            after,
        ),
    ensures
        after == seq![')'] + tail,
        forall|i: int| from <= i < items.len() ==> is_readable(#[trigger] items[i]),
    decreases items, items.len() - from,
{
    let closing = seq![')'];
    let text = render_items(items, from) + closing + tail;
    if from >= items.len() {
        assert(text =~= closing + tail);
        lemma_closing_parenthesis(text);
    } else {
        let item = items[from as int];
        let lead = if from == 0 {
            Seq::<char>::empty()
        } else {
            seq![' ']
        };
        let own = render(item);
        let behind = render_items(items, from + 1) + closing + tail;
        assert(text =~= lead + (own + behind));
        let wanted = items.skip(from as int);
        assert(wanted[0] == item);
        assert(wanted.skip(1) =~= items.skip(from as int + 1));
        lemma_elements_first(text, wanted, after);
        let found = expression(text)->Ok_0;
        let rest = found.1;
        lemma_leading_white_space(lead, own + behind);
        assert(ends_item(behind)) by {
            if from + 1 < items.len() {
                assert(behind[0] == ' ');
            } else {
                assert(behind[0] == ')');
            }
        }
        lemma_read_ends_with_text(item, behind, rest);
        lemma_items_end_with_text(items, from + 1, tail, after);
    }
}

/// Exactly the trees that `is_readable` names read back.
pub proof fn lemma_reads_back_exactly(v: Value)
    ensures
        is_readable(v) <==> parsed(render(v)) == Ok::<(Value, Seq<char>), Seq<char>>(
            (v, Seq::empty()),
        ),
{
    let nothing = Seq::<char>::empty();
    if is_readable(v) {
        lemma_render_then_read(v);
    }
    if parsed(render(v)) == Ok::<(Value, Seq<char>), Seq<char>>((v, nothing)) {
        let found = expression(render(v))->Ok_0;
        lemma_strings_do_not_read_back(v, found.1);
        assert(render(v) + nothing =~= render(v));
        lemma_read_ends_with_text(v, nothing, found.1);
    }
}

} // verus!
