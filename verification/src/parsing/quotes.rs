//! Why no tree that holds a string comes back from its text.

use vstd::prelude::*;
use super::facts::{
    lemma_elements_first, lemma_elements_rest, lemma_expression_rest, lemma_first_character,
    lemma_fragments_length, lemma_fragments_rest, lemma_string_rest, lemma_trim,
};
use super::grammar::{elements, expression};
use super::lexical::{is_digit, lemma_run_bounds, run, trim, CharClass};
use super::render::{lemma_digits, render, render_items};
use super::string::fragments;
use super::symbol::{lemma_symbol_len_bound, symbol_len};
use super::value::{is_string_free, Value};

verus! {

/// Whether no double quote stands in `s` at the offsets from `lo` up to,
/// but not at, `hi`.
pub open spec fn no_quote(s: Seq<char>, lo: int, hi: int) -> bool {
    forall|x: int| lo <= x < hi ==> #[trigger] s[x] != '"'
}

/// Whether `part` stands in `s` at offset `at`.
pub open spec fn placed(s: Seq<char>, at: int, part: Seq<char>) -> bool {
    0 <= at && at + part.len() <= s.len() && forall|j: int|
        0 <= j < part.len() ==> s[at + j] == #[trigger] part[j]
}

/// What is known, while the text of a tree is read again, of the strings met
/// so far: whether there was one, where the text of the last one ends, and
/// where the literal ends that was read for it.
pub struct Mark {
    pub seen: bool,
    pub text_end: int,
    pub literal_end: int,
}

/// What holds while the text `s` of a tree is read again, when the part of
/// the tree that comes next has its own text at offset `at` and is read at
/// offset `pos`: there is no double quote between the text of the last
/// string and `at`; and the literal read for the last string ends behind
/// that text, with its closing quote.
pub open spec fn traced(s: Seq<char>, mark: Mark, at: int, pos: int) -> bool {
    &&& 0 <= mark.text_end <= at <= s.len()
    &&& 0 <= pos <= s.len()
    &&& no_quote(s, mark.text_end, at)
    &&& !mark.seen ==> mark.text_end == 0
    &&& mark.seen ==> mark.text_end < mark.literal_end <= pos && s[mark.literal_end - 1] == '"'
}

/// Whether the items from index `from` on hold no string.
pub open spec fn are_string_free(items: Seq<Value>, from: int) -> bool {
    forall|i: int| from <= i < items.len() ==> is_string_free(#[trigger] items[i])
}

/// A symbol holds no double quote.
pub proof fn lemma_symbol_has_no_quote(s: Seq<char>)
    ensures
        forall|j: int| 0 <= j < symbol_len(s) ==> #[trigger] s[j] != '"',
{
    lemma_run_bounds(s, CharClass::Operator);
    if s.len() > 0 {
        let tail = s.skip(1);
        lemma_run_bounds(tail, CharClass::Word);
        assert forall|j: int| 0 <= j < symbol_len(s) implies #[trigger] s[j] != '"' by {
            if run(s, CharClass::Operator) == 0 && 0 < j <= run(tail, CharClass::Word) {
                assert(s[j] == tail[j - 1]);
            }
        }
    }
}

/// Reading the text of a tree again, one part of the tree: what holds
/// before the part is read holds behind it, and a string was met if one was
/// met before or the part holds one.
pub proof fn lemma_trace_expression(
    s: Seq<char>,
    v: Value,
    at: int,
    pos: int,
    end: int,
    mark: Mark,
) -> (out: Mark)
    requires
        traced(s, mark, at, pos),
        placed(s, at, render(v)),
        pos <= end <= s.len(),
        expression(s.skip(pos)) == Ok::<(Value, Seq<char>), Seq<char>>((v, s.skip(end))),
    ensures
        traced(s, out, at + render(v).len(), end),
        out.seen == (mark.seen || !is_string_free(v)),
    decreases v, 0nat,
{
    let x = s.skip(pos);
    let m = run(x, CharClass::Space) as int;
    let t = trim(x);
    let own = render(v);
    lemma_trim(x);
    lemma_expression_rest(x);
    lemma_run_bounds(x, CharClass::Space);
    assert(t =~= s.skip(pos + m));
    lemma_first_character(t);
    match v {
        Value::Symbol(name) => {
            lemma_symbol_has_no_quote(t);
            lemma_symbol_len_bound(t);
            let k = symbol_len(t) as int;
            assert(t.take(k) == name);
            assert forall|y: int| at <= y < at + own.len() implies #[trigger] s[y] != '"' by {
                let j = y - at;
                assert(own[j] == t.take(k)[j]);
                assert(s[at + j] == own[j]);
            }
            mark
        },
        Value::Number(n) => {
            lemma_digits(n as nat);
            assert forall|y: int| at <= y < at + own.len() implies #[trigger] s[y] != '"' by {
                let j = y - at;
                assert(is_digit(own[j]));
                assert(s[at + j] == own[j]);
            }
            mark
        },
        Value::Unevaluated(inner) => {
            let quoted = render(*inner);
            assert(own[0] == '\'');
            assert(s[at + 0] == own[0]);
            assert forall|j: int| 0 <= j < quoted.len() implies s[at + 1 + j]
                == #[trigger] quoted[j] by {
                assert(own[j + 1] == quoted[j]);
                assert(s[at + (j + 1)] == own[j + 1]);
            }
            assert(t.skip(1) =~= s.skip(pos + m + 1));
            lemma_trace_expression(s, *inner, at + 1, pos + m + 1, end, mark)
        },
        Value::List(items) => {
            let inside = t.skip(1);
            let listed = render_items(items, 0);
            let after = elements(inside).1;
            lemma_elements_rest(inside);
            let after_pos = s.len() - after.len();
            assert(inside =~= s.skip(pos + m + 1));
            assert(after =~= s.skip(after_pos));
            assert(after.skip(1).len() == s.skip(end).len());
            assert(own[0] == '(');
            assert(s[at + 0] == own[0]);
            assert forall|j: int| 0 <= j < listed.len() implies s[at + 1 + j]
                == #[trigger] listed[j] by {
                assert(own[j + 1] == listed[j]);
                assert(s[at + (j + 1)] == own[j + 1]);
            }
            assert(items.skip(0) =~= items);
            let out = lemma_trace_elements(s, items, 0, at + 1, pos + m + 1, after_pos, mark);
            let last = listed.len() as int + 1;
            assert(own[last] == ')');
            assert(s[at + last] == own[last]);
            out
        },
        Value::String(content) => {
            let inside = t.skip(1);
            let after = fragments(inside).1;
            lemma_string_rest(t);
            lemma_fragments_rest(inside);
            lemma_fragments_length(inside);
            let first = pos + m;
            let after_pos = s.len() - after.len();
            assert(inside =~= s.skip(first + 1));
            assert(after =~= s.skip(after_pos));
            assert(after.skip(1).len() == s.skip(end).len());
            assert(s[first] == t[0]);
            assert(s[end - 1] == after[0]);
            Mark { seen: true, text_end: at + content.len(), literal_end: end }
        },
        Value::Void => mark,
    }
}

/// Reading the text of a tree again, the items of a list from index `from`
/// on: what holds before they are read holds behind them, and a string was
/// met if one was met before or one of the items holds one.
pub proof fn lemma_trace_elements(
    s: Seq<char>,
    items: Seq<Value>,
    from: nat,
    at: int,
    pos: int,
    end: int,
    mark: Mark,
) -> (out: Mark)
    requires
        from <= items.len(),
        traced(s, mark, at, pos),
        placed(s, at, render_items(items, from)),
        pos <= end <= s.len(),
        elements(s.skip(pos)) == (items.skip(from as int), s.skip(end)),
    ensures
        traced(s, out, at + render_items(items, from).len(), end),
        out.seen == (mark.seen || !are_string_free(items, from as int)),
    decreases items, items.len() - from,
{
    let x = s.skip(pos);
    let wanted = items.skip(from as int);
    lemma_expression_rest(x);
    lemma_trim(x);
    if from >= items.len() {
        assert(wanted.len() == 0);
        assert(s.skip(end).len() == x.len());
        mark
    } else {
        let item = items[from as int];
        let own = render(item);
        let listed = render_items(items, from);
        let behind = render_items(items, from + 1);
        let lead: int = if from == 0 {
            0
        } else {
            1
        };
        assert(wanted[0] == item);
        assert(wanted.skip(1) =~= items.skip(from as int + 1));
        lemma_elements_first(x, wanted, s.skip(end));
        let found = expression(x)->Ok_0;
        let mid = found.1;
        let mid_pos = s.len() - mid.len();
        assert(mid =~= s.skip(mid_pos));
        lemma_elements_rest(mid);
        assert(mid_pos <= end) by {
            assert(s.skip(end).len() <= mid.len());
        }
        if from > 0 {
            assert(listed[0] == ' ');
            assert(s[at + 0] == listed[0]);
        }
        assert forall|j: int| 0 <= j < own.len() implies s[at + lead + j] == #[trigger] own[j] by {
            assert(listed[lead + j] == own[j]);
            assert(s[at + (lead + j)] == listed[lead + j]);
        }
        let next = lemma_trace_expression(s, item, at + lead, pos, mid_pos, mark);
        let reached = at + lead + own.len();
        assert forall|j: int| 0 <= j < behind.len() implies s[reached + j]
            == #[trigger] behind[j] by {
            assert(listed[lead + own.len() + j] == behind[j]);
            assert(s[at + (lead + own.len() + j)] == listed[lead + own.len() + j]);
        }
        let out = lemma_trace_elements(s, items, from + 1, reached, mid_pos, end, next);
        assert(are_string_free(items, from as int) == (is_string_free(item) && are_string_free(
            items,
            from as int + 1,
        )));
        out
    }
}

/// No tree that holds a string reads back. The double quotes of its text
/// all stand in the texts of its strings. The literal read for a string is
/// longer than the text of the string by its two quotes, at the least, and
/// begins no earlier, so it ends behind that text: with a quote that has to
/// stand in the text of a later string. For the last string there is none.
pub proof fn lemma_strings_do_not_read_back(v: Value, rest: Seq<char>)
    requires
        expression(render(v)) == Ok::<(Value, Seq<char>), Seq<char>>((v, rest)),
    ensures
        is_string_free(v),
{
    let s = render(v);
    lemma_expression_rest(s);
    let end = s.len() - rest.len();
    assert(s.skip(0) =~= s);
    assert(rest =~= s.skip(end));
    let start = Mark { seen: false, text_end: 0, literal_end: 0 };
    let out = lemma_trace_expression(s, v, 0, 0, end, start);
    if out.seen {
        assert(s[out.literal_end - 1] != '"');
    }
}

} // verus!
