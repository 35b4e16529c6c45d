//! The text of a tree.

use vstd::prelude::*;
use vstd::string::*;
use super::lexical::is_digit;
use super::number::{decimal, digit_value};
use super::value::{lemma_list_view, trees, LispType, LispVal, Value};

verus! {

/// The character that stands for the digit `d`.
pub open spec fn digit_char(d: nat) -> char {
    ('0' as nat + d) as char
}

/// A natural number in decimal digits, without leading zeros.
pub open spec fn digits(n: nat) -> Seq<char>
    decreases n,
{
    if n < 10 {
        seq![digit_char(n)]
    } else {
        digits(n / 10).push(digit_char(n % 10))
    }
}

/// The digits of a number spell the number.
pub proof fn lemma_digits(n: nat)
    ensures
        digits(n).len() >= 1,
        forall|i: int| 0 <= i < digits(n).len() ==> is_digit(#[trigger] digits(n)[i]),
        decimal(digits(n)) == n,
    decreases n,
{
    if n < 10 {
        let one = seq![digit_char(n)];
        assert(one.drop_last() =~= Seq::<char>::empty());
        assert(decimal(one.drop_last()) == 0);
        assert(digit_value(one.last()) == n);
    } else {
        lemma_digits(n / 10);
        let all = digits(n);
        assert(all.drop_last() =~= digits(n / 10));
        assert(digit_value(all.last()) == n % 10);
    }
}

/// An integer in decimal digits, with a minus sign in front where it is
/// negative.
pub open spec fn numeral(n: int) -> Seq<char> {
    if n < 0 {
        seq!['-'] + digits((-n) as nat)
    } else {
        digits(n as nat)
    }
}

/// The text of a tree. A symbol and a string are their own text, a number is
/// its numeral, a quoted tree is an apostrophe and the text of the tree, a
/// list is the texts of its items between parentheses with one blank between
/// two items, and the void value has no text.
pub open spec fn render(v: Value) -> Seq<char>
    decreases v, 0nat,
{
    match v {
        Value::Symbol(name) => name,
        Value::String(text) => text,
        Value::List(items) => seq!['('] + render_items(items, 0) + seq![')'],
        Value::Number(n) => numeral(n as int),
        Value::Unevaluated(inner) => seq!['\''] + render(*inner),
        Value::Void => Seq::empty(),
    }
}

/// The texts of the items from index `from` on: the item at index 0 as it
/// is, each later item with one blank in front.
pub open spec fn render_items(items: Seq<Value>, from: nat) -> Seq<char>
    decreases items, items.len() - from,
{
    if from >= items.len() {
        Seq::empty()
    } else if from == 0 {
        render(items[0]) + render_items(items, 1)
    } else {
        seq![' '] + render(items[from as int]) + render_items(items, from + 1)
    }
}

impl LispType {
    /// The name of the type tag, in lower case.
    pub open spec fn name(self) -> Seq<char> {
        match self {
            LispType::Any => seq!['a', 'n', 'y'],
            LispType::Symbol => seq!['s', 'y', 'm', 'b', 'o', 'l'],
            LispType::String => seq!['s', 't', 'r', 'i', 'n', 'g'],
            LispType::List => seq!['l', 'i', 's', 't'],
            LispType::Number => seq!['n', 'u', 'm', 'b', 'e', 'r'],
            LispType::Void => seq!['v', 'o', 'i', 'd'],
        }
    }

    /// The name of the type tag.
    pub fn to_string(&self) -> (res: String)
        ensures
            res@ == self.name(),
    {
        match self {
            LispType::Any => {
                proof {
                    reveal_strlit("any");
                }
                assert("any"@ =~= self.name());
                "any".to_owned()
            },
            LispType::Symbol => {
                proof {
                    reveal_strlit("symbol");
                }
                assert("symbol"@ =~= self.name());
                "symbol".to_owned()
            },
            LispType::String => {
                proof {
                    reveal_strlit("string");
                }
                assert("string"@ =~= self.name());
                "string".to_owned()
            },
            LispType::List => {
                proof {
                    reveal_strlit("list");
                }
                assert("list"@ =~= self.name());
                "list".to_owned()
            },
            LispType::Number => {
                proof {
                    reveal_strlit("number");
                }
                assert("number"@ =~= self.name());
                "number".to_owned()
            },
            LispType::Void => {
                proof {
                    reveal_strlit("void");
                }
                assert("void"@ =~= self.name());
                "void".to_owned()
            },
        }
    }
}

/// Appends the decimal digits of `n` to `text`.
fn push_digits(text: &mut String, n: u64)
    ensures
        final(text)@ == old(text)@ + digits(n as nat),
    decreases n,
{
    if n >= 10 {
        push_digits(text, n / 10);
    }
    let d: u8 = (n % 10) as u8;
    let c: char = (48u8 + d) as char;
    assert(c == digit_char((n % 10) as nat));
    text.push(c);
    assert(text@ == old(text)@ + digits(n as nat));
}

/// Appends the numeral of `n` to `text`.
fn push_numeral(text: &mut String, n: i64)
    ensures
        final(text)@ == old(text)@ + numeral(n as int),
{
    if n < 0 {
        text.push('-');
        let magnitude: u64 = (-(n + 1)) as u64 + 1;
        push_digits(text, magnitude);
        assert(text@ == old(text)@ + numeral(n as int));
    } else {
        push_digits(text, n as u64);
    }
}

/// Appends the texts of the items to `text`, with one blank between two
/// items.
fn write_items(items: &Vec<LispVal>, text: &mut String)
    ensures
        final(text)@ == old(text)@ + render_items(trees(items@), 0),
    decreases items,
{
    let ghost all = trees(items@);
    let mut i: usize = 0;
    while i < items.len()
        invariant
            i <= items.len(),
            all == trees(items@),
            text@ + render_items(all, i as nat) == old(text)@ + render_items(all, 0),
        decreases items.len() - i,
    {
        let ghost before = text@;
        if i > 0 {
            text.push(' ');
        }
        items[i].write_to(text);
        proof {
            let item = render(all[i as int]);
            let more = render_items(all, (i + 1) as nat);
            if i > 0 {
                assert(text@ + more == before + (seq![' '] + item + more));
            } else {
                assert(text@ + more == before + (item + more));
            }
        }
        i += 1;
    }
    assert(text@ + render_items(all, i as nat) == text@);
}

impl LispVal {
    /// Appends the text of this value to `text`.
    pub fn write_to(&self, text: &mut String)
        ensures
            final(text)@ == old(text)@ + render(self@),
        decreases self,
    {
        match self {
            LispVal::Symbol(name) => {
                text.append(name.as_str());
            },
            LispVal::String(content) => {
                text.append(content.as_str());
            },
            LispVal::List(items) => {
                proof {
                    lemma_list_view(*items);
                }
                text.push('(');
                write_items(items, text);
                text.push(')');
                assert(text@ == old(text)@ + (seq!['('] + render_items(trees(items@), 0) + seq![
                    ')',
                ]));
            },
            LispVal::Number(n) => {
                push_numeral(text, *n);
            },
            LispVal::Unevaluated(inner) => {
                text.push('\'');
                inner.write_to(text);
                assert(text@ == old(text)@ + (seq!['\''] + render(inner@)));
            },
            LispVal::Void() => {
                assert(old(text)@ + Seq::<char>::empty() == old(text)@);
            },
        }
    }

    /// The text of this value.
    pub fn to_string(&self) -> (res: String)
        ensures
            res@ == render(self@),
    {
        let mut text = String::new();
        self.write_to(&mut text);
        assert(Seq::<char>::empty() + render(self@) == render(self@));
        text
    }
}

} // verus!
