//! The grammar of expressions, as functions on sequences of characters.

use vstd::prelude::*;
use super::lexical::{lemma_run_bounds, trim, CharClass};
use super::number::number;
use super::string::string_literal;
use super::symbol::symbol;
use super::value::Value;

verus! {

/// What reading an expression from the front of a text gives: the tree and
/// the rest of the text, or, where no rule applies, the part of the text at
/// which reading stopped.
pub type Outcome = Result<(Value, Seq<char>), Seq<char>>;

/// The expression rule. White space in front is passed over. Then the rules
/// are tried in a fixed order, and the first that applies decides: quotation,
/// number, symbol, string, list. Where none applies, the failure is that of
/// the list rule.
pub open spec fn expression(s: Seq<char>) -> Outcome
    decreases s.len(), 2nat,
{
    let t = trim(s);
    proof {
        lemma_run_bounds(s, CharClass::Space);
    }
    if quotation(t) is Ok {
        quotation(t)
    } else if let Some((n, rest)) = number(t) {
        Ok((Value::Number(n), rest))
    } else if let Some((name, rest)) = symbol(t) {
        Ok((Value::Symbol(name), rest))
    } else if let Some((text, rest)) = string_literal(t) {
        Ok((Value::String(text), rest))
    } else {
        match list(t) {
            Ok((items, rest)) => Ok((Value::List(items), rest)),
            Err(at) => Err(at),
        }
    }
}

/// The quotation rule: an apostrophe and one expression.
pub open spec fn quotation(s: Seq<char>) -> Outcome
    decreases s.len(), 1nat,
{
    if s.len() > 0 && s[0] == '\'' {
        match expression(s.skip(1)) {
            Ok((v, rest)) => Ok((Value::Unevaluated(Box::new(v)), rest)),
            Err(at) => Err(at),
        }
    } else {
        Err(s)
    }
}

/// The list rule: an opening parenthesis, expressions as long as there are
/// any, and a closing parenthesis, which has to stand directly behind the
/// last expression.
pub open spec fn list(s: Seq<char>) -> Result<(Seq<Value>, Seq<char>), Seq<char>>
    decreases s.len(), 1nat,
{
    if s.len() > 0 && s[0] == '(' {
        let (items, rest) = elements(s.skip(1));
        if rest.len() > 0 && rest[0] == ')' {
            Ok((items, rest.skip(1)))
        } else {
            Err(rest)
        }
    } else {
        Err(s)
    }
}

/// The expressions at the front of a text, as many as can be read one
/// behind the other, and the rest of the text. (An expression always takes
/// at least one character, so the test on the lengths never fails; it is
/// there to show that the definition comes to an end.)
pub open spec fn elements(s: Seq<char>) -> (Seq<Value>, Seq<char>)
    decreases s.len(), 3nat,
{
    match expression(s) {
        Ok((v, rest)) => if rest.len() < s.len() {
            let (more, end) = elements(rest);
            (seq![v] + more, end)
        } else {
            (Seq::empty(), s)
        },
        Err(_) => (Seq::empty(), s),
    }
}

/// What `parse` gives for a text: one expression, and the rest of the text
/// without the white space that follows the expression.
pub open spec fn parsed(s: Seq<char>) -> Outcome {
    match expression(s) {
        Ok((v, rest)) => Ok((v, trim(rest))),
        Err(at) => Err(at),
    }
}

} // verus!
