//! The reader: the syntax tree, the grammar, and the functions that read a
//! text by the grammar.

pub mod facts;
pub mod framing;
pub mod grammar;
pub mod laws;
pub mod lexical;
pub mod number;
pub mod quotes;
pub mod render;
pub mod roundtrip;
pub mod string;
pub mod symbol;
pub mod text;
pub mod value;

pub use number::parse_number;
pub use string::parse_string;
pub use symbol::parse_symbol;
pub use value::{LispType, LispVal, Value};

use grammar::{elements, expression, list, parsed, quotation};
use laws::lemma_parse_makes_progress;
use lexical::{is_tail, scan, taken, CharClass};
use text::{rest_of, to_chars};
use value::{lemma_list_view, trees};
use vstd::prelude::*;

verus! {

/// Why a text could not be read: no rule of the grammar applies at
/// `position`, counted in characters from the start of the text.
#[derive(Clone, Copy, Debug, PartialEq, Eq, Structural)]
pub struct ParseError {
    pub position: usize,
}

/// Reads a quotation at `pos`: the quoted value and where the rest begins,
/// or the place at which reading stopped.
pub fn parse_unevaluated(chars: &[char], pos: usize) -> (res: Result<(LispVal, usize), usize>)
    requires
        pos <= chars.len(),
    ensures
        match quotation(chars@.skip(pos as int)) {
            Ok((v, rest)) => res matches Ok((val, end)) && val@ == v && pos < end <= chars.len()
                && chars@.skip(end as int) == rest && end - pos == taken(
                chars@.skip(pos as int),
                rest,
            ),
            Err(at) => res matches Err(e) && pos <= e <= chars.len() && chars@.skip(e as int)
                == at && e - pos == taken(chars@.skip(pos as int), at),
        },
    decreases chars.len() - pos, 1nat,
{
    if pos < chars.len() && chars[pos] == '\'' {
        assert(chars@.skip(pos as int).skip(1) == chars@.skip(pos + 1));
        match parse_expression(chars, pos + 1) {
            Ok((v, end)) => Ok((LispVal::Unevaluated(Box::new(v)), end)),
            Err(e) => Err(e),
        }
    } else {
        Err(pos)
    }
}

/// Reads a list at `pos`: its items and where the rest begins, or the place
/// at which reading stopped.
pub fn parse_list(chars: &[char], pos: usize) -> (res: Result<(Vec<LispVal>, usize), usize>)
    requires
        pos <= chars.len(),
    ensures
        match list(chars@.skip(pos as int)) {
            Ok((items, rest)) => res matches Ok((vals, end)) && trees(vals@) == items && pos
                < end <= chars.len() && chars@.skip(end as int) == rest && end - pos == taken(
                chars@.skip(pos as int),
                rest,
            ),
            Err(at) => res matches Err(e) && pos <= e <= chars.len() && chars@.skip(e as int)
                == at && e - pos == taken(chars@.skip(pos as int), at),
        },
    decreases chars.len() - pos, 1nat,
{
    if !(pos < chars.len() && chars[pos] == '(') {
        return Err(pos);
    }
    let ghost inside = chars@.skip(pos as int).skip(1);
    assert(inside == chars@.skip(pos + 1));
    let mut items: Vec<LispVal> = Vec::new();
    let mut i: usize = pos + 1;
    assert(trees(items@) + elements(inside).0 == elements(inside).0);
    loop
        invariant
            pos < i <= chars.len(),
            elements(inside).0 == trees(items@) + elements(chars@.skip(i as int)).0,
            elements(inside).1 == elements(chars@.skip(i as int)).1,
        ensures
            pos < i <= chars.len(),
            elements(inside) == (trees(items@), chars@.skip(i as int)),
        decreases chars.len() - i,
    {
        let ghost before = trees(items@);
        match parse_expression(chars, i) {
            Ok((v, end)) => {
                items.push(v);
                proof {
                    let more = elements(chars@.skip(end as int)).0;
                    assert(trees(items@) == before + seq![v@]);
                    assert(before + (seq![v@] + more) == (before + seq![v@]) + more);
                }
                i = end;
            },
            Err(_) => {
                assert(trees(items@) + Seq::<Value>::empty() == trees(items@));
                break ;
            },
        }
    }
    if i < chars.len() && chars[i] == ')' {
        assert(chars@.skip(i as int).skip(1) == chars@.skip(i + 1));
        Ok((items, i + 1))
    } else {
        Err(i)
    }
}

/// Reads one expression at `pos`: the value and where the rest begins, or
/// the place at which reading stopped. Quotations and lists are read by
/// recursion, as deep as they are nested in the text.
pub fn parse_expression(chars: &[char], pos: usize) -> (res: Result<(LispVal, usize), usize>)
    requires
        pos <= chars.len(),
    ensures
        match expression(chars@.skip(pos as int)) {
            Ok((v, rest)) => res matches Ok((val, end)) && val@ == v && pos < end <= chars.len()
                && chars@.skip(end as int) == rest && end - pos == taken(
                chars@.skip(pos as int),
                rest,
            ),
            Err(at) => res matches Err(e) && pos <= e <= chars.len() && chars@.skip(e as int)
                == at && e - pos == taken(chars@.skip(pos as int), at),
        },
    decreases chars.len() - pos, 2nat,
{
    let start = scan(chars, pos, CharClass::Space);
    assert(chars@.skip(start as int) == lexical::trim(chars@.skip(pos as int)));
    if let Ok((v, end)) = parse_unevaluated(chars, start) {
        return Ok((v, end));
    }
    if let Some((n, end)) = parse_number(chars, start) {
        return Ok((LispVal::Number(n), end));
    }
    if let Some((name, end)) = parse_symbol(chars, start) {
        return Ok((LispVal::Symbol(name), end));
    }
    if let Some((text, end)) = parse_string(chars, start) {
        return Ok((LispVal::String(text), end));
    }
    match parse_list(chars, start) {
        Ok((items, end)) => {
            proof {
                lemma_list_view(items);
            }
            Ok((LispVal::List(items), end))
        },
        Err(e) => Err(e),
    }
}

/// Reads one expression from the front of `input` and passes over the white
/// space behind it. Returns what is left of the input and the value read,
/// or, where no rule of the grammar applies, the place of the failure.
pub fn parse(input: &str) -> (res: Result<(&str, LispVal), ParseError>)
    ensures
        match parsed(input@) {
            Ok((v, rest)) => res matches Ok((left, val)) && left@ == rest && val@ == v,
            Err(at) => res matches Err(e) && e.position <= input@.len() && input@.skip(
                e.position as int,
            ) == at && e.position == taken(input@, at),
        },
        res matches Ok((left, _)) ==> is_tail(left@, input@) && left@.len() < input@.len(),
{
    proof {
        lemma_parse_makes_progress(input@);
    }
    let chars = to_chars(input);
    assert(chars@.skip(0) == input@);
    match parse_expression(chars.as_slice(), 0) {
        Ok((val, end)) => {
            let stop = scan(chars.as_slice(), end, CharClass::Space);
            Ok((rest_of(input, stop, chars.len()), val))
        },
        Err(e) => Err(ParseError { position: e }),
    }
}

} // verus!
