//! The syntax tree and its type tags.

use vstd::prelude::*;

verus! {

/// The type tag of a value.
#[derive(Clone, Copy, Debug, PartialEq, Eq, Structural)]
pub enum LispType {
    Any,
    Symbol,
    String,
    List,
    Number,
    Void,
}

/// A node of the syntax tree.
#[derive(Debug, PartialEq)]
pub enum LispVal {
    Symbol(String),
    String(String),
    List(Vec<LispVal>),
    Number(i64),
    Unevaluated(Box<LispVal>),
    Void(),
}

/// The mathematical content of a `LispVal`: the same tree, with texts as
/// character sequences and lists as sequences of trees.
pub enum Value {
    Symbol(Seq<char>),
    String(Seq<char>),
    List(Seq<Value>),
    Number(i64),
    Unevaluated(Box<Value>),
    Void,
}

impl LispVal {
    /// The tree that this value stands for.
    pub open spec fn tree(&self) -> Value
        decreases self,
    {
        match self {
            LispVal::Symbol(name) => Value::Symbol(name@),
            LispVal::String(text) => Value::String(text@),
            LispVal::List(items) => Value::List(
                Seq::new(
                    items.len() as nat,
                    |i: int|
                        if 0 <= i < items.len() {
                            items[i].tree()
                        } else {
                            Value::Void
                        },
                ),
            ),
            LispVal::Number(n) => Value::Number(*n),
            LispVal::Unevaluated(inner) => Value::Unevaluated(Box::new(inner.tree())),
            LispVal::Void() => Value::Void,
        }
    }
}

/// The trees that a sequence of values stands for.
pub open spec fn trees(items: Seq<LispVal>) -> Seq<Value> {
    Seq::new(items.len(), |i: int| items[i]@)
}

/// A list stands for the list of what its items stand for.
pub proof fn lemma_list_view(items: Vec<LispVal>)
    ensures
        LispVal::List(items)@ == Value::List(trees(items@)),
{
    assert(LispVal::List(items).tree()->List_0 =~= trees(items@));
}

impl View for LispVal {
    type V = Value;

    open spec fn view(&self) -> Value {
        self.tree()
    }
}

impl Value {
    /// The type tag of a tree; a quoted tree has the tag of what it quotes.
    pub open spec fn type_tag(self) -> LispType
        decreases self,
    {
        match self {
            Value::Symbol(_) => LispType::Symbol,
            Value::String(_) => LispType::String,
            Value::List(_) => LispType::List,
            Value::Number(_) => LispType::Number,
            Value::Unevaluated(inner) => inner.type_tag(),
            Value::Void => LispType::Void,
        }
    }
}

/// Whether a tree holds no string.
pub open spec fn is_string_free(v: Value) -> bool
    decreases v,
{
    match v {
        Value::String(_) => false,
        Value::List(items) => forall|i: int|
            0 <= i < items.len() ==> is_string_free(#[trigger] items[i]),
        Value::Unevaluated(inner) => is_string_free(*inner),
        _ => true,
    }
}

impl LispVal {
    /// The number, where this is a number.
    pub fn as_number(&self) -> (res: Option<i64>)
        ensures
            res == (match self@ {
                Value::Number(n) => Some(n),
                _ => None,
            }),
    {
        if let LispVal::Number(v) = self {
            Some(*v)
        } else {
            None
        }
    }

    /// The text, where this is a string.
    pub fn as_string(&self) -> (res: Option<String>)
        ensures
            match self@ {
                Value::String(text) => res matches Some(s) && s@ == text,
                _ => res is None,
            },
    {
        if let LispVal::String(v) = self {
            Some(v.clone())
        } else {
            None
        }
    }

    /// The items, where this is a list.
    pub fn as_list(&self) -> (res: Option<Vec<LispVal>>)
        ensures
            match self@ {
                Value::List(items) => res matches Some(v) && trees(v@) == items,
                _ => res is None,
            },
    {
        if let LispVal::List(v) = self {
            proof {
                lemma_list_view(*v);
            }
            Some(clone_items(v))
        } else {
            None
        }
    }

    /// The type tag; a quoted value has the tag of what it quotes.
    pub fn to_type(&self) -> (res: LispType)
        ensures
            res == self@.type_tag(),
        decreases self,
    {
        match self {
            LispVal::Void() => LispType::Void,
            LispVal::Symbol(_) => LispType::Symbol,
            LispVal::Number(_) => LispType::Number,
            LispVal::String(_) => LispType::String,
            LispVal::List(_) => LispType::List,
            LispVal::Unevaluated(v) => v.to_type(),
        }
    }
}

/// A copy of each item, in order.
fn clone_items(items: &Vec<LispVal>) -> (res: Vec<LispVal>)
    ensures
        trees(res@) == trees(items@),
    decreases items,
{
    let mut res: Vec<LispVal> = Vec::new();
    let mut i: usize = 0;
    while i < items.len()
        invariant
            i <= items.len(),
            res.len() == i,
            forall|j: int| 0 <= j < i ==> res[j]@ == items[j]@,
        decreases items.len() - i,
    {
        res.push(items[i].clone());
        i += 1;
    }
    assert(trees(res@) =~= trees(items@));
    res
}

impl Clone for LispVal {
    fn clone(&self) -> (res: Self)
        ensures
            res@ == self@,
        decreases self,
    {
        match self {
            LispVal::Symbol(name) => LispVal::Symbol(name.clone()),
            LispVal::String(text) => LispVal::String(text.clone()),
            LispVal::List(items) => {
                let copies = clone_items(items);
                proof {
                    lemma_list_view(*items);
                    lemma_list_view(copies);
                }
                LispVal::List(copies)
            },
            LispVal::Number(n) => LispVal::Number(*n),
            LispVal::Unevaluated(inner) => LispVal::Unevaluated(Box::new((&**inner).clone())),
            LispVal::Void() => LispVal::Void(),
        }
    }
}

} // verus!
