//! Classes of characters and runs of them.

use vstd::prelude::*;

verus! {

/// Blank, tab, carriage return or line feed.
pub open spec fn is_space(c: char) -> bool {
    c == ' ' || c == '\t' || c == '\r' || c == '\n'
}

/// A decimal digit.
pub open spec fn is_digit(c: char) -> bool {
    '0' <= c && c <= '9'
}

/// A letter of the Latin alphabet, of either case.
pub open spec fn is_letter(c: char) -> bool {
    ('a' <= c && c <= 'z') || ('A' <= c && c <= 'Z')
}

/// One of the characters that operator symbols are made of.
pub open spec fn is_operator(c: char) -> bool {
    c == '>' || c == '<' || c == '+' || c == '-' || c == '*' || c == '/' || c == '%' || c == '='
}

/// A letter, a digit or an underscore.
pub open spec fn is_word(c: char) -> bool {
    is_letter(c) || is_digit(c) || c == '_'
}

/// A hexadecimal digit, of either case.
pub open spec fn is_hex(c: char) -> bool {
    is_digit(c) || ('a' <= c && c <= 'f') || ('A' <= c && c <= 'F')
}

/// Any character that stands for itself inside a string literal.
pub open spec fn is_plain(c: char) -> bool {
    c != '"' && c != '\\'
}

/// The sets of characters that the grammar scans runs of.
#[derive(Clone, Copy, Debug, PartialEq, Eq, Structural)]
pub enum CharClass {
    Space,
    Digit,
    Operator,
    Word,
    Hex,
    Plain,
}

impl CharClass {
    /// Whether `c` belongs to the class.
    pub open spec fn has(self, c: char) -> bool {
        match self {
            CharClass::Space => is_space(c),
            CharClass::Digit => is_digit(c),
            CharClass::Operator => is_operator(c),
            CharClass::Word => is_word(c),
            CharClass::Hex => is_hex(c),
            CharClass::Plain => is_plain(c),
        }
    }

    /// Whether `c` belongs to the class.
    pub fn contains(self, c: char) -> (res: bool)
        ensures
            res == self.has(c),
    {
        match self {
            CharClass::Space => c == ' ' || c == '\t' || c == '\r' || c == '\n',
            CharClass::Digit => is_digit_char(c),
            CharClass::Operator => c == '>' || c == '<' || c == '+' || c == '-' || c == '*'
                || c == '/' || c == '%' || c == '=',
            CharClass::Word => is_letter_char(c) || is_digit_char(c) || c == '_',
            CharClass::Hex => is_digit_char(c) || ('a' <= c && c <= 'f') || ('A' <= c && c <= 'F'),
            CharClass::Plain => c != '"' && c != '\\',
        }
    }
}

/// Whether `c` is a decimal digit.
pub fn is_digit_char(c: char) -> (res: bool)
    ensures
        res == is_digit(c),
{
    '0' <= c && c <= '9'
}

/// Whether `c` is a letter of the Latin alphabet.
pub fn is_letter_char(c: char) -> (res: bool)
    ensures
        res == is_letter(c),
{
    ('a' <= c && c <= 'z') || ('A' <= c && c <= 'Z')
}

/// The length of the longest prefix of `s` whose characters all belong to
/// `class`.
pub open spec fn run(s: Seq<char>, class: CharClass) -> nat
    decreases s.len(),
{
    if s.len() > 0 && class.has(s[0]) {
        1 + run(s.skip(1), class)
    } else {
        0
    }
}

/// `s` without its leading white space.
pub open spec fn trim(s: Seq<char>) -> Seq<char> {
    s.skip(run(s, CharClass::Space) as int)
}

/// Whether `rest` is what is left of `s` when some characters are taken from
/// its front.
pub open spec fn is_tail(rest: Seq<char>, s: Seq<char>) -> bool {
    rest.len() <= s.len() && s.skip(s.len() - rest.len()) == rest
}

/// How many characters were taken from the front of `s` to leave `rest`.
pub open spec fn taken(s: Seq<char>, rest: Seq<char>) -> int {
    s.len() - rest.len()
}

/// A run lies within the sequence, holds only characters of the class, and
/// ends at the end of the sequence or before a character outside the class.
pub proof fn lemma_run_bounds(s: Seq<char>, class: CharClass)
    ensures
        run(s, class) <= s.len(),
        forall|i: int| 0 <= i < run(s, class) ==> class.has(#[trigger] s[i]),
        run(s, class) < s.len() ==> !class.has(s[run(s, class) as int]),
    decreases s.len(),
{
    if s.len() > 0 && class.has(s[0]) {
        let tail = s.skip(1);
        lemma_run_bounds(tail, class);
        assert forall|i: int| 0 <= i < run(s, class) implies class.has(#[trigger] s[i]) by {
            if i > 0 {
                assert(s[i] == tail[i - 1]);
            }
        }
        if run(s, class) < s.len() {
            assert(s[run(s, class) as int] == tail[run(tail, class) as int]);
        }
    }
}

/// A prefix of `n` characters of the class that ends at the end of the
/// sequence or before a character outside the class is the run.
pub proof fn lemma_run_is(s: Seq<char>, class: CharClass, n: nat)
    requires
        n <= s.len(),
        forall|i: int| 0 <= i < n ==> class.has(#[trigger] s[i]),
        n < s.len() ==> !class.has(s[n as int]),
    ensures
        run(s, class) == n,
    decreases n,
{
    if n > 0 {
        let tail = s.skip(1);
        assert(class.has(s[0]));
        assert forall|i: int| 0 <= i < n - 1 implies class.has(#[trigger] tail[i]) by {
            assert(tail[i] == s[i + 1]);
        }
        if n < s.len() {
            assert(tail[n - 1] == s[n as int]);
        }
        lemma_run_is(tail, class, (n - 1) as nat);
    }
}

/// The run of a sequence is the run of any other sequence that agrees with
/// it on the run and on the character after it.
pub proof fn lemma_run_agrees(s: Seq<char>, other: Seq<char>, class: CharClass)
    requires
        run(s, class) <= other.len(),
        forall|i: int| 0 <= i < run(s, class) ==> other[i] == s[i],
        run(s, class) < other.len() ==> !class.has(other[run(s, class) as int]),
    ensures
        run(other, class) == run(s, class),
{
    lemma_run_bounds(s, class);
    lemma_run_is(other, class, run(s, class));
}

/// Where the run of characters of `class` that starts at `from` ends.
pub fn scan(chars: &[char], from: usize, class: CharClass) -> (end: usize)
    requires
        from <= chars.len(),
    ensures
        from <= end <= chars.len(),
        end - from == run(chars@.skip(from as int), class),
{
    let mut end = from;
    while end < chars.len() && class.contains(chars[end])
        invariant
            from <= end <= chars.len(),
            forall|i: int| from <= i < end ==> class.has(#[trigger] chars@[i]),
        decreases chars.len() - end,
    {
        end += 1;
    }
    proof {
        lemma_run_is(chars@.skip(from as int), class, (end - from) as nat);
    }
    end
}

} // verus!
