use flow_lang::parsing::{parse, parse_expression, LispType, LispVal, ParseError};

fn sym(name: &str) -> LispVal {
    LispVal::Symbol(name.to_string())
}

fn num(n: i64) -> LispVal {
    LispVal::Number(n)
}

fn quote(v: LispVal) -> LispVal {
    LispVal::Unevaluated(Box::new(v))
}

fn failure(position: usize) -> Result<(&'static str, LispVal), ParseError> {
    Err(ParseError { position })
}

#[test]
fn number_literal() {
    assert_eq!(parse("42"), Ok(("", num(42))));
}

#[test]
fn boolean_words_are_numbers() {
    assert_eq!(parse("true"), Ok(("", num(1))));
    assert_eq!(parse("false"), Ok(("", num(0))));
}

#[test]
fn boolean_word_is_taken_from_the_front_of_a_longer_word() {
    assert_eq!(parse("truex"), Ok(("x", num(1))));
    assert_eq!(parse("falsehood"), Ok(("hood", num(0))));
    assert_eq!(parse("(truex)"), Ok(("", LispVal::List(vec![num(1), sym("x")]))));
}

#[test]
fn words_that_only_resemble_booleans_are_symbols() {
    assert_eq!(parse("tru"), Ok(("", sym("tru"))));
    assert_eq!(parse("True"), Ok(("", sym("True"))));
    assert_eq!(parse("fals e"), Ok(("e", sym("fals"))));
}

#[test]
fn empty_list() {
    assert_eq!(parse("()"), Ok(("", LispVal::List(vec![]))));
}

#[test]
fn list_of_atoms() {
    assert_eq!(
        parse("(+ 1 2)"),
        Ok(("", LispVal::List(vec![sym("+"), num(1), num(2)])))
    );
}

#[test]
fn nested_lists() {
    assert_eq!(
        parse("(a (b (c)) ())"),
        Ok((
            "",
            LispVal::List(vec![
                sym("a"),
                LispVal::List(vec![sym("b"), LispVal::List(vec![sym("c")])]),
                LispVal::List(vec![]),
            ])
        ))
    );
}

#[test]
fn items_need_no_blank_where_the_rules_tell_them_apart() {
    assert_eq!(
        parse("(a(b)1+)"),
        Ok((
            "",
            LispVal::List(vec![sym("a"), LispVal::List(vec![sym("b")]), num(1), sym("+")])
        ))
    );
}

#[test]
fn symbol_with_question_mark() {
    assert_eq!(parse("foo?"), Ok(("", sym("foo?"))));
}

#[test]
fn only_one_question_mark_belongs_to_a_symbol() {
    assert_eq!(parse("foo??"), Ok(("?", sym("foo?"))));
    assert_eq!(parse("a?b"), Ok(("b", sym("a?"))));
}

#[test]
fn identifiers() {
    assert_eq!(parse("_"), Ok(("", sym("_"))));
    assert_eq!(parse("_a1_b2"), Ok(("", sym("_a1_b2"))));
    assert_eq!(parse("x1"), Ok(("", sym("x1"))));
    assert_eq!(parse("abc-def"), Ok(("-def", sym("abc"))));
}

#[test]
fn operator_run_is_one_symbol() {
    assert_eq!(parse(">="), Ok(("", sym(">="))));
    assert_eq!(parse("+-*/%=<>"), Ok(("", sym("+-*/%=<>"))));
    assert_eq!(parse("-5"), Ok(("5", sym("-"))));
}

#[test]
fn quote_nesting() {
    assert_eq!(parse("''x"), Ok(("", quote(quote(sym("x"))))));
    assert_eq!(
        parse("'(a b)"),
        Ok(("", quote(LispVal::List(vec![sym("a"), sym("b")]))))
    );
}

#[test]
fn white_space_may_follow_the_apostrophe() {
    assert_eq!(parse("' \n x"), Ok(("", quote(sym("x")))));
}

#[test]
fn number_too_large_for_64_bits_fails() {
    assert_eq!(parse("99999999999999999999"), failure(0));
    assert_eq!(parse("  99999999999999999999"), failure(2));
    assert_eq!(parse("9223372036854775808"), failure(0));
}

#[test]
fn largest_number() {
    assert_eq!(parse("9223372036854775807"), Ok(("", num(i64::MAX))));
}

#[test]
fn leading_zeros_do_not_count() {
    assert_eq!(parse("007"), Ok(("", num(7))));
    assert_eq!(parse("0000000000000000000000000012"), Ok(("", num(12))));
    assert_eq!(parse("0"), Ok(("", num(0))));
}

#[test]
fn number_ends_where_the_digits_end() {
    assert_eq!(parse("12ab"), Ok(("ab", num(12))));
    assert_eq!(parse("1.5"), Ok((".5", num(1))));
}

#[test]
fn one_expression_per_call() {
    assert_eq!(parse("a b c"), Ok(("b c", sym("a"))));
    assert_eq!(parse("b c"), Ok(("c", sym("b"))));
    assert_eq!(parse("c"), Ok(("", sym("c"))));
}

#[test]
fn white_space_around_the_expression_is_passed_over() {
    assert_eq!(parse(" \t\r\n 42 \t\r\n "), Ok(("", num(42))));
    assert_eq!(parse("(  a\n\tb )x"), failure(7));
    assert_eq!(parse("(  a\n\tb)  x"), Ok(("x", LispVal::List(vec![sym("a"), sym("b")]))));
}

#[test]
fn no_white_space_before_the_closing_parenthesis() {
    assert_eq!(parse("(1 2 )"), failure(4));
    assert_eq!(parse("( )"), failure(1));
    assert_eq!(parse("( 1 2)"), Ok(("", LispVal::List(vec![num(1), num(2)]))));
}

#[test]
fn empty_and_blank_input_fail() {
    assert_eq!(parse(""), failure(0));
    assert_eq!(parse("   "), failure(3));
}

#[test]
fn unexpected_character_fails_where_it_stands() {
    assert_eq!(parse(")"), failure(0));
    assert_eq!(parse("  ]"), failure(2));
    assert_eq!(parse("'"), failure(0));
    assert_eq!(parse("' )"), failure(0));
}

#[test]
fn unclosed_list_fails_where_the_parenthesis_is_missing() {
    assert_eq!(parse("(1 2"), failure(4));
    assert_eq!(parse("(a (b"), failure(2));
    assert_eq!(parse("("), failure(1));
}

#[test]
fn string_literal() {
    assert_eq!(parse("\"hello world\""), Ok(("", LispVal::String("hello world".to_string()))));
    assert_eq!(parse("\"\""), Ok(("", LispVal::String(String::new()))));
    assert_eq!(parse("\"a\" b"), Ok(("b", LispVal::String("a".to_string()))));
}

#[test]
fn string_escapes() {
    assert_eq!(
        parse("\"a\\nb\\tc\\rd\\\\e\\/f\\\"g\\bh\\fi\""),
        Ok(("", LispVal::String("a\nb\tc\rd\\e/f\"g\u{08}h\u{0C}i".to_string())))
    );
}

#[test]
fn string_unicode_escape() {
    assert_eq!(parse("\"\\u{41}\""), Ok(("", LispVal::String("A".to_string()))));
    assert_eq!(parse("\"\\u{1F600}\""), Ok(("", LispVal::String("\u{1F600}".to_string()))));
    assert_eq!(parse("\"\\u{10ffff}\""), Ok(("", LispVal::String("\u{10FFFF}".to_string()))));
    assert_eq!(parse("\"x\\u{e9}y\""), Ok(("", LispVal::String("x\u{e9}y".to_string()))));
}

#[test]
fn string_unicode_escape_that_names_no_character_fails() {
    assert_eq!(parse("\"\\u{D800}\""), failure(0));
    assert_eq!(parse("\"\\u{110000}\""), failure(0));
    assert_eq!(parse("\"\\u{1234567}\""), failure(0));
    assert_eq!(parse("\"\\u{}\""), failure(0));
    assert_eq!(parse("\"\\u{12\""), failure(0));
    assert_eq!(parse("\"\\u0041\""), failure(0));
}

#[test]
fn string_escaped_white_space_stands_for_nothing() {
    assert_eq!(parse("\"a\\  \n\t b\""), Ok(("", LispVal::String("ab".to_string()))));
}

#[test]
fn string_with_unknown_escape_or_without_end_fails() {
    assert_eq!(parse("\"a\\qb\""), failure(0));
    assert_eq!(parse("\"abc"), failure(0));
    assert_eq!(parse("\"abc\\"), failure(0));
    assert_eq!(parse("(a \"abc)"), failure(2));
}

#[test]
fn string_keeps_characters_outside_ascii() {
    assert_eq!(
        parse("\"\u{e9}t\u{e9} \u{1F600}\" rest"),
        Ok(("rest", LispVal::String("\u{e9}t\u{e9} \u{1F600}".to_string())))
    );
}

#[test]
fn failure_position_counts_characters() {
    assert_eq!(parse("(\"\u{e9}\" ]"), failure(4));
    assert_eq!(parse("\u{e9}"), failure(0));
}

#[test]
fn rest_after_characters_outside_ascii() {
    assert_eq!(parse("\"\u{e9}\" \u{e9}"), Ok(("\u{e9}", LispVal::String("\u{e9}".to_string()))));
}

#[test]
fn expression_at_a_place_inside_the_text() {
    let chars: Vec<char> = "(a b) c".chars().collect();
    assert_eq!(parse_expression(&chars, 0), Ok((LispVal::List(vec![sym("a"), sym("b")]), 5)));
    assert_eq!(parse_expression(&chars, 2), Ok((sym("b"), 4)));
    assert_eq!(parse_expression(&chars, 5), Ok((sym("c"), 7)));
    assert_eq!(parse_expression(&chars, 4), Err(4));
    assert_eq!(parse_expression(&chars, 7), Err(7));
}

#[test]
fn type_of_each_kind() {
    assert!(sym("a").to_type() == LispType::Symbol);
    assert!(LispVal::String("a".to_string()).to_type() == LispType::String);
    assert!(LispVal::List(vec![]).to_type() == LispType::List);
    assert!(num(1).to_type() == LispType::Number);
    assert!(LispVal::Void().to_type() == LispType::Void);
}

#[test]
fn quoting_does_not_change_the_type() {
    assert!(quote(num(5)).to_type() == num(5).to_type());
    assert!(quote(quote(sym("a"))).to_type() == LispType::Symbol);
    assert!(quote(LispVal::List(vec![num(1)])).to_type() == LispType::List);
    assert!(quote(LispVal::Void()).to_type() == LispType::Void);
}

#[test]
fn type_names() {
    assert_eq!(LispType::Any.to_string(), "any");
    assert_eq!(LispType::Symbol.to_string(), "symbol");
    assert_eq!(LispType::String.to_string(), "string");
    assert_eq!(LispType::List.to_string(), "list");
    assert_eq!(LispType::Number.to_string(), "number");
    assert_eq!(LispType::Void.to_string(), "void");
}

#[test]
fn accessors_give_the_payload_of_their_own_kind_only() {
    assert_eq!(num(7).as_number(), Some(7));
    assert_eq!(sym("a").as_number(), None);
    assert_eq!(LispVal::String("s".to_string()).as_string(), Some("s".to_string()));
    assert_eq!(sym("s").as_string(), None);
    assert_eq!(
        LispVal::List(vec![num(1), sym("a")]).as_list(),
        Some(vec![num(1), sym("a")])
    );
    assert_eq!(num(1).as_list(), None);
    assert_eq!(LispVal::Void().as_number(), None);
    assert_eq!(LispVal::Void().as_string(), None);
    assert_eq!(LispVal::Void().as_list(), None);
}

#[test]
fn accessors_do_not_look_through_a_quote() {
    assert_eq!(quote(num(7)).as_number(), None);
    assert_eq!(quote(LispVal::String("s".to_string())).as_string(), None);
    assert_eq!(quote(LispVal::List(vec![])).as_list(), None);
}

#[test]
fn clone_is_equal_to_the_value() {
    let v = LispVal::List(vec![
        sym("a"),
        quote(LispVal::List(vec![num(-3), LispVal::String("x y".to_string())])),
        LispVal::Void(),
    ]);
    assert_eq!(v.clone(), v);
}

#[test]
fn text_of_each_kind() {
    assert_eq!(sym("foo?").to_string(), "foo?");
    assert_eq!(LispVal::String("a b".to_string()).to_string(), "a b");
    assert_eq!(num(42).to_string(), "42");
    assert_eq!(num(0).to_string(), "0");
    assert_eq!(num(-5).to_string(), "-5");
    assert_eq!(num(1000).to_string(), "1000");
    assert_eq!(num(i64::MAX).to_string(), "9223372036854775807");
    assert_eq!(num(i64::MIN).to_string(), "-9223372036854775808");
    assert_eq!(quote(sym("x")).to_string(), "'x");
    assert_eq!(LispVal::Void().to_string(), "");
    assert_eq!(LispVal::List(vec![]).to_string(), "()");
    assert_eq!(LispVal::List(vec![sym("a")]).to_string(), "(a)");
    assert_eq!(
        LispVal::List(vec![sym("+"), num(1), LispVal::List(vec![sym("f"), num(2)])]).to_string(),
        "(+ 1 (f 2))"
    );
    assert_eq!(quote(quote(LispVal::List(vec![num(1), num(2)]))).to_string(), "''(1 2)");
}

#[test]
fn appending_text_keeps_what_was_there() {
    let mut text = String::from("value: ");
    LispVal::List(vec![sym("a"), num(1)]).write_to(&mut text);
    assert_eq!(text, "value: (a 1)");
}

#[test]
fn text_reads_back_as_the_same_value() {
    let values = vec![
        sym("foo?"),
        sym(">="),
        sym("_x1"),
        num(0),
        num(42),
        num(i64::MAX),
        quote(sym("x")),
        quote(quote(num(7))),
        LispVal::List(vec![]),
        LispVal::List(vec![sym("+"), num(1), num(2)]),
        LispVal::List(vec![
            sym("define"),
            LispVal::List(vec![sym("f"), sym("x")]),
            quote(LispVal::List(vec![sym("x"), LispVal::List(vec![]), num(3)])),
        ]),
    ];
    for v in values {
        let text = v.to_string();
        assert_eq!(parse(&text), Ok(("", v)));
    }
}

#[test]
fn text_of_these_values_does_not_read_back() {
    assert_eq!(parse(&LispVal::String("abc".to_string()).to_string()), Ok(("", sym("abc"))));
    assert_eq!(parse(&num(-5).to_string()), Ok(("5", sym("-"))));
    assert_eq!(parse(&sym("true").to_string()), Ok(("", num(1))));
    assert_eq!(parse(&LispVal::Void().to_string()), failure(0));
    assert_eq!(
        parse(&LispVal::List(vec![LispVal::Void()]).to_string()),
        Ok(("", LispVal::List(vec![])))
    );
}

#[test]
fn boolean_words_read_back_as_digits() {
    let (_, v) = parse("(true false)").unwrap();
    assert_eq!(v.to_string(), "(1 0)");
    assert_eq!(parse("(1 0)"), Ok(("", v)));
}

#[test]
fn white_space_in_front_of_expressions_does_not_matter() {
    let plain = parse("(a (b 1) '(c) \"s\")");
    assert!(plain.is_ok());
    assert_eq!(parse("  (a (b 1) '(c) \"s\")"), plain);
    assert_eq!(parse("( a (b 1) '(c) \"s\")"), plain);
    assert_eq!(parse("(a\n\n(b 1) '(c) \"s\")"), plain);
    assert_eq!(parse("(a (\tb 1) '(c) \"s\")"), plain);
    assert_eq!(parse("(a (b    1) '(c) \"s\")"), plain);
    assert_eq!(parse("(a (b 1)'(c) \"s\")"), plain);
    assert_eq!(parse("(a (b 1) ' (c) \"s\")"), plain);
    assert_eq!(parse("(a (b 1) '( c) \"s\")"), plain);
    assert_eq!(parse("(a (b 1) '(c)\"s\")"), plain);
    assert_eq!(parse("(a (b 1) '(c) \"s\")  \n"), plain);
}

#[test]
fn same_input_same_result() {
    let text = "(f 'x \"y\" (1 2)) tail";
    assert_eq!(parse(text), parse(text));
    assert_eq!(parse("(f"), parse("(f"));
}

/// A fixed rule that draws numbers, for the trees and gaps below.
struct Draw(u64);

impl Draw {
    fn below(&mut self, bound: usize) -> usize {
        self.0 = self
            .0
            .wrapping_mul(6364136223846793005)
            .wrapping_add(1442695040888963407);
        (self.0 >> 33) as usize % bound
    }

    /// A tree whose text reads back, at most `depth` levels deep.
    fn tree(&mut self, depth: usize) -> LispVal {
        let names = ["a", "x1", "_", "is_ok?", "+", ">=", "tr", "falsy_", "T", "-", "f00"];
        let numbers = [0, 1, 7, 10, 42, 1000, i64::MAX];
        let kinds = if depth == 0 { 2 } else { 4 };
        match self.below(kinds) {
            0 => sym(names[self.below(names.len())]),
            1 => num(numbers[self.below(numbers.len())]),
            2 => quote(self.tree(depth - 1)),
            _ => {
                let len = self.below(4);
                LispVal::List((0..len).map(|_| self.tree(depth - 1)).collect())
            }
        }
    }

    /// White space of up to three characters.
    fn gap(&mut self) -> String {
        let blanks = [' ', '\t', '\r', '\n'];
        (0..self.below(4)).map(|_| blanks[self.below(4)]).collect()
    }

    /// The text of `v` with white space of any length in front of each
    /// expression, and at least one blank between two items of a list.
    fn spaced(&mut self, v: &LispVal, text: &mut String) {
        text.push_str(&self.gap());
        match v {
            LispVal::Unevaluated(inner) => {
                text.push('\'');
                self.spaced(inner, text);
            }
            LispVal::List(items) => {
                text.push('(');
                for (i, item) in items.iter().enumerate() {
                    if i > 0 {
                        text.push(' ');
                    }
                    self.spaced(item, text);
                }
                text.push(')');
            }
            atom => text.push_str(&atom.to_string()),
        }
    }
}

#[test]
fn drawn_trees_read_back() {
    let mut draw = Draw(2024);
    for _ in 0..3000 {
        let v = draw.tree(4);
        let text = v.to_string();
        assert_eq!(parse(&text), Ok(("", v)), "on {:?}", text);
    }
}

#[test]
fn drawn_trees_read_back_with_white_space_in_the_gaps() {
    let mut draw = Draw(7);
    for _ in 0..3000 {
        let v = draw.tree(4);
        let mut text = String::new();
        draw.spaced(&v, &mut text);
        text.push_str(&draw.gap());
        assert_eq!(parse(&text), Ok(("", v)), "on {:?}", text);
    }
}

#[test]
fn white_space_put_in_before_a_closing_parenthesis_changes_the_result() {
    assert_eq!(parse("(a)"), Ok(("", LispVal::List(vec![sym("a")]))));
    assert_eq!(parse("(a )"), failure(2));
    assert_eq!(parse("()"), Ok(("", LispVal::List(vec![]))));
    assert_eq!(parse("( )"), failure(1));
}

#[test]
fn white_space_taken_out_where_tokens_would_merge_changes_the_result() {
    assert_eq!(parse("(a b)"), Ok(("", LispVal::List(vec![sym("a"), sym("b")]))));
    assert_eq!(parse("(ab)"), Ok(("", LispVal::List(vec![sym("ab")]))));
    assert_eq!(parse("(1 2)"), Ok(("", LispVal::List(vec![num(1), num(2)]))));
    assert_eq!(parse("(12)"), Ok(("", LispVal::List(vec![num(12)]))));
}

/// Whether `name` is what the symbol rule takes, and not what the number
/// rule takes first.
fn is_symbol_name(name: &str) -> bool {
    let operators = "><+-*/%=";
    let chars: Vec<char> = name.chars().collect();
    if chars.is_empty() || name.starts_with("true") || name.starts_with("false") {
        return false;
    }
    if chars.iter().all(|c| operators.contains(*c)) {
        return true;
    }
    let word = |c: &char| c.is_ascii_alphanumeric() || *c == '_';
    let body = if chars.len() > 1 && chars[chars.len() - 1] == '?' {
        &chars[..chars.len() - 1]
    } else {
        &chars[..]
    };
    (chars[0].is_ascii_alphabetic() || chars[0] == '_') && body.iter().all(word)
}

/// Whether the text of `v` is expected to read back as `v`.
fn reads_back(v: &LispVal) -> bool {
    match v {
        LispVal::Symbol(name) => is_symbol_name(name),
        LispVal::String(_) => false,
        LispVal::List(items) => items.iter().all(reads_back),
        LispVal::Number(n) => *n >= 0,
        LispVal::Unevaluated(inner) => reads_back(inner),
        LispVal::Void() => false,
    }
}

impl Draw {
    /// A text of up to four characters, drawn from those that matter to
    /// the grammar.
    fn any_text(&mut self) -> String {
        let alphabet = [
            'a', 't', 'r', 'u', 'e', '_', '?', '1', '0', '+', '-', ' ', '(', ')', '\'', '"', '\\',
        ];
        (0..self.below(5)).map(|_| alphabet[self.below(alphabet.len())]).collect()
    }

    /// Any tree, at most `depth` levels deep.
    fn any_tree(&mut self, depth: usize) -> LispVal {
        let numbers = [0, 1, -1, 12, -12, i64::MAX, i64::MIN];
        let kinds = if depth == 0 { 4 } else { 6 };
        match self.below(kinds) {
            0 => LispVal::Symbol(self.any_text()),
            1 => LispVal::String(self.any_text()),
            2 => num(numbers[self.below(numbers.len())]),
            3 => LispVal::Void(),
            4 => quote(self.any_tree(depth - 1)),
            _ => {
                let len = self.below(4);
                LispVal::List((0..len).map(|_| self.any_tree(depth - 1)).collect())
            }
        }
    }
}

#[test]
fn symbol_names() {
    for name in ["a", "_", "a1_", "is_ok?", "_?", "+", "<=>", "tru", "fals", "T", "Truely"] {
        assert!(is_symbol_name(name), "{:?}", name);
        assert_eq!(parse(name), Ok(("", sym(name))));
    }
    for name in ["", "1a", "a b", "a?b", "a??", "?", "a+", "+a", "true", "truest", "falsely", "(", "a)"] {
        assert!(!is_symbol_name(name), "{:?}", name);
        assert_ne!(parse(name), Ok(("", sym(name))));
    }
}

#[test]
fn exactly_the_expected_trees_read_back() {
    let mut draw = Draw(99);
    let mut back = 0;
    for _ in 0..20000 {
        let v = draw.any_tree(3);
        let text = v.to_string();
        let came_back = parse(&text) == Ok(("", v.clone()));
        assert_eq!(came_back, reads_back(&v), "on {:?} with text {:?}", v, text);
        if came_back {
            back += 1;
        }
    }
    assert!(back > 1000);
}
