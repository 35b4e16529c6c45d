use flow_lang::parsing::lexical::{is_digit_char, is_letter_char, scan, CharClass};
use flow_lang::parsing::text::to_chars;
use flow_lang::parsing::{
    parse_list, parse_number, parse_string, parse_symbol, parse_unevaluated, LispVal,
};

fn chars(text: &str) -> Vec<char> {
    text.chars().collect()
}

#[test]
fn characters_of_a_text() {
    assert_eq!(to_chars(""), Vec::<char>::new());
    assert_eq!(to_chars("a\u{e9}\u{1F600}b"), vec!['a', '\u{e9}', '\u{1F600}', 'b']);
}

#[test]
fn classes_of_characters() {
    for c in [' ', '\t', '\r', '\n'] {
        assert!(CharClass::Space.contains(c));
    }
    for c in ['a', '0', '\u{0B}', '\u{0C}', '\u{A0}', '\u{2003}'] {
        assert!(!CharClass::Space.contains(c));
    }
    for c in "><+-*/%=".chars() {
        assert!(CharClass::Operator.contains(c));
    }
    for c in ['!', '&', '|', '^', '?', 'a', '1', ' ', '(', '.'] {
        assert!(!CharClass::Operator.contains(c));
    }
    for c in ['a', 'z', 'A', 'Z', '0', '9', '_'] {
        assert!(CharClass::Word.contains(c));
    }
    for c in ['?', '-', ' ', '\u{e9}', '\u{660}', '@', '[', '`', '{', '/', ':'] {
        assert!(!CharClass::Word.contains(c));
    }
    for c in ['0', '9', 'a', 'f', 'A', 'F'] {
        assert!(CharClass::Hex.contains(c));
    }
    for c in ['g', 'G', '/', ':', '@', '`', ' '] {
        assert!(!CharClass::Hex.contains(c));
    }
    for c in ['0', '5', '9'] {
        assert!(CharClass::Digit.contains(c) && is_digit_char(c));
    }
    for c in ['/', ':', 'a', '\u{660}'] {
        assert!(!CharClass::Digit.contains(c) && !is_digit_char(c));
    }
    for c in ['a', ' ', '\'', '\n', '\u{e9}'] {
        assert!(CharClass::Plain.contains(c));
    }
    for c in ['"', '\\'] {
        assert!(!CharClass::Plain.contains(c));
    }
    assert!(is_letter_char('a') && is_letter_char('Z'));
    assert!(!is_letter_char('_') && !is_letter_char('1') && !is_letter_char('\u{e9}'));
}

#[test]
fn run_of_a_class() {
    let text = chars("  \t ab12_ c");
    assert_eq!(scan(&text, 0, CharClass::Space), 4);
    assert_eq!(scan(&text, 4, CharClass::Space), 4);
    assert_eq!(scan(&text, 4, CharClass::Word), 9);
    assert_eq!(scan(&text, 6, CharClass::Digit), 8);
    assert_eq!(scan(&text, 10, CharClass::Word), 11);
    assert_eq!(scan(&text, 11, CharClass::Word), 11);
}

#[test]
fn number_rule() {
    assert_eq!(parse_number(&chars("12 "), 0), Some((12, 2)));
    assert_eq!(parse_number(&chars("x12"), 1), Some((12, 3)));
    assert_eq!(parse_number(&chars("x12"), 0), None);
    assert_eq!(parse_number(&chars("true"), 0), Some((1, 4)));
    assert_eq!(parse_number(&chars("false!"), 0), Some((0, 5)));
    assert_eq!(parse_number(&chars("tru"), 0), None);
    assert_eq!(parse_number(&chars(" 1"), 0), None);
    assert_eq!(parse_number(&chars("-1"), 0), None);
    assert_eq!(parse_number(&chars("+1"), 0), None);
    assert_eq!(parse_number(&chars(""), 0), None);
    assert_eq!(parse_number(&chars("9223372036854775807"), 0), Some((i64::MAX, 19)));
    assert_eq!(parse_number(&chars("9223372036854775808"), 0), None);
    assert_eq!(parse_number(&chars("92233720368547758070"), 0), None);
}

#[test]
fn symbol_rule() {
    assert_eq!(parse_symbol(&chars("abc def"), 0), Some(("abc".to_string(), 3)));
    assert_eq!(parse_symbol(&chars("abc def"), 4), Some(("def".to_string(), 7)));
    assert_eq!(parse_symbol(&chars("abc def"), 3), None);
    assert_eq!(parse_symbol(&chars("a?"), 0), Some(("a?".to_string(), 2)));
    assert_eq!(parse_symbol(&chars("_?"), 0), Some(("_?".to_string(), 2)));
    assert_eq!(parse_symbol(&chars("?"), 0), None);
    assert_eq!(parse_symbol(&chars("1a"), 0), None);
    assert_eq!(parse_symbol(&chars("<=>"), 0), Some(("<=>".to_string(), 3)));
    assert_eq!(parse_symbol(&chars("+a"), 0), Some(("+".to_string(), 1)));
    assert_eq!(parse_symbol(&chars("+?"), 0), Some(("+".to_string(), 1)));
    assert_eq!(parse_symbol(&chars("true"), 0), Some(("true".to_string(), 4)));
    assert_eq!(parse_symbol(&chars("\u{e9}"), 0), None);
    assert_eq!(parse_symbol(&chars("a\u{e9}"), 0), Some(("a".to_string(), 1)));
    assert_eq!(parse_symbol(&chars(""), 0), None);
}

#[test]
fn string_rule() {
    assert_eq!(parse_string(&chars("\"ab\" c"), 0), Some(("ab".to_string(), 4)));
    assert_eq!(parse_string(&chars("x\"\""), 1), Some((String::new(), 3)));
    assert_eq!(parse_string(&chars("x\"\""), 0), None);
    assert_eq!(parse_string(&chars("\"a\\u{62}c\""), 0), Some(("abc".to_string(), 10)));
    assert_eq!(parse_string(&chars("\"a\\u{000062}c\""), 0), Some(("abc".to_string(), 14)));
    assert_eq!(parse_string(&chars("\"\\u{0}\""), 0), Some(("\0".to_string(), 7)));
    assert_eq!(parse_string(&chars("\"\\u{d7ff}\\u{E000}\""), 0), Some(("\u{d7ff}\u{e000}".to_string(), 18)));
    assert_eq!(parse_string(&chars("\"\\u{dfff}\""), 0), None);
    assert_eq!(parse_string(&chars("\"\\u{g}\""), 0), None);
    assert_eq!(parse_string(&chars("\"\\ \""), 0), Some((String::new(), 4)));
    assert_eq!(parse_string(&chars("\""), 0), None);
    assert_eq!(parse_string(&chars(""), 0), None);
    assert_eq!(parse_string(&chars("'a'"), 0), None);
}

#[test]
fn quotation_rule() {
    assert_eq!(
        parse_unevaluated(&chars("'a b"), 0),
        Ok((LispVal::Unevaluated(Box::new(LispVal::Symbol("a".to_string()))), 2))
    );
    assert_eq!(parse_unevaluated(&chars("a"), 0), Err(0));
    assert_eq!(parse_unevaluated(&chars("')"), 0), Err(1));
    assert_eq!(parse_unevaluated(&chars("'(a"), 0), Err(3));
    assert_eq!(parse_unevaluated(&chars(" 'a"), 0), Err(0));
}

#[test]
fn list_rule() {
    assert_eq!(
        parse_list(&chars("(a 1)x"), 0),
        Ok((vec![LispVal::Symbol("a".to_string()), LispVal::Number(1)], 5))
    );
    assert_eq!(parse_list(&chars("()"), 0), Ok((vec![], 2)));
    assert_eq!(parse_list(&chars(" ()"), 0), Err(0));
    assert_eq!(parse_list(&chars("(a "), 0), Err(2));
    assert_eq!(parse_list(&chars("(a ]"), 0), Err(2));
    assert_eq!(parse_list(&chars("a"), 0), Err(0));
    assert_eq!(parse_list(&chars(""), 0), Err(0));
}
