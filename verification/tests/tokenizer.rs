use minicc::error::{LexError, ParseError};
use minicc::text::{char_to_string, is_letter, is_space, push_decimal, to_digit};
use minicc::tokenizer::{
    at_eof, consume, consume_ident, expect, expect_number, Token, TokenKind,
};

fn lex(source: &str) -> Vec<Token> {
    Token::tokenize(source.chars().collect()).unwrap()
}

/// The tokens in source order, each as its kind, value and text.
fn in_order(tokens: &[Token]) -> Vec<(TokenKind, Option<u32>, Option<String>)> {
    tokens.iter().rev().map(|t| (t.kind(), t.val(), t.op())).collect()
}

fn sym(text: &str) -> (TokenKind, Option<u32>, Option<String>) {
    (TokenKind::TkReserved, None, Some(text.to_string()))
}

fn num(val: u32) -> (TokenKind, Option<u32>, Option<String>) {
    (TokenKind::TkNum, Some(val), None)
}

fn ident(name: &str) -> (TokenKind, Option<u32>, Option<String>) {
    (TokenKind::TkIdent, None, Some(name.to_string()))
}

fn eof() -> (TokenKind, Option<u32>, Option<String>) {
    (TokenKind::TkEOF, None, None)
}

#[test]
fn empty_text_is_only_the_end_marker() {
    assert_eq!(in_order(&lex("")), vec![eof()]);
    assert_eq!(in_order(&lex(" \t\n ")), vec![eof()]);
}

#[test]
fn arithmetic_is_split_in_source_order() {
    assert_eq!(
        in_order(&lex("1+2*3-4;")),
        vec![num(1), sym("+"), num(2), sym("*"), num(3), sym("-"), num(4), sym(";"), eof()]
    );
}

#[test]
fn end_marker_lies_at_the_bottom_of_the_stack() {
    let tokens = lex("a=1;");
    assert_eq!(tokens.len(), 5);
    assert_eq!(tokens[0].kind(), TokenKind::TkEOF);
    assert_eq!(tokens[4].kind(), TokenKind::TkIdent);
    assert_eq!(tokens[4].op(), Some("a".to_string()));
}

#[test]
fn whitespace_separates_and_is_dropped() {
    assert_eq!(in_order(&lex("  12 \n 34\t;")), vec![num(12), num(34), sym(";"), eof()]);
    assert_eq!(in_order(&lex("1\u{a0}2\u{3000}3")), vec![num(1), num(2), num(3), eof()]);
}

#[test]
fn every_punctuation_mark_is_a_token() {
    assert_eq!(
        in_order(&lex("+-*/();")),
        vec![sym("+"), sym("-"), sym("*"), sym("/"), sym("("), sym(")"), sym(";"), eof()]
    );
}

#[test]
fn comparators_take_a_following_equals_sign() {
    assert_eq!(
        in_order(&lex("== != <= >= = < > !")),
        vec![
            sym("=="),
            sym("!="),
            sym("<="),
            sym(">="),
            sym("="),
            sym("<"),
            sym(">"),
            sym("!"),
            eof()
        ]
    );
    assert_eq!(in_order(&lex("===")), vec![sym("=="), sym("="), eof()]);
    assert_eq!(in_order(&lex("<==")), vec![sym("<="), sym("="), eof()]);
    assert_eq!(in_order(&lex("= =")), vec![sym("="), sym("="), eof()]);
    assert_eq!(in_order(&lex("a=")), vec![ident("a"), sym("="), eof()]);
}

#[test]
fn every_letter_is_a_name_by_itself() {
    assert_eq!(in_order(&lex("ab")), vec![ident("a"), ident("b"), eof()]);
    assert_eq!(in_order(&lex("Z9z")), vec![ident("Z"), num(9), ident("z"), eof()]);
}

#[test]
fn digits_run_as_far_as_they_go() {
    assert_eq!(in_order(&lex("0")), vec![num(0), eof()]);
    assert_eq!(in_order(&lex("007")), vec![num(7), eof()]);
    assert_eq!(in_order(&lex("1234567890a")), vec![num(1234567890), ident("a"), eof()]);
    assert_eq!(in_order(&lex("4294967295")), vec![num(4294967295), eof()]);
}

#[test]
fn number_beyond_32_bits_is_an_error() {
    assert_eq!(
        Token::tokenize("4294967296".chars().collect()).err(),
        Some(LexError::NumberTooLarge)
    );
    assert_eq!(
        Token::tokenize("1+99999999999999999999;".chars().collect()).err(),
        Some(LexError::NumberTooLarge)
    );
}

#[test]
fn unknown_character_is_an_error() {
    assert_eq!(Token::tokenize("1 $ 2".chars().collect()).err(), Some(LexError::UnknownCharacter));
    assert_eq!(Token::tokenize("a_b".chars().collect()).err(), Some(LexError::UnknownCharacter));
    assert_eq!(Token::tokenize("é".chars().collect()).err(), Some(LexError::UnknownCharacter));
    assert_eq!(Token::tokenize("{".chars().collect()).err(), Some(LexError::UnknownCharacter));
}

#[test]
fn first_error_in_the_text_wins() {
    assert_eq!(
        Token::tokenize("$ 4294967296".chars().collect()).err(),
        Some(LexError::UnknownCharacter)
    );
    assert_eq!(
        Token::tokenize("4294967296 $".chars().collect()).err(),
        Some(LexError::NumberTooLarge)
    );
}

#[test]
fn lexing_twice_gives_the_same_tokens() {
    let source = "a = 3; b = a * (2 + 40) >= 7;";
    assert_eq!(in_order(&lex(source)), in_order(&lex(source)));
}

#[test]
fn tokens_spell_the_text_without_its_whitespace() {
    let source = " x = 10 *( y+ 3 )<= 42 ;\n z == 0 ; ";
    let mut spelled = String::new();
    for (_, val, op) in in_order(&lex(source)) {
        match (val, op) {
            (Some(n), _) => push_decimal(&mut spelled, n),
            (None, Some(text)) => spelled.push_str(&text),
            (None, None) => {}
        }
    }
    let expected: String = source.chars().filter(|c| !c.is_whitespace()).collect();
    assert_eq!(spelled, expected);
    assert_eq!(spelled, "x=10*(y+3)<=42;z==0;");
}

#[test]
fn cloned_token_is_the_same_token() {
    let tokens = lex("7");
    let copy = tokens[1].clone();
    assert_eq!(copy.kind(), TokenKind::TkNum);
    assert_eq!(copy.val(), Some(7));
    assert_eq!(copy.op(), None);
}

#[test]
fn consume_takes_only_the_symbol_asked_for() {
    let mut tokens = lex("+1");
    assert!(!consume(&mut tokens, "-"));
    assert_eq!(tokens.len(), 3);
    assert!(consume(&mut tokens, "+"));
    assert_eq!(tokens.len(), 2);
    assert!(!consume(&mut tokens, "+"));
    assert_eq!(in_order(&tokens), vec![num(1), eof()]);
}

#[test]
fn consume_tells_one_and_two_character_symbols_apart() {
    let mut tokens = lex("<=");
    assert!(!consume(&mut tokens, "<"));
    assert!(!consume(&mut tokens, "="));
    assert!(consume(&mut tokens, "<="));
    assert!(at_eof(&tokens));
}

#[test]
fn consume_does_not_take_a_name_that_looks_like_the_symbol() {
    let mut tokens = lex("a");
    assert!(!consume(&mut tokens, "a"));
    assert_eq!(tokens.len(), 2);
}

#[test]
fn consume_ident_takes_a_name() {
    let mut tokens = lex("x+1");
    assert_eq!(consume_ident(&mut tokens), (true, Some("x".to_string())));
    assert_eq!(tokens.len(), 3);
    assert_eq!(consume_ident(&mut tokens), (false, None));
    assert_eq!(tokens.len(), 3);
}

#[test]
fn expect_number_takes_a_number() {
    let mut tokens = lex("42;");
    assert_eq!(expect_number(&mut tokens), Ok(42));
    assert_eq!(tokens.len(), 2);
    assert_eq!(expect_number(&mut tokens), Err(ParseError::ExpectedNumber));
    assert_eq!(tokens.len(), 2);
}

#[test]
fn expect_number_fails_at_the_end() {
    let mut tokens = lex("");
    assert_eq!(expect_number(&mut tokens), Err(ParseError::ExpectedNumber));
    assert_eq!(tokens.len(), 1);
}

#[test]
fn expect_takes_the_symbol_or_fails() {
    let mut tokens = lex(");");
    assert_eq!(expect(&mut tokens, ";"), Err(ParseError::ExpectedSymbol));
    assert_eq!(tokens.len(), 3);
    assert_eq!(expect(&mut tokens, ")"), Ok(()));
    assert_eq!(expect(&mut tokens, ";"), Ok(()));
    assert_eq!(expect(&mut tokens, ";"), Err(ParseError::ExpectedSymbol));
    assert_eq!(tokens.len(), 1);
}

#[test]
fn at_eof_only_at_the_end_marker() {
    let mut tokens = lex("1");
    assert!(!at_eof(&tokens));
    assert_eq!(expect_number(&mut tokens), Ok(1));
    assert!(at_eof(&tokens));
}

#[test]
fn end_marker_is_never_taken() {
    let mut tokens = lex("");
    assert!(!consume(&mut tokens, ";"));
    assert_eq!(consume_ident(&mut tokens), (false, None));
    assert_eq!(expect(&mut tokens, ";"), Err(ParseError::ExpectedSymbol));
    assert_eq!(tokens.len(), 1);
    assert!(at_eof(&tokens));
}

#[test]
fn whitespace_is_what_the_standard_library_calls_whitespace() {
    for code in 0..=0x10FFFFu32 {
        if let Some(c) = char::from_u32(code) {
            assert_eq!(is_space(c), c.is_whitespace(), "U+{:04X}", code);
        }
    }
}

#[test]
fn letters_are_the_ascii_letters() {
    for code in 0..=0x10FFFFu32 {
        if let Some(c) = char::from_u32(code) {
            assert_eq!(is_letter(c), c.is_ascii_alphabetic(), "U+{:04X}", code);
        }
    }
}

#[test]
fn digits_count_as_in_the_standard_library() {
    for radix in 2..=36u32 {
        for code in 0..=0x2FFu32 {
            let c = char::from_u32(code).unwrap();
            assert_eq!(to_digit(c, radix), c.to_digit(radix), "U+{:04X} base {}", code, radix);
        }
    }
    assert_eq!(to_digit('7', 10), Some(7));
    assert_eq!(to_digit('a', 10), None);
    assert_eq!(to_digit('f', 16), Some(15));
    assert_eq!(to_digit('Z', 36), Some(35));
    assert_eq!(to_digit('1', 2), Some(1));
    assert_eq!(to_digit('2', 2), None);
}

#[test]
fn decimal_numerals() {
    for (n, expected) in [(0u32, "0"), (7, "7"), (10, "10"), (208, "208"), (4294967295, "4294967295")]
    {
        let mut text = String::from("x");
        push_decimal(&mut text, n);
        assert_eq!(text, format!("x{}", expected));
    }
}

#[test]
fn string_of_one_character() {
    assert_eq!(char_to_string('q'), "q");
    assert_eq!(char_to_string('='), "=");
}
