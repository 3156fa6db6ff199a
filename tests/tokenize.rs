use expr_lexer::token::{digit_of, is_ascii_digit, is_white_space, symbol_token};
use expr_lexer::{Lexer, Token};

fn lex(s: &str) -> Vec<Token> {
    let mut lexer = Lexer::new(s);
    lexer.tokenize()
}

#[test]
fn arithmetic_expression() {
    assert_eq!(
        lex("12 + 34 - 5 * 67 / 8"),
        vec![
            Token::Number(12),
            Token::Plus,
            Token::Number(34),
            Token::Minus,
            Token::Number(5),
            Token::Mul,
            Token::Number(67),
            Token::Divide,
            Token::Number(8),
        ]
    );
}

#[test]
fn expression_with_all_symbols() {
    assert_eq!(
        lex("12 + 34 - 5 * (67 / 8) ^ 2 % 3"),
        vec![
            Token::Number(12),
            Token::Plus,
            Token::Number(34),
            Token::Minus,
            Token::Number(5),
            Token::Mul,
            Token::LParen,
            Token::Number(67),
            Token::Divide,
            Token::Number(8),
            Token::RParen,
            Token::Power,
            Token::Number(2),
            Token::Modulo,
            Token::Number(3),
        ]
    );
}

#[test]
fn empty_input() {
    assert_eq!(lex(""), vec![]);
}

#[test]
fn spaces_only() {
    assert_eq!(lex("   "), vec![]);
}

#[test]
fn mixed_white_space_only() {
    assert_eq!(lex(" \t\n\r\u{a0}\u{2003}\u{3000} "), vec![]);
}

#[test]
fn letter_splits_digit_runs() {
    assert_eq!(lex("7a8"), vec![Token::Number(7), Token::Number(8)]);
}

#[test]
fn digits_make_one_number() {
    assert_eq!(lex("0"), vec![Token::Number(0)]);
    assert_eq!(lex("007"), vec![Token::Number(7)]);
    assert_eq!(lex("1234567890"), vec![Token::Number(1234567890)]);
    assert_eq!(
        lex("9223372036854775807"),
        vec![Token::Number(i64::MAX)]
    );
}

#[test]
fn oversized_literal_wraps() {
    assert_eq!(
        lex("9223372036854775808"),
        vec![Token::Number(i64::MIN)]
    );
    assert_eq!(
        lex("18446744073709551617"),
        vec![Token::Number(1)]
    );
}

#[test]
fn each_symbol_alone() {
    let cases = [
        ("+", Token::Plus),
        ("-", Token::Minus),
        ("*", Token::Mul),
        ("/", Token::Divide),
        ("^", Token::Power),
        ("%", Token::Modulo),
        ("(", Token::LParen),
        (")", Token::RParen),
    ];
    for (s, t) in cases {
        assert_eq!(lex(s), vec![t]);
        assert_eq!(lex(&format!("  {}\t", s)), vec![t]);
    }
}

#[test]
fn symbols_keep_their_order() {
    assert_eq!(
        lex(")(%^/*-+"),
        vec![
            Token::RParen,
            Token::LParen,
            Token::Modulo,
            Token::Power,
            Token::Divide,
            Token::Mul,
            Token::Minus,
            Token::Plus,
        ]
    );
}

#[test]
fn leading_minus_is_its_own_token() {
    assert_eq!(lex("-5"), vec![Token::Minus, Token::Number(5)]);
}

#[test]
fn white_space_amount_does_not_matter() {
    let expected = vec![Token::Number(1), Token::Plus, Token::Number(2)];
    assert_eq!(lex("1+2"), expected);
    assert_eq!(lex("1 + 2"), expected);
    assert_eq!(lex("1 \t\n +   2  "), expected);
    assert_eq!(lex("1 2"), lex("1     2"));
}

#[test]
fn unrecognized_characters_are_dropped() {
    assert_eq!(lex("1 + x2"), lex("1 + 2"));
    assert_eq!(lex("a(b)c"), vec![Token::LParen, Token::RParen]);
    assert_eq!(lex("3 é 4 → 5"), vec![Token::Number(3), Token::Number(4), Token::Number(5)]);
    assert_eq!(lex("1.5"), vec![Token::Number(1), Token::Number(5)]);
}

#[test]
fn non_ascii_digits_are_not_numbers() {
    assert_eq!(lex("٣4"), vec![Token::Number(4)]);
    assert_eq!(lex("１２"), vec![]);
}

#[test]
fn tokenize_twice_gives_nothing_more() {
    let mut lexer = Lexer::new("1 + 2");
    assert_eq!(lexer.tokenize().len(), 3);
    assert_eq!(lexer.tokenize(), vec![]);
}

#[test]
fn white_space_matches_std() {
    for code in 0u32..=0x10FFFF {
        if let Some(c) = char::from_u32(code) {
            assert_eq!(is_white_space(c), c.is_whitespace(), "code point {:x}", code);
        }
    }
}

#[test]
fn digit_classification() {
    for c in '0'..='9' {
        assert!(is_ascii_digit(c));
        assert_eq!(digit_of(c), c.to_digit(10).unwrap() as i64);
    }
    assert!(!is_ascii_digit('a'));
    assert!(!is_ascii_digit('/'));
    assert!(!is_ascii_digit(':'));
    assert_eq!(symbol_token('^'), Some(Token::Power));
    assert_eq!(symbol_token('a'), None);
}

#[test]
fn symbol_spelling_round_trips() {
    for c in ['+', '-', '*', '/', '^', '%', '(', ')'] {
        let t = symbol_token(c).unwrap();
        assert_eq!(t.symbol(), Some(c));
    }
    assert_eq!(Token::Number(3).symbol(), None);
}

#[test]
fn discarded_character_then_symbol() {
    assert_eq!(lex("a+"), vec![Token::Plus]);
    assert_eq!(lex("\u{663}4"), vec![Token::Number(4)]);
}

#[test]
fn digit_run_stops_at_non_ascii_digit() {
    assert_eq!(lex("1\u{663}"), vec![Token::Number(1)]);
    assert_eq!(lex("12 "), vec![Token::Number(12)]);
}
