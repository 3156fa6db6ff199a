use vstd::prelude::*;

verus! {

/// One lexical unit of an arithmetic expression.
#[derive(Clone, Copy, Debug, PartialEq, Eq, Structural)]
pub enum Token {
    Plus,
    Minus,
    Mul,
    Divide,
    Power,
    Modulo,
    LParen,
    RParen,
    Number(i64),
}

impl Token {
    /// The character that spells this token, or `None` for a number.
    pub fn symbol(&self) -> (r: Option<char>)
        ensures
            r == symbol_char(*self),
    {
        match self {
            Token::Plus => Some('+'),
            Token::Minus => Some('-'),
            Token::Mul => Some('*'),
            Token::Divide => Some('/'),
            Token::Power => Some('^'),
            Token::Modulo => Some('%'),
            Token::LParen => Some('('),
            Token::RParen => Some(')'),
            Token::Number(_) => None,
        }
    }
}

/// The token that a one-character symbol stands for, if the character is one.
pub open spec fn symbol_of(c: char) -> Option<Token> {
    if c == '+' {
        Some(Token::Plus)
    } else if c == '-' {
        Some(Token::Minus)
    } else if c == '*' {
        Some(Token::Mul)
    } else if c == '/' {
        Some(Token::Divide)
    } else if c == '^' {
        Some(Token::Power)
    } else if c == '%' {
        Some(Token::Modulo)
    } else if c == '(' {
        Some(Token::LParen)
    } else if c == ')' {
        Some(Token::RParen)
    } else {
        None
    }
}

/// The character that spells a symbol token (`Number` has none).
pub open spec fn symbol_char(t: Token) -> Option<char> {
    match t {
        Token::Plus => Some('+'),
        Token::Minus => Some('-'),
        Token::Mul => Some('*'),
        Token::Divide => Some('/'),
        Token::Power => Some('^'),
        Token::Modulo => Some('%'),
        Token::LParen => Some('('),
        Token::RParen => Some(')'),
        Token::Number(_) => None,
    }
}

/// An ASCII decimal digit, `0` to `9`.
pub open spec fn is_digit(c: char) -> bool {
    '0' <= c && c <= '9'
}

/// The value of an ASCII decimal digit.
pub open spec fn digit_value(c: char) -> int {
    c as int - '0' as int
}

/// Whether `c` has the Unicode `White_Space` property (the set that
/// `char::is_whitespace` tests).
pub open spec fn is_space(c: char) -> bool {
    ||| '\u{9}' <= c && c <= '\u{d}'
    ||| c == ' '
    ||| c == '\u{85}'
    ||| c == '\u{a0}'
    ||| c == '\u{1680}'
    ||| '\u{2000}' <= c && c <= '\u{200a}'
    ||| c == '\u{2028}'
    ||| c == '\u{2029}'
    ||| c == '\u{202f}'
    ||| c == '\u{205f}'
    ||| c == '\u{3000}'
}

/// Classifies a symbol character.
pub fn symbol_token(c: char) -> (r: Option<Token>)
    ensures
        r == symbol_of(c),
{
    match c {
        '+' => Some(Token::Plus),
        '-' => Some(Token::Minus),
        '*' => Some(Token::Mul),
        '/' => Some(Token::Divide),
        '^' => Some(Token::Power),
        '%' => Some(Token::Modulo),
        '(' => Some(Token::LParen),
        ')' => Some(Token::RParen),
        _ => None,
    }
}

/// Tests for an ASCII decimal digit.
pub fn is_ascii_digit(c: char) -> (r: bool)
    ensures
        r == is_digit(c),
{
    '0' <= c && c <= '9'
}

/// Tests for Unicode white space.
pub fn is_white_space(c: char) -> (r: bool)
    ensures
        r == is_space(c),
{
    ('\u{9}' <= c && c <= '\u{d}') || c == ' ' || c == '\u{85}' || c == '\u{a0}'
        || c == '\u{1680}' || ('\u{2000}' <= c && c <= '\u{200a}') || c == '\u{2028}'
        || c == '\u{2029}' || c == '\u{202f}' || c == '\u{205f}' || c == '\u{3000}'
}

/// The value of an ASCII decimal digit.
pub fn digit_of(c: char) -> (r: i64)
    requires
        is_digit(c),
    ensures
        r == digit_value(c),
        0 <= r <= 9,
{
    (c as u32 - '0' as u32) as i64
}

} // verus!
