use ast_calc::lex::Token::{Cos, Divide, LParens, Log, Minus, Multiply, Number, Power, RParens};
use ast_calc::lex::{LexError, Lexer, Token};

fn value(literal: &Vec<u8>) -> f64 {
    std::str::from_utf8(literal).unwrap().parse::<f64>().unwrap()
}

fn next(lex: &mut Lexer) -> Option<Result<Token<f64>, LexError>> {
    lex.next().map(|item| item.map(|token| token.map(&value)))
}

fn all(input: &str) -> Vec<Result<Token<f64>, LexError>> {
    let mut lex = Lexer::new(input);
    let mut out = Vec::new();
    while let Some(item) = next(&mut lex) {
        out.push(item);
    }
    out
}

fn text(input: &str) -> Vec<Result<Token<Vec<u8>>, LexError>> {
    let mut lex = Lexer::new(input);
    let mut out = Vec::new();
    while let Some(item) = lex.next() {
        out.push(item);
    }
    out
}

fn number(literal: &str) -> Result<Token<Vec<u8>>, LexError> {
    Ok(Token::Number(literal.as_bytes().to_vec()))
}

#[test]
fn parse_line() {
    let mut lex = Lexer::new("5^ln(3/4* cos(9- -1))");

    assert_eq!(next(&mut lex), Some(Ok(Number(5f64))));
    assert_eq!(next(&mut lex), Some(Ok(Power)));
    assert_eq!(next(&mut lex), Some(Ok(Log)));
    assert_eq!(next(&mut lex), Some(Ok(LParens)));
    assert_eq!(next(&mut lex), Some(Ok(Number(3f64))));
    assert_eq!(next(&mut lex), Some(Ok(Divide)));
    assert_eq!(next(&mut lex), Some(Ok(Number(4f64))));
    assert_eq!(next(&mut lex), Some(Ok(Multiply)));
    assert_eq!(next(&mut lex), Some(Ok(Cos)));
    assert_eq!(next(&mut lex), Some(Ok(LParens)));
    assert_eq!(next(&mut lex), Some(Ok(Number(9f64))));
    assert_eq!(next(&mut lex), Some(Ok(Minus)));
    assert_eq!(next(&mut lex), Some(Ok(Minus)));
    assert_eq!(next(&mut lex), Some(Ok(Number(1f64))));
    assert_eq!(next(&mut lex), Some(Ok(RParens)));
    assert_eq!(next(&mut lex), Some(Ok(RParens)));
}

#[test]
fn line_ends_after_last_token() {
    let mut lex = Lexer::new("5^ln(3/4* cos(9- -1))");
    for _ in 0..16 {
        assert!(lex.next().is_some());
    }
    assert_eq!(lex.next(), None);
    assert_eq!(lex.next(), None);
}

#[test]
fn empty_input_has_no_token() {
    assert_eq!(text(""), vec![]);
    assert_eq!(text(" \t\n\x0c "), vec![]);
}

#[test]
fn every_operator_and_keyword() {
    assert_eq!(
        all("+-*/^!sin cos tan exp ln()"),
        vec![
            Ok(Token::Plus),
            Ok(Token::Minus),
            Ok(Token::Multiply),
            Ok(Token::Divide),
            Ok(Token::Power),
            Ok(Token::Factorial),
            Ok(Token::Sin),
            Ok(Token::Cos),
            Ok(Token::Tan),
            Ok(Token::Exp),
            Ok(Token::Log),
            Ok(Token::LParens),
            Ok(Token::RParens),
        ]
    );
}

#[test]
fn number_literals_keep_their_text() {
    assert_eq!(text("0"), vec![number("0")]);
    assert_eq!(text("42"), vec![number("42")]);
    assert_eq!(text("3.14159"), vec![number("3.14159")]);
    assert_eq!(text("1e5"), vec![number("1e5")]);
    assert_eq!(text("1E+5"), vec![number("1E+5")]);
    assert_eq!(text("2.5e-3"), vec![number("2.5e-3")]);
    assert_eq!(text("  7  "), vec![number("7")]);
}

#[test]
fn number_literals_have_their_value() {
    assert_eq!(all("2.5e-3"), vec![Ok(Token::Number(0.0025))]);
    assert_eq!(all("1E+5"), vec![Ok(Token::Number(100000.0))]);
}

#[test]
fn leading_zero_ends_the_literal() {
    assert_eq!(text("01"), vec![number("0"), number("1")]);
    assert_eq!(text("007"), vec![number("0"), number("0"), number("7")]);
}

#[test]
fn longest_literal_wins() {
    // An exponent needs a digit: without one the literal ends before the `e`.
    assert_eq!(text("2exp"), vec![number("2"), Ok(Token::Exp)]);
    assert_eq!(text("1e"), vec![number("1"), Err(LexError { position: 1 })]);
    assert_eq!(
        text("1e+"),
        vec![number("1"), Err(LexError { position: 1 }), Ok(Token::Plus)]
    );
    // A fraction needs a digit: without one the literal ends before the point.
    assert_eq!(text("1."), vec![number("1"), Err(LexError { position: 1 })]);
    assert_eq!(
        text("1.5.2"),
        vec![number("1.5"), Err(LexError { position: 3 }), number("2")]
    );
    assert_eq!(text(".5"), vec![Err(LexError { position: 0 }), number("5")]);
}

#[test]
fn unknown_bytes_are_errors_and_lexing_goes_on() {
    assert_eq!(
        text("1 $ 2"),
        vec![number("1"), Err(LexError { position: 2 }), number("2")]
    );
    assert_eq!(
        text("si"),
        vec![Err(LexError { position: 0 }), Err(LexError { position: 1 })]
    );
    assert_eq!(text("\r"), vec![Err(LexError { position: 0 })]);
    // A character of several bytes is one error, and lexing goes on behind it.
    assert_eq!(text("\u{e9}"), vec![Err(LexError { position: 0 })]);
    assert_eq!(
        text("1\u{20ac}2"),
        vec![number("1"), Err(LexError { position: 1 }), number("2")]
    );
    assert_eq!(
        text("\u{1f600}\u{e9}+"),
        vec![
            Err(LexError { position: 0 }),
            Err(LexError { position: 4 }),
            Ok(Token::Plus)
        ]
    );
}

#[test]
fn keywords_need_all_their_letters() {
    assert_eq!(
        text("l n"),
        vec![Err(LexError { position: 0 }), Err(LexError { position: 2 })]
    );
    assert_eq!(text("lnln"), vec![Ok(Token::Log), Ok(Token::Log)]);
    assert_eq!(text("sinsin"), vec![Ok(Token::Sin), Ok(Token::Sin)]);
}

#[test]
fn peek_leaves_the_token() {
    let mut lex = Lexer::new("1+");
    assert_eq!(lex.peek(), Some(number("1")));
    assert_eq!(lex.peek(), Some(number("1")));
    assert_eq!(lex.next(), Some(number("1")));
    assert_eq!(lex.peek(), Some(Ok(Token::Plus)));
    assert_eq!(lex.next(), Some(Ok(Token::Plus)));
    assert_eq!(lex.peek(), None);
}

#[test]
fn a_new_lexer_starts_over() {
    let input = "1 + 2";
    assert_eq!(text(input), text(input));
}
