use ast_calc::ast::Ast;
use ast_calc::lex::{LexError, Lexer};
use ast_calc::parse::{
    expr_prec, infix_prec, postfix_prec, prefix_prec, BinOp, Expr, ParseError, UnOp,
};
use ast_calc::lex::Token;

fn value(literal: &Vec<u8>) -> f64 {
    std::str::from_utf8(literal).unwrap().parse::<f64>().unwrap()
}

fn tree(input: &str) -> Result<Expr<f64>, ParseError> {
    let mut lex = Lexer::new(input);
    expr_prec(&mut lex, 0).map(|e| e.map(&value))
}

fn num(v: f64) -> Box<Expr<f64>> {
    Box::new(Expr::Number(v))
}

fn bin(op: BinOp, l: Box<Expr<f64>>, r: Box<Expr<f64>>) -> Box<Expr<f64>> {
    Box::new(Expr::BinaryOp(op, l, r))
}

fn un(op: UnOp, e: Box<Expr<f64>>) -> Box<Expr<f64>> {
    Box::new(Expr::UnaryOp(op, e))
}

#[test]
fn parse_expr1() {
    let mut lex = Lexer::new("sin(3--1)");
    let test_e = expr_prec(&mut lex, 0).unwrap().map(&value);

    let neg = Box::new(Expr::UnaryOp(UnOp::Negative, Box::new(Expr::Number(1f64))));
    let diff = Box::new(Expr::BinaryOp(BinOp::Minus, Box::new(Expr::Number(3f64)), neg));
    let expect_e = Expr::UnaryOp(UnOp::Sin, diff);
    assert_eq!(test_e, expect_e);
}

#[test]
fn parse_expr2() {
    let mut lex = Lexer::new("1+2/3-4/5");
    let test_e = expr_prec(&mut lex, 0).unwrap().map(&value);

    let frac1 = Box::new(Expr::BinaryOp(
        BinOp::Divide,
        Box::new(Expr::Number(2f64)),
        Box::new(Expr::Number(3f64)),
    ));
    let frac2 = Box::new(Expr::BinaryOp(
        BinOp::Divide,
        Box::new(Expr::Number(4f64)),
        Box::new(Expr::Number(5f64)),
    ));
    let sum = Box::new(Expr::BinaryOp(BinOp::Plus, Box::new(Expr::Number(1f64)), frac1));
    let expect_e = Expr::BinaryOp(BinOp::Minus, sum, frac2);

    assert_eq!(test_e, expect_e);
}

#[test]
fn product_binds_tighter_than_sum() {
    assert_eq!(
        tree("1+2*3"),
        Ok(*bin(BinOp::Plus, num(1.0), bin(BinOp::Multiply, num(2.0), num(3.0))))
    );
    assert_eq!(
        tree("1*2+3"),
        Ok(*bin(BinOp::Plus, bin(BinOp::Multiply, num(1.0), num(2.0)), num(3.0)))
    );
}

#[test]
fn power_associates_to_the_right() {
    assert_eq!(
        tree("2^3^4"),
        Ok(*bin(BinOp::Power, num(2.0), bin(BinOp::Power, num(3.0), num(4.0))))
    );
    assert_eq!(
        tree("2^(3^4)"),
        Ok(*bin(BinOp::Power, num(2.0), bin(BinOp::Power, num(3.0), num(4.0))))
    );
    assert_eq!(
        tree("1^2^3^4"),
        Ok(*bin(
            BinOp::Power,
            num(1.0),
            bin(BinOp::Power, num(2.0), bin(BinOp::Power, num(3.0), num(4.0)))
        ))
    );
    let mut lex = Lexer::new("2^3^4");
    assert!(expr_prec(&mut lex, 0).is_ok());
    assert_eq!(lex.peek(), None);
}

#[test]
fn power_binds_tighter_than_product_and_sum() {
    assert_eq!(
        tree("2*3^4"),
        Ok(*bin(BinOp::Multiply, num(2.0), bin(BinOp::Power, num(3.0), num(4.0))))
    );
    assert_eq!(
        tree("2^3*4"),
        Ok(*bin(BinOp::Multiply, bin(BinOp::Power, num(2.0), num(3.0)), num(4.0)))
    );
    assert_eq!(
        tree("2^3+4"),
        Ok(*bin(BinOp::Plus, bin(BinOp::Power, num(2.0), num(3.0)), num(4.0)))
    );
}

#[test]
fn difference_associates_to_the_left() {
    assert_eq!(
        tree("7-2-1"),
        Ok(*bin(BinOp::Minus, bin(BinOp::Minus, num(7.0), num(2.0)), num(1.0)))
    );
    assert_eq!(
        tree("8/4/2"),
        Ok(*bin(BinOp::Divide, bin(BinOp::Divide, num(8.0), num(4.0)), num(2.0)))
    );
}

#[test]
fn factorial_comes_before_power() {
    assert_eq!(
        tree("3!^2"),
        Ok(*bin(BinOp::Power, un(UnOp::Factorial, num(3.0)), num(2.0)))
    );
    assert_eq!(
        tree("2^3!"),
        Ok(*bin(BinOp::Power, num(2.0), un(UnOp::Factorial, num(3.0))))
    );
    assert_eq!(
        tree("3!!"),
        Ok(*un(UnOp::Factorial, un(UnOp::Factorial, num(3.0))))
    );
}

#[test]
fn prefix_binds_tighter_than_infix_and_looser_than_factorial() {
    assert_eq!(
        tree("-2^3"),
        Ok(*bin(BinOp::Power, un(UnOp::Negative, num(2.0)), num(3.0)))
    );
    assert_eq!(
        tree("2^-3"),
        Ok(*bin(BinOp::Power, num(2.0), un(UnOp::Negative, num(3.0))))
    );
    assert_eq!(
        tree("-3!"),
        Ok(*un(UnOp::Negative, un(UnOp::Factorial, num(3.0))))
    );
    assert_eq!(
        tree("sin 1 + 2"),
        Ok(*bin(BinOp::Plus, un(UnOp::Sin, num(1.0)), num(2.0)))
    );
    assert_eq!(
        tree("cos tan exp ln 1"),
        Ok(*un(
            UnOp::Cos,
            un(UnOp::Tan, un(UnOp::Exp, un(UnOp::Log, num(1.0))))
        ))
    );
}

#[test]
fn parentheses_group() {
    assert_eq!(
        tree("(1+2)*3"),
        Ok(*bin(BinOp::Multiply, bin(BinOp::Plus, num(1.0), num(2.0)), num(3.0)))
    );
    assert_eq!(tree("((4))"), Ok(Expr::Number(4.0)));
    assert_eq!(
        tree("(2^3)^4"),
        Ok(*bin(BinOp::Power, bin(BinOp::Power, num(2.0), num(3.0)), num(4.0)))
    );
}

#[test]
fn empty_input_is_the_end_marker() {
    assert_eq!(tree(""), Ok(Expr::Eof));
    assert_eq!(tree("   "), Ok(Expr::Eof));
    assert!(matches!(Ast::string_to_ast(""), Ok(_)));
    assert_eq!(*Ast::string_to_ast("").unwrap().expr(), Expr::Eof);
}

#[test]
fn missing_operand_is_the_end_marker() {
    assert_eq!(tree("1+"), Ok(*bin(BinOp::Plus, num(1.0), Box::new(Expr::Eof))));
    assert_eq!(tree("-"), Ok(*un(UnOp::Negative, Box::new(Expr::Eof))));
    assert_eq!(
        tree("1+2*"),
        Ok(*bin(
            BinOp::Plus,
            num(1.0),
            bin(BinOp::Multiply, num(2.0), Box::new(Expr::Eof))
        ))
    );
}

#[test]
fn unmatched_parenthesis() {
    assert_eq!(tree("(1+2"), Err(ParseError::UnmatchedParen));
    assert_eq!(tree("("), Err(ParseError::UnmatchedParen));
    assert_eq!(tree("(1 2)"), Err(ParseError::UnmatchedParen));
    assert_eq!(tree("((1)"), Err(ParseError::UnmatchedParen));
}

#[test]
fn unexpected_token() {
    assert_eq!(tree("*2"), Err(ParseError::UnexpectedToken));
    assert_eq!(tree("+"), Err(ParseError::UnexpectedToken));
    assert_eq!(tree("!"), Err(ParseError::UnexpectedToken));
    assert_eq!(tree(")"), Err(ParseError::UnexpectedToken));
    assert_eq!(tree("1+*2"), Err(ParseError::UnexpectedToken));
    assert_eq!(tree("(*"), Err(ParseError::UnexpectedToken));
    assert_eq!(tree("()"), Err(ParseError::UnexpectedToken));
    assert_eq!(tree("()+1"), Err(ParseError::UnexpectedToken));
}

#[test]
fn lexical_error_becomes_a_parse_error() {
    assert_eq!(
        tree("$"),
        Err(ParseError::Lexical(LexError { position: 0 }))
    );
    assert_eq!(
        tree("1 + $"),
        Err(ParseError::Lexical(LexError { position: 4 }))
    );
    assert_eq!(
        tree("1 $"),
        Err(ParseError::Lexical(LexError { position: 2 }))
    );
    assert_eq!(
        tree("(1 $"),
        Err(ParseError::Lexical(LexError { position: 3 }))
    );
}

#[test]
fn trailing_tokens_are_left_alone() {
    let mut lex = Lexer::new("1 2 $");
    assert_eq!(
        expr_prec(&mut lex, 0).map(|e| e.map(&value)),
        Ok(Expr::Number(1.0))
    );
    assert_eq!(lex.next(), Some(Ok(Token::Number(b"2".to_vec()))));

    assert_eq!(tree("1)"), Ok(Expr::Number(1.0)));
    assert!(Ast::string_to_ast("1 2").is_ok());
}

#[test]
fn trailing_tokens_can_be_refused() {
    assert!(matches!(
        Ast::parse_complete("1 2"),
        Err(ParseError::TrailingInput)
    ));
    assert!(matches!(
        Ast::parse_complete("1)"),
        Err(ParseError::TrailingInput)
    ));
    assert!(matches!(
        Ast::parse_complete("(1"),
        Err(ParseError::UnmatchedParen)
    ));
    let whole = Ast::parse_complete("1+2").unwrap();
    assert_eq!(
        whole.expr().map(&value),
        *bin(BinOp::Plus, num(1.0), num(2.0))
    );
    assert_eq!(*Ast::parse_complete("").unwrap().expr(), Expr::Eof);
}

#[test]
fn minimum_binding_power_stops_the_parse() {
    let mut lex = Lexer::new("1+2");
    assert_eq!(
        expr_prec(&mut lex, 2).map(|e| e.map(&value)),
        Ok(Expr::Number(1.0))
    );
    assert_eq!(lex.next(), Some(Ok(Token::Plus)));

    let mut lex = Lexer::new("2*3+4");
    assert_eq!(
        expr_prec(&mut lex, 3).map(|e| e.map(&value)),
        Ok(*bin(BinOp::Multiply, num(2.0), num(3.0)))
    );
    assert_eq!(lex.next(), Some(Ok(Token::Plus)));
}

#[test]
fn binding_powers() {
    let plus: Token<f64> = Token::Plus;
    let minus: Token<f64> = Token::Minus;
    let times: Token<f64> = Token::Multiply;
    let over: Token<f64> = Token::Divide;
    let power: Token<f64> = Token::Power;
    let bang: Token<f64> = Token::Factorial;
    let sin: Token<f64> = Token::Sin;
    assert_eq!(infix_prec(&plus), Some((1, 2)));
    assert_eq!(infix_prec(&minus), Some((1, 2)));
    assert_eq!(infix_prec(&times), Some((3, 4)));
    assert_eq!(infix_prec(&over), Some((3, 4)));
    assert_eq!(infix_prec(&power), Some((6, 5)));
    assert_eq!(infix_prec(&bang), None);
    assert_eq!(infix_prec(&Token::Number(1.0)), None);
    assert_eq!(prefix_prec(&minus), Some(8));
    assert_eq!(prefix_prec(&sin), Some(8));
    assert_eq!(prefix_prec(&plus), None);
    assert_eq!(postfix_prec(&bang), Some(9));
    assert_eq!(postfix_prec(&minus), None);
}

#[test]
fn operators_of_tokens() {
    let minus: Token<f64> = Token::Minus;
    let bang: Token<f64> = Token::Factorial;
    let open: Token<f64> = Token::LParens;
    assert_eq!(BinOp::from(&minus), Ok(BinOp::Minus));
    assert_eq!(UnOp::from(&minus), Ok(UnOp::Negative));
    assert_eq!(UnOp::from(&bang), Ok(UnOp::Factorial));
    assert_eq!(BinOp::from(&bang), Err(ParseError::UnexpectedToken));
    assert_eq!(UnOp::from(&open), Err(ParseError::UnexpectedToken));
    assert_eq!(BinOp::from(&Token::Number(2.0)), Err(ParseError::UnexpectedToken));
}

#[test]
fn a_copy_is_equal() {
    let e = tree("1+2*sin(3)!").unwrap();
    assert_eq!(e.clone(), e);
    assert_eq!(e.duplicate(), e);
}
