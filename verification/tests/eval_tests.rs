use ast_calc::ast::Ast;
use ast_calc::eval::{factorial, EvalError};
use ast_calc::parse::{BinOp, Expr, UnOp};

fn value(literal: &Vec<u8>) -> f64 {
    std::str::from_utf8(literal).unwrap().parse::<f64>().unwrap()
}

fn unary(op: UnOp, v: f64) -> f64 {
    match op {
        UnOp::Negative => -v,
        UnOp::Sin => v.sin(),
        UnOp::Cos => v.cos(),
        UnOp::Tan => v.tan(),
        UnOp::Exp => v.exp(),
        UnOp::Log => v.ln(),
        UnOp::Factorial => unreachable!(),
    }
}

fn binary(op: BinOp, a: f64, b: f64) -> f64 {
    match op {
        BinOp::Plus => a + b,
        BinOp::Minus => a - b,
        BinOp::Multiply => a * b,
        BinOp::Divide => a / b,
        BinOp::Power => a.powf(b),
    }
}

fn whole(v: f64) -> Option<u64> {
    if v.fract() == 0.0 {
        Some(v as u64)
    } else {
        None
    }
}

fn from_whole(n: u64) -> f64 {
    n as f64
}

fn calc(input: &str) -> Result<f64, EvalError> {
    let ast = Ast::string_to_ast(input).unwrap();
    ast.map(&value).eval(&unary, &binary, &whole, &from_whole)
}

fn eval(e: &Expr<f64>) -> Result<f64, EvalError> {
    e.eval(&unary, &binary, &whole, &from_whole)
}

#[test]
fn test_calc1() {
    assert_eq!(calc("sin(4) + exp(3 - 1)^3").unwrap(), 402.67199099742726)
}

#[test]
fn test_calc2() {
    assert_eq!(calc("-2 + 4 * -(5^3 + 7 * 3!)").unwrap(), -670f64)
}

#[test]
fn test_calc3() {
    assert_eq!(
        calc("sin(3.14159) + cos(3.14159) + exp(0)^2 - ln(1)/2").unwrap(),
        0.0000026535933140836576
    )
}

#[test]
fn test_calc4() {
    assert_eq!(calc("tan(-4--4) / ln(4)").unwrap(), 0f64);
}

#[test]
fn test_calc5() {
    assert_eq!(calc("ln(exp(-4/5))").unwrap(), -0.8);
}

#[test]
fn empty_input_has_no_value() {
    assert_eq!(calc(""), Err(EvalError::EmptyExpression));
    assert_eq!(eval(&Expr::Eof), Err(EvalError::EmptyExpression));
}

#[test]
fn missing_operand_has_no_value() {
    assert_eq!(calc("1+"), Err(EvalError::EmptyExpression));
    assert_eq!(calc("-"), Err(EvalError::EmptyExpression));
    assert_eq!(calc("2*sin"), Err(EvalError::EmptyExpression));
}

#[test]
fn factorial_of_a_fraction_fails() {
    assert_eq!(calc("2.5!"), Err(EvalError::FactorialOfNonInteger));
    assert_eq!(calc("(1/3)!"), Err(EvalError::FactorialOfNonInteger));
    assert_eq!(calc("(1/0)!"), Err(EvalError::FactorialOfNonInteger));
}

#[test]
fn first_failure_from_the_left_wins() {
    assert_eq!(calc("2.5! +"), Err(EvalError::FactorialOfNonInteger));
    let tree = Expr::BinaryOp(
        BinOp::Plus,
        Box::new(Expr::Eof),
        Box::new(Expr::UnaryOp(UnOp::Factorial, Box::new(Expr::Number(2.5)))),
    );
    assert_eq!(eval(&tree), Err(EvalError::EmptyExpression));
}

#[test]
fn division_by_zero_is_infinite() {
    assert_eq!(calc("1/0").unwrap(), f64::INFINITY);
    assert_eq!(calc("-1/0").unwrap(), f64::NEG_INFINITY);
    assert!(calc("0/0").unwrap().is_nan());
}

#[test]
fn zero_to_the_zero_is_one() {
    assert_eq!(calc("0^0").unwrap(), 1.0);
}

#[test]
fn each_operator_has_its_meaning() {
    assert_eq!(calc("7+2").unwrap(), 9.0);
    assert_eq!(calc("7-2").unwrap(), 5.0);
    assert_eq!(calc("7*2").unwrap(), 14.0);
    assert_eq!(calc("7/2").unwrap(), 3.5);
    assert_eq!(calc("7^2").unwrap(), 49.0);
    assert_eq!(calc("4^0.5").unwrap(), 2.0);
    assert_eq!(calc("2^-1").unwrap(), 0.5);
    assert_eq!(calc("-7").unwrap(), -7.0);
    assert_eq!(calc("sin 0").unwrap(), 0.0);
    assert_eq!(calc("cos 0").unwrap(), 1.0);
    assert_eq!(calc("tan 0").unwrap(), 0.0);
    assert_eq!(calc("exp 0").unwrap(), 1.0);
    assert_eq!(calc("ln 1").unwrap(), 0.0);
    assert_eq!(calc("4!").unwrap(), 24.0);
}

#[test]
fn grouping_shows_in_the_value() {
    assert_eq!(calc("1+2*3").unwrap(), 7.0);
    assert_eq!(calc("(1+2)*3").unwrap(), 9.0);
    assert_eq!(calc("7-2-1").unwrap(), 4.0);
    assert_eq!(calc("2^3^2").unwrap(), 512.0);
    assert_eq!(calc("(2^3)^2").unwrap(), 64.0);
    assert_eq!(calc("3!^2").unwrap(), 36.0);
    assert_eq!(calc("-3!").unwrap(), -6.0);
    assert_eq!(calc("-2^2").unwrap(), 4.0);
}

#[test]
fn evaluating_twice_gives_the_same() {
    let ast = Ast::string_to_ast("sin(4) + exp(3 - 1)^3").unwrap().map(&value);
    let first = ast.eval(&unary, &binary, &whole, &from_whole);
    let second = ast.eval(&unary, &binary, &whole, &from_whole);
    assert_eq!(first, second);
    assert_eq!(first.unwrap().to_bits(), second.unwrap().to_bits());
}

#[test]
fn factorial_values() {
    assert_eq!(factorial(0), 1);
    assert_eq!(factorial(1), 1);
    assert_eq!(factorial(2), 2);
    assert_eq!(factorial(5), 120);
    assert_eq!(factorial(10), 3628800);
    assert_eq!(factorial(20), 2432902008176640000);
}

#[test]
fn factorial_wraps_silently() {
    // 21! = 51090942171709440000 = 2 * 2^64 + 14197454024290336768
    assert_eq!(factorial(21), 14197454024290336768);
    assert_eq!(factorial(65), 9223372036854775808);
    assert_eq!(factorial(66), 0);
    assert_eq!(factorial(1000), 0);
    assert_eq!(factorial(u64::MAX), 0);
    assert_eq!(calc("21!").unwrap(), 14197454024290336768f64);
    assert_eq!(calc("70!").unwrap(), 0.0);
}

#[test]
fn factorial_of_a_negative_whole_number_is_one() {
    assert_eq!(calc("(-3)!").unwrap(), 1.0);
    assert_eq!(calc("0!").unwrap(), 1.0);
}

#[test]
fn evaluation_works_over_any_type_of_value() {
    // Whole numbers modulo 7.
    let ast = Ast::string_to_ast("3*4+5!").unwrap().map(&|lit: &Vec<u8>| value(lit) as u64 % 7);
    let r = ast.eval(
        &|_op: UnOp, v: u64| (7 - v) % 7,
        &|op: BinOp, a: u64, b: u64| match op {
            BinOp::Plus => (a + b) % 7,
            BinOp::Multiply => (a * b) % 7,
            _ => 0,
        },
        &|v: u64| Some(v),
        &|n: u64| n % 7,
    );
    assert_eq!(r, Ok((12 + 120) % 7));
}
