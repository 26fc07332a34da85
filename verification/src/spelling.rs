use crate::lex::{LexError, Lexeme, Token};
use crate::parse::{
    binop_of, complete, infix_power, lemma_tail_consumes, parse_expr, parse_tail, prefix_of, BinOp,
    Expr, ParseError, UnOp,
};
use vstd::prelude::*;

verus! {

/// The token of an infix operator.
pub open spec fn binop_token(op: BinOp) -> Token<Seq<u8>> {
    match op {
        BinOp::Plus => Token::Plus,
        BinOp::Minus => Token::Minus,
        BinOp::Multiply => Token::Multiply,
        BinOp::Divide => Token::Divide,
        BinOp::Power => Token::Power,
    }
}

/// The token of a unary operator.
pub open spec fn unop_token(op: UnOp) -> Token<Seq<u8>> {
    match op {
        UnOp::Negative => Token::Minus,
        UnOp::Sin => Token::Sin,
        UnOp::Cos => Token::Cos,
        UnOp::Tan => Token::Tan,
        UnOp::Exp => Token::Exp,
        UnOp::Log => Token::Log,
        UnOp::Factorial => Token::Factorial,
    }
}

/// An expression written as an operand: a number as it is, anything else in
/// parentheses.
pub open spec fn atom(e: Expr<Seq<u8>>) -> Seq<Lexeme>
    decreases e, 1int,
{
    match e {
        Expr::Number(n) => seq![Ok(Token::Number(n))],
        _ => seq![Ok(Token::LParens)] + spelling(e) + seq![Ok(Token::RParens)],
    }
}

/// An expression written out in tokens, with each operand of an operator written
/// as an `atom`. The end marker is written with no token.
pub open spec fn spelling(e: Expr<Seq<u8>>) -> Seq<Lexeme>
    decreases e, 0int,
{
    match e {
        Expr::Number(n) => seq![Ok(Token::Number(n))],
        Expr::UnaryOp(op, x) => if op == UnOp::Factorial {
            atom(*x) + seq![Ok(Token::Factorial)]
        } else {
            seq![Ok(unop_token(op))] + atom(*x)
        },
        Expr::BinaryOp(op, l, r) => atom(*l) + seq![Ok(binop_token(op))] + atom(*r),
        Expr::Eof => Seq::empty(),
    }
}

/// Whether nothing in `rest` can go on an expression that is read from binding
/// power 0: it is empty or starts with a closing parenthesis.
pub open spec fn closes(rest: Seq<Lexeme>) -> bool {
    rest.len() == 0 || rest[0] == Ok::<Token<Seq<u8>>, LexError>(Token::RParens)
}

/// Before the end of the input and before a closing parenthesis, an expression
/// stays as it is.
pub proof fn lemma_tail_stops(lhs: Expr<Seq<u8>>, rest: Seq<Lexeme>, min: u8)
    requires
        closes(rest),
    ensures
        parse_tail(lhs, rest, min) == (Ok::<Expr<Seq<u8>>, ParseError>(lhs), rest),
{
}

/// An operand is read as the expression it spells, whatever follows it and
/// whatever the binding power: what follows goes on from that expression.
pub proof fn lemma_atom_parses(e: Expr<Seq<u8>>, rest: Seq<Lexeme>, min: u8)
    requires
        complete(e),
    ensures
        parse_expr(atom(e) + rest, min) == parse_tail(e, rest, min),
    decreases e, 1int,
{
    let ts = atom(e) + rest;
    match e {
        Expr::Number(n) => {
            assert(ts[0] == Ok::<Token<Seq<u8>>, LexError>(Token::Number(n)));
            assert(ts.skip(1) =~= rest);
        },
        _ => {
            let inner = seq![Ok(Token::RParens)] + rest;
            assert(ts[0] == Ok::<Token<Seq<u8>>, LexError>(Token::LParens));
            assert(ts.skip(1) =~= spelling(e) + inner);
            lemma_spelling_parses(e, inner);
            assert(inner.skip(1) =~= rest);
        },
    }
}

/// The spelling of an expression is read as that expression, up to the end of the
/// input or to the parenthesis that closes it.
pub proof fn lemma_spelling_parses(e: Expr<Seq<u8>>, rest: Seq<Lexeme>)
    requires
        complete(e),
        closes(rest),
    ensures
        parse_expr(spelling(e) + rest, 0) == (Ok::<Expr<Seq<u8>>, ParseError>(e), rest),
    decreases e, 0int,
{
    let ts = spelling(e) + rest;
    match e {
        Expr::Number(n) => {
            assert(ts[0] == Ok::<Token<Seq<u8>>, LexError>(Token::Number(n)));
            assert(ts.skip(1) =~= rest);
            lemma_tail_stops(e, rest, 0);
        },
        Expr::UnaryOp(op, x) => {
            if op == UnOp::Factorial {
                let after = seq![Ok(Token::Factorial)] + rest;
                assert(ts =~= atom(*x) + after);
                lemma_atom_parses(*x, after, 0);
                assert(after.skip(1) =~= rest);
                lemma_tail_stops(e, rest, 0);
            } else {
                assert(ts[0] == Ok::<Token<Seq<u8>>, LexError>(unop_token(op)));
                assert(prefix_of(unop_token(op)) == Some(op));
                assert(ts.skip(1) =~= atom(*x) + rest);
                lemma_atom_parses(*x, rest, 8);
                lemma_tail_stops(*x, rest, 8);
                lemma_tail_stops(e, rest, 0);
            }
        },
        Expr::BinaryOp(op, l, r) => {
            let after = seq![Ok(binop_token(op))] + atom(*r) + rest;
            assert(ts =~= atom(*l) + after);
            lemma_atom_parses(*l, after, 0);
            lemma_tail_step(*l, binop_token(op), *r, rest, 0);
            lemma_tail_stops(*r, rest, infix_power(binop_token(op))->Some_0.1);
            lemma_tail_stops(e, rest, 0);
        },
        Expr::Eof => {},
    }
}

/// One step of reading on: behind `lhs`, an infix operator whose left binding
/// power is `min` or above takes the operand `x` with what that operand grows into
/// at the operator's right binding power, and reading goes on from the two.
pub proof fn lemma_tail_step(
    lhs: Expr<Seq<u8>>,
    infix: Token<Seq<u8>>,
    x: Expr<Seq<u8>>,
    rest: Seq<Lexeme>,
    min: u8,
)
    requires
        complete(x),
        infix_power(infix) is Some,
        infix_power(infix)->Some_0.0 >= min,
    ensures
        parse_tail(lhs, seq![Ok(infix)] + atom(x) + rest, min) == match parse_tail(
            x,
            rest,
            infix_power(infix)->Some_0.1,
        ) {
            (Ok(y), after) => parse_tail(
                Expr::BinaryOp(binop_of(infix)->Some_0, Box::new(lhs), Box::new(y)),
                after,
                min,
            ),
            (Err(error), after) => (Err(error), after),
        },
    decreases x, 2int,
{
    let ts = seq![Ok(infix)] + atom(x) + rest;
    let right = infix_power(infix)->Some_0.1;
    assert(ts[0] == Ok::<Token<Seq<u8>>, LexError>(infix));
    assert(ts.skip(1) =~= atom(x) + rest);
    lemma_atom_parses(x, rest, right);
    lemma_tail_consumes(x, rest, right);
}

/// Every complete expression is what its spelling is read as.
pub proof fn lemma_spelling_round_trip(e: Expr<Seq<u8>>)
    requires
        complete(e),
    ensures
        parse_expr(spelling(e), 0) == (Ok::<Expr<Seq<u8>>, ParseError>(e), Seq::<Lexeme>::empty()),
{
    lemma_spelling_parses(e, Seq::empty());
    assert(spelling(e) + Seq::<Lexeme>::empty() =~= spelling(e));
}

/// A product binds tighter than a sum: `a+b*c` is read as `a+(b*c)`, and so is
/// every sum or difference with a product or quotient, whatever complete
/// expressions stand as the operands `a`, `b` and `c`.
pub proof fn lemma_product_binds_tighter(
    a: Expr<Seq<u8>>,
    b: Expr<Seq<u8>>,
    c: Expr<Seq<u8>>,
    sum: BinOp,
    product: BinOp,
)
    requires
        complete(a),
        complete(b),
        complete(c),
        sum == BinOp::Plus || sum == BinOp::Minus,
        product == BinOp::Multiply || product == BinOp::Divide,
    ensures
        parse_expr(
            atom(a) + seq![Ok(binop_token(sum))] + atom(b) + seq![Ok(binop_token(product))] + atom(
                c,
            ),
            0,
        ) == (Ok::<Expr<Seq<u8>>, ParseError>(
            Expr::BinaryOp(
                sum,
                Box::new(a),
                Box::new(Expr::BinaryOp(product, Box::new(b), Box::new(c))),
            ),
        ), Seq::<Lexeme>::empty()),
{
    let none = Seq::<Lexeme>::empty();
    let ts = atom(a) + seq![Ok(binop_token(sum))] + atom(b) + seq![Ok(binop_token(product))]
        + atom(c);
    let behind_b = seq![Ok(binop_token(product))] + atom(c) + none;
    let behind_a = seq![Ok(binop_token(sum))] + atom(b) + behind_b;
    let right = Expr::BinaryOp(product, Box::new(b), Box::new(c));
    let whole = Expr::BinaryOp(sum, Box::new(a), Box::new(right));
    assert(ts =~= atom(a) + behind_a);
    lemma_atom_parses(a, behind_a, 0);
    lemma_tail_step(a, binop_token(sum), b, behind_b, 0);
    lemma_tail_step(b, binop_token(product), c, none, 2);
    lemma_tail_stops(c, none, 4);
    lemma_tail_stops(right, none, 2);
    lemma_tail_stops(whole, none, 0);
}

/// Sums and products group to the left: `a-b-c` is read as `(a-b)-c`, whatever
/// complete expressions stand as the operands. This holds of every two infix
/// operators of which the first is no power and the second does not bind tighter
/// than the first.
pub proof fn lemma_chain_groups_left(
    a: Expr<Seq<u8>>,
    b: Expr<Seq<u8>>,
    c: Expr<Seq<u8>>,
    first: BinOp,
    second: BinOp,
)
    requires
        complete(a),
        complete(b),
        complete(c),
        first != BinOp::Power,
        infix_power(binop_token(second))->Some_0.0 <= infix_power(binop_token(first))->Some_0.0,
    ensures
        parse_expr(
            atom(a) + seq![Ok(binop_token(first))] + atom(b) + seq![Ok(binop_token(second))]
                + atom(c),
            0,
        ) == (Ok::<Expr<Seq<u8>>, ParseError>(
            Expr::BinaryOp(
                second,
                Box::new(Expr::BinaryOp(first, Box::new(a), Box::new(b))),
                Box::new(c),
            ),
        ), Seq::<Lexeme>::empty()),
{
    let none = Seq::<Lexeme>::empty();
    let ts = atom(a) + seq![Ok(binop_token(first))] + atom(b) + seq![Ok(binop_token(second))]
        + atom(c);
    let behind_b = seq![Ok(binop_token(second))] + atom(c) + none;
    let behind_a = seq![Ok(binop_token(first))] + atom(b) + behind_b;
    let left = Expr::BinaryOp(first, Box::new(a), Box::new(b));
    let whole = Expr::BinaryOp(second, Box::new(left), Box::new(c));
    let first_right = infix_power(binop_token(first))->Some_0.1;
    let second_right = infix_power(binop_token(second))->Some_0.1;
    assert(ts =~= atom(a) + behind_a);
    lemma_atom_parses(a, behind_a, 0);
    lemma_tail_step(a, binop_token(first), b, behind_b, 0);
    assert(behind_b[0] == Ok::<Token<Seq<u8>>, LexError>(binop_token(second)));
    assert(parse_tail(b, behind_b, first_right) == (
        Ok::<Expr<Seq<u8>>, ParseError>(b),
        behind_b,
    ));
    lemma_tail_step(left, binop_token(second), c, none, 0);
    lemma_tail_stops(c, none, second_right);
    lemma_tail_stops(whole, none, 0);
}

/// Powers group to the right: `a^b^c` is read as `a^(b^c)`, whatever complete
/// expressions stand as the operands.
pub proof fn lemma_power_groups_right(a: Expr<Seq<u8>>, b: Expr<Seq<u8>>, c: Expr<Seq<u8>>)
    requires
        complete(a),
        complete(b),
        complete(c),
    ensures
        parse_expr(
            atom(a) + seq![Ok(Token::Power)] + atom(b) + seq![Ok(Token::Power)] + atom(c),
            0,
        ) == (Ok::<Expr<Seq<u8>>, ParseError>(
            Expr::BinaryOp(
                BinOp::Power,
                Box::new(a),
                Box::new(Expr::BinaryOp(BinOp::Power, Box::new(b), Box::new(c))),
            ),
        ), Seq::<Lexeme>::empty()),
{
    let none = Seq::<Lexeme>::empty();
    let power: Token<Seq<u8>> = Token::Power;
    let ts = atom(a) + seq![Ok(power)] + atom(b) + seq![Ok(power)] + atom(c);
    let behind_b = seq![Ok(power)] + atom(c) + none;
    let behind_a = seq![Ok(power)] + atom(b) + behind_b;
    let right = Expr::BinaryOp(BinOp::Power, Box::new(b), Box::new(c));
    let whole = Expr::BinaryOp(BinOp::Power, Box::new(a), Box::new(right));
    assert(ts =~= atom(a) + behind_a);
    lemma_atom_parses(a, behind_a, 0);
    lemma_tail_step(a, power, b, behind_b, 0);
    lemma_tail_step(b, power, c, none, 5);
    lemma_tail_stops(c, none, 5);
    lemma_tail_stops(right, none, 5);
    lemma_tail_stops(whole, none, 0);
}

/// A power binds tighter than a product or a sum on either side of it: `a*b^c`
/// is read as `a*(b^c)` and `a^b*c` as `(a^b)*c`, whatever complete expressions
/// stand as the operands.
pub proof fn lemma_power_binds_tighter(
    a: Expr<Seq<u8>>,
    b: Expr<Seq<u8>>,
    c: Expr<Seq<u8>>,
    other: BinOp,
)
    requires
        complete(a),
        complete(b),
        complete(c),
        other != BinOp::Power,
    ensures
        parse_expr(
            atom(a) + seq![Ok(binop_token(other))] + atom(b) + seq![Ok(Token::Power)] + atom(c),
            0,
        ) == (Ok::<Expr<Seq<u8>>, ParseError>(
            Expr::BinaryOp(
                other,
                Box::new(a),
                Box::new(Expr::BinaryOp(BinOp::Power, Box::new(b), Box::new(c))),
            ),
        ), Seq::<Lexeme>::empty()),
        parse_expr(
            atom(a) + seq![Ok(Token::Power)] + atom(b) + seq![Ok(binop_token(other))] + atom(c),
            0,
        ) == (Ok::<Expr<Seq<u8>>, ParseError>(
            Expr::BinaryOp(
                other,
                Box::new(Expr::BinaryOp(BinOp::Power, Box::new(a), Box::new(b))),
                Box::new(c),
            ),
        ), Seq::<Lexeme>::empty()),
{
    let none = Seq::<Lexeme>::empty();
    let power: Token<Seq<u8>> = Token::Power;
    let weak = binop_token(other);
    let weak_right = infix_power(weak)->Some_0.1;
    {
        let ts = atom(a) + seq![Ok(weak)] + atom(b) + seq![Ok(power)] + atom(c);
        let behind_b = seq![Ok(power)] + atom(c) + none;
        let behind_a = seq![Ok(weak)] + atom(b) + behind_b;
        let right = Expr::BinaryOp(BinOp::Power, Box::new(b), Box::new(c));
        let whole = Expr::BinaryOp(other, Box::new(a), Box::new(right));
        assert(ts =~= atom(a) + behind_a);
        lemma_atom_parses(a, behind_a, 0);
        lemma_tail_step(a, weak, b, behind_b, 0);
        lemma_tail_step(b, power, c, none, weak_right);
        lemma_tail_stops(c, none, 5);
        lemma_tail_stops(right, none, weak_right);
        lemma_tail_stops(whole, none, 0);
    }
    {
        let ts = atom(a) + seq![Ok(power)] + atom(b) + seq![Ok(weak)] + atom(c);
        let behind_b = seq![Ok(weak)] + atom(c) + none;
        let behind_a = seq![Ok(power)] + atom(b) + behind_b;
        let left = Expr::BinaryOp(BinOp::Power, Box::new(a), Box::new(b));
        let whole = Expr::BinaryOp(other, Box::new(left), Box::new(c));
        assert(ts =~= atom(a) + behind_a);
        lemma_atom_parses(a, behind_a, 0);
        lemma_tail_step(a, power, b, behind_b, 0);
        assert(behind_b[0] == Ok::<Token<Seq<u8>>, LexError>(weak));
        assert(parse_tail(b, behind_b, 5) == (Ok::<Expr<Seq<u8>>, ParseError>(b), behind_b));
        lemma_tail_step(left, weak, c, none, 0);
        lemma_tail_stops(c, none, weak_right);
        lemma_tail_stops(whole, none, 0);
    }
}

/// A factorial is taken before the operator that follows it: `a!^b` is read as
/// `(a!)^b`, and so with every infix operator in place of the power, whatever
/// complete expressions stand as the operands.
pub proof fn lemma_factorial_binds_tightest(a: Expr<Seq<u8>>, b: Expr<Seq<u8>>, infix: BinOp)
    requires
        complete(a),
        complete(b),
    ensures
        parse_expr(
            atom(a) + seq![Ok(Token::Factorial)] + seq![Ok(binop_token(infix))] + atom(b),
            0,
        ) == (Ok::<Expr<Seq<u8>>, ParseError>(
            Expr::BinaryOp(
                infix,
                Box::new(Expr::UnaryOp(UnOp::Factorial, Box::new(a))),
                Box::new(b),
            ),
        ), Seq::<Lexeme>::empty()),
{
    let none = Seq::<Lexeme>::empty();
    let ts = atom(a) + seq![Ok(Token::Factorial)] + seq![Ok(binop_token(infix))] + atom(b);
    let behind_bang = seq![Ok(binop_token(infix))] + atom(b) + none;
    let behind_a = seq![Ok(Token::Factorial)] + behind_bang;
    let left = Expr::UnaryOp(UnOp::Factorial, Box::new(a));
    let whole = Expr::BinaryOp(infix, Box::new(left), Box::new(b));
    assert(ts =~= atom(a) + behind_a);
    lemma_atom_parses(a, behind_a, 0);
    assert(behind_a.skip(1) =~= behind_bang);
    lemma_tail_step(left, binop_token(infix), b, none, 0);
    lemma_tail_stops(b, none, infix_power(binop_token(infix))->Some_0.1);
    lemma_tail_stops(whole, none, 0);
}

} // verus!
