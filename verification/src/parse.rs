use crate::lex::{LexError, Lexeme, Lexer, Token};
use vstd::prelude::*;

verus! {

/// Why an input is no expression.
#[derive(Debug, PartialEq, Eq, Clone, Copy, Structural)]
pub enum ParseError {
    /// The tokenizer met a byte at which no token starts.
    Lexical(LexError),
    /// An opening parenthesis whose expression is not followed by a closing one.
    UnmatchedParen,
    /// A token that can start no expression stands where one has to start.
    UnexpectedToken,
    /// Tokens are left behind a complete expression.
    TrailingInput,
}

/// Infix operators.
#[derive(Debug, PartialEq, Eq, Clone, Copy, Structural)]
pub enum BinOp {
    Plus,
    Minus,
    Multiply,
    Divide,
    Power,
}

/// Prefix operators, and the postfix factorial.
#[derive(Debug, PartialEq, Eq, Clone, Copy, Structural)]
pub enum UnOp {
    Negative,
    Sin,
    Cos,
    Tan,
    Exp,
    Log,
    Factorial,
}

/// An expression tree whose number leaves hold an `N`.
#[derive(Debug, PartialEq)]
pub enum Expr<N> {
    BinaryOp(BinOp, Box<Expr<N>>, Box<Expr<N>>),
    UnaryOp(UnOp, Box<Expr<N>>),
    Number(N),
    Eof,
}

/// The tree with each number leaf replaced by its view.
pub open spec fn expr_view<N: View>(e: Expr<N>) -> Expr<N::V>
    decreases e,
{
    match e {
        Expr::BinaryOp(op, l, r) => Expr::BinaryOp(
            op,
            Box::new(expr_view(*l)),
            Box::new(expr_view(*r)),
        ),
        Expr::UnaryOp(op, x) => Expr::UnaryOp(op, Box::new(expr_view(*x))),
        Expr::Number(n) => Expr::Number(n.view()),
        Expr::Eof => Expr::Eof,
    }
}

impl<N: View> View for Expr<N> {
    type V = Expr<N::V>;

    open spec fn view(&self) -> Expr<N::V> {
        expr_view(*self)
    }
}

impl<N: Clone> Expr<N> {
    /// Whether `out` is this tree with a clone of each number leaf in its place.
    pub open spec fn copied_to(self, out: Expr<N>) -> bool
        decreases self,
    {
        match self {
            Expr::BinaryOp(op, l, r) => out matches Expr::BinaryOp(op2, l2, r2) && op == op2
                && l.copied_to(*l2) && r.copied_to(*r2),
            Expr::UnaryOp(op, e) => out matches Expr::UnaryOp(op2, e2) && op == op2
                && e.copied_to(*e2),
            Expr::Number(n) => out matches Expr::Number(m) && cloned(n, m),
            Expr::Eof => out is Eof,
        }
    }

    /// A copy of the tree, with each number leaf cloned.
    pub fn duplicate(&self) -> (out: Expr<N>)
        ensures
            self.copied_to(out),
        decreases self,
    {
        match self {
            Expr::BinaryOp(op, l, r) => {
                let l2 = l.duplicate();
                let r2 = r.duplicate();
                Expr::BinaryOp(*op, Box::new(l2), Box::new(r2))
            },
            Expr::UnaryOp(op, e) => {
                let e2 = e.duplicate();
                Expr::UnaryOp(*op, Box::new(e2))
            },
            Expr::Number(n) => Expr::Number(n.clone()),
            Expr::Eof => Expr::Eof,
        }
    }
}

impl<N: Clone> Clone for Expr<N> {
    /// A copy of the tree, with each number leaf cloned.
    fn clone(&self) -> (out: Expr<N>)
        ensures
            self.copied_to(out),
    {
        self.duplicate()
    }
}

impl<N> Expr<N> {
    /// Whether `out` is this tree with what every number leaf holds replaced by
    /// something that `made` relates to it.
    pub open spec fn maps_to<M>(self, made: spec_fn(N, M) -> bool, out: Expr<M>) -> bool
        decreases self,
    {
        match self {
            Expr::BinaryOp(op, l, r) => out matches Expr::BinaryOp(op2, l2, r2) && op == op2
                && l.maps_to(made, *l2) && r.maps_to(made, *r2),
            Expr::UnaryOp(op, e) => out matches Expr::UnaryOp(op2, e2) && op == op2
                && e.maps_to(made, *e2),
            Expr::Number(n) => out matches Expr::Number(m) && made(n, m),
            Expr::Eof => out is Eof,
        }
    }

    /// Rebuilds the tree with each number leaf replaced by what `f` makes of it.
    pub fn map<M, F: Fn(&N) -> M>(&self, f: &F) -> (out: Expr<M>)
        requires
            forall|n: &N| call_requires(*f, (n,)),
        ensures
            self.maps_to(|n: N, m: M| call_ensures(*f, (&n,), m), out),
        decreases self,
    {
        match self {
            Expr::BinaryOp(op, l, r) => {
                let l2 = l.map(f);
                let r2 = r.map(f);
                Expr::BinaryOp(*op, Box::new(l2), Box::new(r2))
            },
            Expr::UnaryOp(op, e) => {
                let e2 = e.map(f);
                Expr::UnaryOp(*op, Box::new(e2))
            },
            Expr::Number(n) => Expr::Number(f(n)),
            Expr::Eof => Expr::Eof,
        }
    }
}

/// Whether an expression holds no end marker.
pub open spec fn complete<N>(e: Expr<N>) -> bool
    decreases e,
{
    match e {
        Expr::BinaryOp(_, l, r) => complete(*l) && complete(*r),
        Expr::UnaryOp(_, x) => complete(*x),
        Expr::Number(_) => true,
        Expr::Eof => false,
    }
}

/// The number of end markers in an expression: the operands that it lacks.
pub open spec fn end_markers<N>(e: Expr<N>) -> nat
    decreases e,
{
    match e {
        Expr::BinaryOp(_, l, r) => end_markers(*l) + end_markers(*r),
        Expr::UnaryOp(_, x) => end_markers(*x),
        Expr::Number(_) => 0,
        Expr::Eof => 1,
    }
}

/// A complete expression holds no end marker.
pub proof fn lemma_complete_has_no_end_marker<N>(e: Expr<N>)
    requires
        complete(e),
    ensures
        end_markers(e) == 0,
    decreases e,
{
    match e {
        Expr::BinaryOp(_, l, r) => {
            lemma_complete_has_no_end_marker(*l);
            lemma_complete_has_no_end_marker(*r);
        },
        Expr::UnaryOp(_, x) => {
            lemma_complete_has_no_end_marker(*x);
        },
        _ => {},
    }
}

/// Replacing what the number leaves hold changes neither what an expression
/// lacks nor whether it is complete.
pub proof fn lemma_maps_to_keeps_shape<N, M>(e: Expr<N>, made: spec_fn(N, M) -> bool, out: Expr<M>)
    requires
        e.maps_to(made, out),
    ensures
        end_markers(out) == end_markers(e),
        complete(out) == complete(e),
    decreases e,
{
    match e {
        Expr::BinaryOp(_, l, r) => {
            lemma_maps_to_keeps_shape(*l, made, *out->BinaryOp_1);
            lemma_maps_to_keeps_shape(*r, made, *out->BinaryOp_2);
        },
        Expr::UnaryOp(_, x) => {
            lemma_maps_to_keeps_shape(*x, made, *out->UnaryOp_1);
        },
        _ => {},
    }
}

/// The infix operator that a token stands for.
pub open spec fn binop_of<N>(token: Token<N>) -> Option<BinOp> {
    match token {
        Token::Plus => Some(BinOp::Plus),
        Token::Minus => Some(BinOp::Minus),
        Token::Multiply => Some(BinOp::Multiply),
        Token::Divide => Some(BinOp::Divide),
        Token::Power => Some(BinOp::Power),
        _ => None,
    }
}

/// The prefix operator that a token stands for.
pub open spec fn prefix_of<N>(token: Token<N>) -> Option<UnOp> {
    match token {
        Token::Minus => Some(UnOp::Negative),
        Token::Sin => Some(UnOp::Sin),
        Token::Cos => Some(UnOp::Cos),
        Token::Tan => Some(UnOp::Tan),
        Token::Exp => Some(UnOp::Exp),
        Token::Log => Some(UnOp::Log),
        _ => None,
    }
}

/// The unary operator that a token stands for, before or behind its operand.
pub open spec fn unop_of<N>(token: Token<N>) -> Option<UnOp> {
    match token {
        Token::Factorial => Some(UnOp::Factorial),
        _ => prefix_of(token),
    }
}

/// Left and right binding power of an infix operator. For sums and products the
/// right one is above the left one: a chain of them groups to the left. For the
/// power the left one is above the right one: a chain of powers groups to the
/// right.
pub open spec fn infix_power<N>(token: Token<N>) -> Option<(u8, u8)> {
    match token {
        Token::Plus => Some((1u8, 2u8)),
        Token::Minus => Some((1u8, 2u8)),
        Token::Multiply => Some((3u8, 4u8)),
        Token::Divide => Some((3u8, 4u8)),
        Token::Power => Some((6u8, 5u8)),
        _ => None,
    }
}

/// Right binding power of a prefix operator.
pub open spec fn prefix_power<N>(token: Token<N>) -> Option<u8> {
    if prefix_of(token) is Some {
        Some(8u8)
    } else {
        None
    }
}

/// Left binding power of a postfix operator.
pub open spec fn postfix_power<N>(token: Token<N>) -> Option<u8> {
    match token {
        Token::Factorial => Some(9u8),
        _ => None,
    }
}

impl BinOp {
    /// The operator that an infix token stands for; any other token is unexpected.
    pub fn from<N>(value: &Token<N>) -> (r: Result<BinOp, ParseError>)
        ensures
            r == match binop_of(*value) {
                Some(op) => Ok::<BinOp, ParseError>(op),
                None => Err(ParseError::UnexpectedToken),
            },
    {
        match value {
            Token::Plus => Ok(BinOp::Plus),
            Token::Minus => Ok(BinOp::Minus),
            Token::Multiply => Ok(BinOp::Multiply),
            Token::Divide => Ok(BinOp::Divide),
            Token::Power => Ok(BinOp::Power),
            _ => Err(ParseError::UnexpectedToken),
        }
    }
}

impl UnOp {
    /// The operator that a prefix or postfix token stands for; any other token is
    /// unexpected.
    pub fn from<N>(value: &Token<N>) -> (r: Result<UnOp, ParseError>)
        ensures
            r == match unop_of(*value) {
                Some(op) => Ok::<UnOp, ParseError>(op),
                None => Err(ParseError::UnexpectedToken),
            },
    {
        match value {
            Token::Minus => Ok(UnOp::Negative),
            Token::Sin => Ok(UnOp::Sin),
            Token::Cos => Ok(UnOp::Cos),
            Token::Tan => Ok(UnOp::Tan),
            Token::Exp => Ok(UnOp::Exp),
            Token::Log => Ok(UnOp::Log),
            Token::Factorial => Ok(UnOp::Factorial),
            _ => Err(ParseError::UnexpectedToken),
        }
    }
}

/// Left and right binding power of an infix operator; `None` for any other token.
pub fn infix_prec<N>(op: &Token<N>) -> (r: Option<(u8, u8)>)
    ensures
        r == infix_power(*op),
{
    match op {
        Token::Plus => Some((1, 2)),
        Token::Minus => Some((1, 2)),
        Token::Multiply => Some((3, 4)),
        Token::Divide => Some((3, 4)),
        Token::Power => Some((6, 5)),
        _ => None,
    }
}

/// Right binding power of a prefix operator; `None` for any other token.
pub fn prefix_prec<N>(op: &Token<N>) -> (r: Option<u8>)
    ensures
        r == prefix_power(*op),
{
    match op {
        Token::Minus => Some(8),
        Token::Sin => Some(8),
        Token::Cos => Some(8),
        Token::Tan => Some(8),
        Token::Exp => Some(8),
        Token::Log => Some(8),
        _ => None,
    }
}

/// Left binding power of a postfix operator; `None` for any other token.
pub fn postfix_prec<N>(op: &Token<N>) -> (r: Option<u8>)
    ensures
        r == postfix_power(*op),
{
    match op {
        Token::Factorial => Some(9),
        _ => None,
    }
}

/// A parse: the expression or the error, and the tokens that are left.
pub type Parsed = (Result<Expr<Seq<u8>>, ParseError>, Seq<Lexeme>);

/// The expression that starts the token sequence `ts`, read with operators of left
/// binding power `min` and above, and the tokens left behind it.
///
/// An empty sequence gives the end marker. A number is a leaf; a parenthesis holds an
/// expression read from binding power 0 and has to be closed; a prefix operator takes
/// the expression read from its right binding power. What follows is read by
/// `parse_tail`.
pub open spec fn parse_expr(ts: Seq<Lexeme>, min: u8) -> Parsed
    decreases ts.len(), 1int,
{
    if ts.len() == 0 {
        (Ok(Expr::Eof), ts)
    } else {
        let rest = ts.skip(1);
        match ts[0] {
            Err(e) => (Err(ParseError::Lexical(e)), rest),
            Ok(Token::Number(n)) => parse_tail(Expr::Number(n), rest, min),
            Ok(Token::LParens) => {
                let (inner, after) = parse_expr(rest, 0);
                match inner {
                    Err(e) => (Err(e), after),
                    Ok(x) => if after.len() == 0 {
                        (Err(ParseError::UnmatchedParen), after)
                    } else if after.len() > rest.len() {
                        (Err(ParseError::UnmatchedParen), after)
                    } else {
                        match after[0] {
                            Ok(Token::RParens) => parse_tail(x, after.skip(1), min),
                            Err(e) => (Err(ParseError::Lexical(e)), after.skip(1)),
                            _ => (Err(ParseError::UnmatchedParen), after.skip(1)),
                        }
                    },
                }
            },
            Ok(token) => match prefix_of(token) {
                Some(op) => {
                    let (operand, after) = parse_expr(rest, 8);
                    match operand {
                        Err(e) => (Err(e), after),
                        Ok(x) => if after.len() > rest.len() {
                            (Ok(Expr::UnaryOp(op, Box::new(x))), after)
                        } else {
                            parse_tail(Expr::UnaryOp(op, Box::new(x)), after, min)
                        },
                    }
                },
                None => (Err(ParseError::UnexpectedToken), rest),
            },
        }
    }
}

/// The expression that `lhs` grows into by the postfix and infix operators at the
/// start of `ts`, as long as their left binding power is `min` or above, and the
/// tokens left behind it.
///
/// The tests on the length of what a nested parse leaves never fail
/// (`lemma_parse_consumes`); they are there for the definition to be well founded.
pub open spec fn parse_tail(lhs: Expr<Seq<u8>>, ts: Seq<Lexeme>, min: u8) -> Parsed
    decreases ts.len(), 0int,
{
    if ts.len() == 0 {
        (Ok(lhs), ts)
    } else {
        match ts[0] {
            Err(e) => (Err(ParseError::Lexical(e)), ts),
            Ok(Token::Factorial) => if 9 < min {
                (Ok(lhs), ts)
            } else {
                parse_tail(Expr::UnaryOp(UnOp::Factorial, Box::new(lhs)), ts.skip(1), min)
            },
            Ok(token) => match binop_of(token) {
                Some(op) => if infix_power(token)->Some_0.0 < min {
                    (Ok(lhs), ts)
                } else {
                    let (rhs, after) = parse_expr(ts.skip(1), infix_power(token)->Some_0.1);
                    match rhs {
                        Err(e) => (Err(e), after),
                        Ok(x) => if after.len() >= ts.len() {
                            (Ok(Expr::BinaryOp(op, Box::new(lhs), Box::new(x))), after)
                        } else {
                            parse_tail(
                                Expr::BinaryOp(op, Box::new(lhs), Box::new(x)),
                                after,
                                min,
                            )
                        },
                    }
                },
                None => (Ok(lhs), ts),
            },
        }
    }
}

/// Whether `rest` is what is left of `ts` behind some of its first tokens.
pub open spec fn is_suffix(rest: Seq<Lexeme>, ts: Seq<Lexeme>) -> bool {
    rest.len() <= ts.len() && rest == ts.skip(ts.len() - rest.len())
}

/// A parse takes tokens from the front only, and `parse_expr` takes at least one
/// unless there is none.
pub proof fn lemma_parse_consumes(ts: Seq<Lexeme>, min: u8)
    ensures
        is_suffix(parse_expr(ts, min).1, ts),
        ts.len() > 0 ==> parse_expr(ts, min).1.len() < ts.len(),
    decreases ts.len(), 1int,
{
    if ts.len() == 0 {
        assert(ts.skip(0) == ts);
    } else {
        let rest = ts.skip(1);
        match ts[0] {
            Err(e) => {},
            Ok(Token::Number(n)) => {
                lemma_tail_consumes(Expr::Number(n), rest, min);
                lemma_suffix_chain(parse_expr(ts, min).1, rest, ts);
            },
            Ok(Token::LParens) => {
                lemma_parse_consumes(rest, 0);
                let (inner, after) = parse_expr(rest, 0);
                lemma_suffix_chain(after, rest, ts);
                if inner is Ok && after.len() > 0 {
                    lemma_suffix_chain(after.skip(1), after, ts);
                    if after[0] == Ok::<Token<Seq<u8>>, LexError>(Token::RParens) {
                        lemma_tail_consumes(inner->Ok_0, after.skip(1), min);
                        lemma_suffix_chain(parse_expr(ts, min).1, after.skip(1), ts);
                    }
                }
            },
            Ok(token) => {
                if let Some(op) = prefix_of(token) {
                    lemma_parse_consumes(rest, 8);
                    let (operand, after) = parse_expr(rest, 8);
                    lemma_suffix_chain(after, rest, ts);
                    if let Ok(x) = operand {
                        lemma_tail_consumes(Expr::UnaryOp(op, Box::new(x)), after, min);
                        lemma_suffix_chain(parse_expr(ts, min).1, after, ts);
                    }
                }
            },
        }
    }
}

/// `parse_tail` takes tokens from the front only.
pub proof fn lemma_tail_consumes(lhs: Expr<Seq<u8>>, ts: Seq<Lexeme>, min: u8)
    ensures
        is_suffix(parse_tail(lhs, ts, min).1, ts),
    decreases ts.len(), 0int,
{
    assert(ts.skip(0) == ts);
    if ts.len() > 0 {
        match ts[0] {
            Err(e) => {},
            Ok(Token::Factorial) => {
                if 9 >= min {
                    let grown = Expr::UnaryOp(UnOp::Factorial, Box::new(lhs));
                    lemma_tail_consumes(grown, ts.skip(1), min);
                    lemma_suffix_chain(parse_tail(lhs, ts, min).1, ts.skip(1), ts);
                }
            },
            Ok(token) => {
                if let Some(op) = binop_of(token) {
                    let (l, r) = infix_power(token)->Some_0;
                    if l >= min {
                        lemma_parse_consumes(ts.skip(1), r);
                        let (rhs, after) = parse_expr(ts.skip(1), r);
                        lemma_suffix_chain(after, ts.skip(1), ts);
                        if let Ok(x) = rhs {
                            let grown = Expr::BinaryOp(op, Box::new(lhs), Box::new(x));
                            lemma_tail_consumes(grown, after, min);
                            lemma_suffix_chain(parse_tail(lhs, ts, min).1, after, ts);
                        }
                    }
                }
            },
        }
    }
}

/// What is left of what is left of `c` is left of `c`.
pub proof fn lemma_suffix_chain(a: Seq<Lexeme>, b: Seq<Lexeme>, c: Seq<Lexeme>)
    requires
        is_suffix(a, b),
        is_suffix(b, c) || b == c.skip(1) && c.len() > 0,
    ensures
        is_suffix(a, c),
{
    assert(a =~= c.skip(c.len() - a.len()));
}

/// The result of a parse with each literal's bytes taken by their view.
pub open spec fn tree_of(r: Result<Expr<Vec<u8>>, ParseError>) -> Result<
    Expr<Seq<u8>>,
    ParseError,
> {
    match r {
        Ok(e) => Ok(e@),
        Err(error) => Err(error),
    }
}

/// Reads one expression from the tokenizer, with operators of left binding power
/// `min_prec` and above, and leaves the tokenizer behind the last token that
/// belongs to it. Tokens that follow a complete expression stay untouched.
pub fn expr_prec(lexer: &mut Lexer<'_>, min_prec: u8) -> (r: Result<Expr<Vec<u8>>, ParseError>)
    ensures
        final(lexer).bytes() == old(lexer).bytes(),
        tree_of(r) == parse_expr(old(lexer).remaining(), min_prec).0,
        final(lexer).remaining() == parse_expr(old(lexer).remaining(), min_prec).1,
    decreases old(lexer).remaining().len(),
{
    let ghost ts = lexer.remaining();
    let ghost source = lexer.bytes();
    let first = match lexer.next() {
        None => {
            return Ok(Expr::Eof);
        },
        Some(Err(e)) => {
            return Err(ParseError::Lexical(e));
        },
        Some(Ok(token)) => token,
    };
    let ghost rest = lexer.remaining();
    let mut lhs: Expr<Vec<u8>> = match first {
        Token::Number(n) => Expr::Number(n),
        Token::LParens => {
            let inner = expr_prec(lexer, 0);
            proof {
                lemma_parse_consumes(rest, 0);
            }
            match inner {
                Err(e) => {
                    return Err(e);
                },
                Ok(x) => match lexer.next() {
                    Some(Ok(Token::RParens)) => x,
                    Some(Err(e)) => {
                        return Err(ParseError::Lexical(e));
                    },
                    _ => {
                        return Err(ParseError::UnmatchedParen);
                    },
                },
            }
        },
        token => match prefix_prec(&token) {
            None => {
                return Err(ParseError::UnexpectedToken);
            },
            Some(r_prec) => {
                let operand = expr_prec(lexer, r_prec);
                proof {
                    lemma_parse_consumes(rest, 8);
                }
                match (operand, UnOp::from(&token)) {
                    (Ok(x), Ok(op)) => Expr::UnaryOp(op, Box::new(x)),
                    (Err(e), _) => {
                        return Err(e);
                    },
                    (_, Err(e)) => {
                        return Err(e);
                    },
                }
            },
        },
    };
    let mut done: bool = false;
    while !done
        invariant
            source == old(lexer).bytes(),
            ts == old(lexer).remaining(),
            lexer.bytes() == source,
            lexer.remaining().len() < ts.len(),
            parse_tail(lhs@, lexer.remaining(), min_prec) == parse_expr(ts, min_prec),
            done ==> parse_expr(ts, min_prec) == (
                Ok::<Expr<Seq<u8>>, ParseError>(lhs@),
                lexer.remaining(),
            ),
        decreases lexer.remaining().len(), (if done { 0int } else { 1int }),
    {
        let ghost here = lexer.remaining();
        match lexer.peek() {
            None => {
                done = true;
            },
            Some(Err(e)) => {
                return Err(ParseError::Lexical(e));
            },
            Some(Ok(op)) => {
                if let Some(l_bp) = postfix_prec(&op) {
                    if l_bp < min_prec {
                        done = true;
                    } else {
                        let _ = lexer.next();
                        lhs = Expr::UnaryOp(UnOp::Factorial, Box::new(lhs));
                    }
                } else if let Some((l_prec, r_prec)) = infix_prec(&op) {
                    if l_prec < min_prec {
                        done = true;
                    } else {
                        let _ = lexer.next();
                        let rhs = expr_prec(lexer, r_prec);
                        proof {
                            lemma_parse_consumes(here.skip(1), r_prec);
                        }
                        match (rhs, BinOp::from(&op)) {
                            (Ok(x), Ok(binary)) => {
                                lhs = Expr::BinaryOp(binary, Box::new(lhs), Box::new(x));
                            },
                            (Err(e), _) => {
                                return Err(e);
                            },
                            (_, Err(e)) => {
                                return Err(e);
                            },
                        }
                    }
                } else {
                    done = true;
                }
            },
        }
    }
    Ok(lhs)
}

/// Whether an expression lacks no operand, or lacks its last one with nothing
/// left behind it.
pub open spec fn lacks_at_most_the_last(e: Expr<Seq<u8>>, rest: Seq<Lexeme>) -> bool {
    end_markers(e) <= 1 && (end_markers(e) == 1 ==> rest.len() == 0)
}

/// An expression that is read lacks one operand at most, the last one, and only
/// where the input ends before it.
pub proof fn lemma_parse_lacks_one_operand_at_most(ts: Seq<Lexeme>, min: u8)
    ensures
        parse_expr(ts, min).0 matches Ok(e) ==> lacks_at_most_the_last(e, parse_expr(ts, min).1),
    decreases ts.len(), 1int,
{
    if ts.len() > 0 {
        let rest = ts.skip(1);
        match ts[0] {
            Err(_) => {},
            Ok(Token::Number(n)) => {
                lemma_tail_lacks_one_operand_at_most(Expr::Number(n), rest, min);
            },
            Ok(Token::LParens) => {
                lemma_parse_lacks_one_operand_at_most(rest, 0);
                lemma_parse_consumes(rest, 0);
                let (inner, after) = parse_expr(rest, 0);
                if inner is Ok && after.len() > 0 && after[0] == Ok::<Token<Seq<u8>>, LexError>(
                    Token::RParens,
                ) {
                    lemma_tail_lacks_one_operand_at_most(inner->Ok_0, after.skip(1), min);
                }
            },
            Ok(token) => {
                if let Some(op) = prefix_of(token) {
                    lemma_parse_lacks_one_operand_at_most(rest, 8);
                    lemma_parse_consumes(rest, 8);
                    let (operand, after) = parse_expr(rest, 8);
                    if let Ok(x) = operand {
                        lemma_tail_lacks_one_operand_at_most(
                            Expr::UnaryOp(op, Box::new(x)),
                            after,
                            min,
                        );
                    }
                }
            },
        }
    }
}

/// Reading on from an expression that lacks no operand, or its last one at the
/// end of the input, gives one of which the same holds.
pub proof fn lemma_tail_lacks_one_operand_at_most(lhs: Expr<Seq<u8>>, ts: Seq<Lexeme>, min: u8)
    requires
        lacks_at_most_the_last(lhs, ts),
    ensures
        parse_tail(lhs, ts, min).0 matches Ok(e) ==> lacks_at_most_the_last(
            e,
            parse_tail(lhs, ts, min).1,
        ),
    decreases ts.len(), 0int,
{
    if ts.len() > 0 {
        match ts[0] {
            Err(_) => {},
            Ok(Token::Factorial) => {
                if 9 >= min {
                    lemma_tail_lacks_one_operand_at_most(
                        Expr::UnaryOp(UnOp::Factorial, Box::new(lhs)),
                        ts.skip(1),
                        min,
                    );
                }
            },
            Ok(token) => {
                if let Some(op) = binop_of(token) {
                    let (l, r) = infix_power(token)->Some_0;
                    if l >= min {
                        lemma_parse_lacks_one_operand_at_most(ts.skip(1), r);
                        lemma_parse_consumes(ts.skip(1), r);
                        let (rhs, after) = parse_expr(ts.skip(1), r);
                        if let Ok(x) = rhs {
                            lemma_tail_lacks_one_operand_at_most(
                                Expr::BinaryOp(op, Box::new(lhs), Box::new(x)),
                                after,
                                min,
                            );
                        }
                    }
                }
            },
        }
    }
}

} // verus!
