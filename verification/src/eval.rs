use crate::parse::{BinOp, Expr, UnOp};
use vstd::arithmetic::div_mod::lemma_mul_mod_noop_general;
use vstd::prelude::*;

verus! {

/// Why an expression has no value.
#[derive(Debug, PartialEq, Eq, Clone, Copy, Structural)]
pub enum EvalError {
    /// The end marker was reached: an operand is missing.
    EmptyExpression,
    /// The operand of a factorial is no whole number.
    FactorialOfNonInteger,
}

/// The product of the numbers from 1 to `n`.
pub open spec fn factorial_of(n: nat) -> nat
    decreases n,
{
    if n == 0 {
        1
    } else {
        n * factorial_of((n - 1) as nat)
    }
}

/// The factorial as 64 bits hold it: what is left of it modulo 2^64.
pub open spec fn wrapped_factorial(n: nat) -> nat {
    factorial_of(n) % 0x1_0000_0000_0000_0000
}

proof fn lemma_wrapped_factorial_step(i: nat)
    ensures
        wrapped_factorial(i + 1) == (wrapped_factorial(i) * (i + 1)) % 0x1_0000_0000_0000_0000,
{
    lemma_mul_mod_noop_general(factorial_of(i) as int, (i + 1) as int, 0x1_0000_0000_0000_0000);
    assert(factorial_of(i + 1) == (i + 1) * factorial_of(i));
    assert((i + 1) * factorial_of(i) == factorial_of(i) * (i + 1)) by (nonlinear_arith);
}

/// Once the product is a multiple of 2^64, it stays one.
pub proof fn lemma_wrapped_factorial_stays_zero(i: nat, n: nat)
    requires
        i <= n,
        wrapped_factorial(i) == 0,
    ensures
        wrapped_factorial(n) == 0,
    decreases n - i,
{
    if i < n {
        lemma_wrapped_factorial_step(i);
        assert(0 * (i + 1) == 0);
        lemma_wrapped_factorial_stays_zero(i + 1, n);
    }
}

/// The factorial of `n` in 64 bits, wrapping silently where the product exceeds them.
pub fn factorial(n: u64) -> (r: u64)
    ensures
        r == wrapped_factorial(n as nat),
{
    let mut acc: u64 = 1;
    let mut i: u64 = 0;
    while i < n
        invariant
            i <= n,
            acc == wrapped_factorial(i as nat),
        decreases n - i,
    {
        proof {
            lemma_wrapped_factorial_step(i as nat);
        }
        i += 1;
        acc = acc.wrapping_mul(i);
        if acc == 0 {
            proof {
                lemma_wrapped_factorial_stays_zero(i as nat, n as nat);
            }
            return 0;
        }
    }
    acc
}

/// What is known of the arithmetic on values of type `V`: for each operation,
/// which results it can give on which operands.
#[verifier::reject_recursive_types(V)]
pub struct Arithmetic<V> {
    /// `unary(op, operand, result)`: the prefix operator `op` can give `result`.
    pub unary: spec_fn(UnOp, V, V) -> bool,
    /// `binary(op, left, right, result)`: the infix operator `op` can give `result`.
    pub binary: spec_fn(BinOp, V, V, V) -> bool,
    /// `whole(value, n)`: taken as a whole number, `value` can give `n`; `None`
    /// stands for a value with a fractional part.
    pub whole: spec_fn(V, Option<u64>) -> bool,
    /// `from_whole(n, result)`: the whole number `n` can give the value `result`.
    pub from_whole: spec_fn(u64, V) -> bool,
}

/// Whether `r` is a result of evaluating `e` with the given arithmetic.
///
/// The operands of an operator are evaluated from left to right, and the first
/// failure is the result. The end marker has no value. A prefix operator's value
/// is made by `unary`, an infix operator's by `binary`. A factorial asks `whole`
/// for its operand as a whole number, fails where there is none, and hands the
/// wrapped product to `from_whole`.
pub open spec fn evaluates<V>(e: Expr<V>, arith: Arithmetic<V>, r: Result<V, EvalError>) -> bool
    decreases e,
{
    match e {
        Expr::Eof => r == Err::<V, EvalError>(EvalError::EmptyExpression),
        Expr::Number(v) => r == Ok::<V, EvalError>(v),
        Expr::UnaryOp(op, x) => exists|a: Result<V, EvalError>|
            #![trigger applies_unary(op, a, arith, r)]
            evaluates(*x, arith, a) && applies_unary(op, a, arith, r),
        Expr::BinaryOp(op, x, y) => exists|a: Result<V, EvalError>, b: Result<V, EvalError>|
            #![trigger applies_binary(op, a, b, arith, r)]
            evaluates(*x, arith, a) && (a is Ok ==> evaluates(*y, arith, b)) && applies_binary(
                op,
                a,
                b,
                arith,
                r,
            ),
    }
}

/// Whether `r` is a result of the infix operator `op` on the results `a` and `b`
/// of its operands; where the left operand fails, the right one is not looked at.
pub open spec fn applies_binary<V>(
    op: BinOp,
    a: Result<V, EvalError>,
    b: Result<V, EvalError>,
    arith: Arithmetic<V>,
    r: Result<V, EvalError>,
) -> bool {
    match a {
        Err(error) => r == Err::<V, EvalError>(error),
        Ok(left) => match b {
            Err(error) => r == Err::<V, EvalError>(error),
            Ok(right) => r matches Ok(v) && (arith.binary)(op, left, right, v),
        },
    }
}

/// Whether `r` is a result of the unary operator `op` on the operand's result `a`.
pub open spec fn applies_unary<V>(
    op: UnOp,
    a: Result<V, EvalError>,
    arith: Arithmetic<V>,
    r: Result<V, EvalError>,
) -> bool {
    match a {
        Err(error) => r == Err::<V, EvalError>(error),
        Ok(operand) => if op == UnOp::Factorial {
            exists|n: Option<u64>| #[trigger]
                (arith.whole)(operand, n) && match n {
                    None => r == Err::<V, EvalError>(EvalError::FactorialOfNonInteger),
                    Some(k) => r matches Ok(v) && (arith.from_whole)(
                        wrapped_factorial(k as nat) as u64,
                        v,
                    ),
                }
        } else {
            r matches Ok(v) && (arith.unary)(op, operand, v)
        },
    }
}

/// Whether each of the four operations has at most one result on each input.
pub open spec fn deterministic<V>(arith: Arithmetic<V>) -> bool {
    &&& forall|op: UnOp, v: V, r1: V, r2: V|
        #![trigger (arith.unary)(op, v, r1), (arith.unary)(op, v, r2)]
        (arith.unary)(op, v, r1) && (arith.unary)(op, v, r2) ==> r1 == r2
    &&& forall|op: BinOp, a: V, b: V, r1: V, r2: V|
        #![trigger (arith.binary)(op, a, b, r1), (arith.binary)(op, a, b, r2)]
        (arith.binary)(op, a, b, r1) && (arith.binary)(op, a, b, r2) ==> r1 == r2
    &&& forall|v: V, r1: Option<u64>, r2: Option<u64>|
        #![trigger (arith.whole)(v, r1), (arith.whole)(v, r2)]
        (arith.whole)(v, r1) && (arith.whole)(v, r2) ==> r1 == r2
    &&& forall|n: u64, r1: V, r2: V|
        #![trigger (arith.from_whole)(n, r1), (arith.from_whole)(n, r2)]
        (arith.from_whole)(n, r1) && (arith.from_whole)(n, r2) ==> r1 == r2
}

/// Evaluating an expression twice gives the same result, value or failure, as
/// long as the arithmetic itself gives the same result on the same operands.
pub proof fn lemma_eval_deterministic<V>(
    e: Expr<V>,
    arith: Arithmetic<V>,
    r1: Result<V, EvalError>,
    r2: Result<V, EvalError>,
)
    requires
        deterministic(arith),
        evaluates(e, arith, r1),
        evaluates(e, arith, r2),
    ensures
        r1 == r2,
    decreases e,
{
    match e {
        Expr::Eof => {},
        Expr::Number(_) => {},
        Expr::UnaryOp(op, x) => {
            let a1 = choose|a: Result<V, EvalError>|
                #![trigger applies_unary(op, a, arith, r1)]
                evaluates(*x, arith, a) && applies_unary(op, a, arith, r1);
            let a2 = choose|a: Result<V, EvalError>|
                #![trigger applies_unary(op, a, arith, r2)]
                evaluates(*x, arith, a) && applies_unary(op, a, arith, r2);
            lemma_eval_deterministic(*x, arith, a1, a2);
        },
        Expr::BinaryOp(op, x, y) => {
            let (a1, b1) = choose|a: Result<V, EvalError>, b: Result<V, EvalError>|
                #![trigger applies_binary(op, a, b, arith, r1)]
                evaluates(*x, arith, a) && (a is Ok ==> evaluates(*y, arith, b))
                    && applies_binary(op, a, b, arith, r1);
            let (a2, b2) = choose|a: Result<V, EvalError>, b: Result<V, EvalError>|
                #![trigger applies_binary(op, a, b, arith, r2)]
                evaluates(*x, arith, a) && (a is Ok ==> evaluates(*y, arith, b))
                    && applies_binary(op, a, b, arith, r2);
            lemma_eval_deterministic(*x, arith, a1, a2);
            if a1 is Ok {
                lemma_eval_deterministic(*y, arith, b1, b2);
            }
        },
    }
}

impl<V: Copy> Expr<V> {
    /// Evaluates the expression over values of type `V`, whose arithmetic the
    /// caller hands in: `unary` for the prefix operators, `binary` for the infix
    /// operators, `whole` to take a value as a whole number (`None` where it has a
    /// fractional part), and `from_whole` to make a value of a whole number.
    pub fn eval<U, B, W, I>(&self, unary: &U, binary: &B, whole: &W, from_whole: &I) -> (r: Result<
        V,
        EvalError,
    >) where U: Fn(UnOp, V) -> V, B: Fn(BinOp, V, V) -> V, W: Fn(V) -> Option<u64>, I: Fn(u64) -> V
        requires
            forall|op: UnOp, v: V| op != UnOp::Factorial ==> call_requires(*unary, (op, v)),
            forall|op: BinOp, a: V, b: V| call_requires(*binary, (op, a, b)),
            forall|v: V| call_requires(*whole, (v,)),
            forall|n: u64| call_requires(*from_whole, (n,)),
        ensures
            evaluates(
                *self,
                (Arithmetic {
                    unary: |op: UnOp, v: V, out: V| call_ensures(*unary, (op, v), out),
                    binary: |op: BinOp, a: V, b: V, out: V| call_ensures(*binary, (op, a, b), out),
                    whole: |v: V, n: Option<u64>| call_ensures(*whole, (v,), n),
                    from_whole: |n: u64, out: V| call_ensures(*from_whole, (n,), out),
                }),
                r,
            ),
        decreases self,
    {
        let ghost arith = Arithmetic {
            unary: |op: UnOp, v: V, out: V| call_ensures(*unary, (op, v), out),
            binary: |op: BinOp, a: V, b: V, out: V| call_ensures(*binary, (op, a, b), out),
            whole: |v: V, n: Option<u64>| call_ensures(*whole, (v,), n),
            from_whole: |n: u64, out: V| call_ensures(*from_whole, (n,), out),
        };
        match self {
            Expr::Eof => Err(EvalError::EmptyExpression),
            Expr::Number(v) => Ok(*v),
            Expr::UnaryOp(op, x) => {
                let a = x.eval(unary, binary, whole, from_whole);
                let r = match a {
                    Err(error) => Err(error),
                    Ok(operand) => match op {
                        UnOp::Factorial => {
                            let n = whole(operand);
                            assert((arith.whole)(operand, n));
                            match n {
                                None => Err(EvalError::FactorialOfNonInteger),
                                Some(k) => Ok(from_whole(factorial(k))),
                            }
                        },
                        _ => Ok(unary(*op, operand)),
                    },
                };
                assert(applies_unary(*op, a, arith, r));
                r
            },
            Expr::BinaryOp(op, x, y) => {
                let a = x.eval(unary, binary, whole, from_whole);
                match a {
                    Err(error) => {
                        assert(applies_binary(*op, a, a, arith, Err::<V, EvalError>(error)));
                        Err(error)
                    },
                    Ok(left) => {
                        let b = y.eval(unary, binary, whole, from_whole);
                        let r = match b {
                            Err(error) => Err(error),
                            Ok(right) => Ok(binary(*op, left, right)),
                        };
                        assert(applies_binary(*op, a, b, arith, r));
                        r
                    },
                }
            },
        }
    }
}

} // verus!
