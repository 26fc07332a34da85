use crate::eval::{evaluates, Arithmetic, EvalError};
use crate::grid::{lemma_has_tree_view, odd_up, tree_text, RenderError};
use crate::layout::width_of;
use crate::hierarchy::hierarchy_text;
use crate::lex::{tokens, Lexer};
use crate::parse::{
    expr_prec, lemma_maps_to_keeps_shape, lemma_parse_lacks_one_operand_at_most, parse_expr,
    BinOp, Expr, ParseError, UnOp,
};
use vstd::prelude::*;
use vstd::string::*;

verus! {

/// The syntax tree of one input, whose number leaves hold an `N`.
pub struct Ast<N> {
    expr: Expr<N>,
}

impl<N: View> View for Ast<N> {
    type V = Expr<N::V>;

    open spec fn view(&self) -> Expr<N::V> {
        self.tree()@
    }
}

/// The expression that starts the input `bytes`, read from binding power 0, or
/// why there is none. What follows the expression is not looked at.
pub open spec fn parse(bytes: Seq<u8>) -> Result<Expr<Seq<u8>>, ParseError> {
    parse_expr(tokens(bytes, 0), 0).0
}

/// The expression that the whole input `bytes` is, or why it is none.
pub open spec fn parse_all(bytes: Seq<u8>) -> Result<Expr<Seq<u8>>, ParseError> {
    let (tree, rest) = parse_expr(tokens(bytes, 0), 0);
    if tree is Ok && rest.len() > 0 {
        Err(ParseError::TrailingInput)
    } else {
        tree
    }
}

/// An input without bytes, or with blanks only, is the end marker.
pub proof fn lemma_blank_input_is_end_marker(bytes: Seq<u8>)
    requires
        forall|i: int| 0 <= i < bytes.len() ==> crate::lex::is_blank(#[trigger] bytes[i]),
    ensures
        parse(bytes) == Ok::<Expr<Seq<u8>>, ParseError>(Expr::Eof),
        parse_all(bytes) == Ok::<Expr<Seq<u8>>, ParseError>(Expr::Eof),
{
    lemma_skip_blanks_to_end(bytes, 0);
}

proof fn lemma_skip_blanks_to_end(bytes: Seq<u8>, pos: int)
    requires
        0 <= pos <= bytes.len(),
        forall|i: int| 0 <= i < bytes.len() ==> crate::lex::is_blank(#[trigger] bytes[i]),
    ensures
        crate::lex::skip_blanks(bytes, pos) == bytes.len(),
    decreases bytes.len() - pos,
{
    if pos < bytes.len() {
        lemma_skip_blanks_to_end(bytes, pos + 1);
    }
}

/// Every expression that is read from an input has a tree view, whatever labels
/// its numbers are given, unless its grid is too wide to count.
pub proof fn lemma_parsed_has_tree_view(
    bytes: Seq<u8>,
    made: spec_fn(Seq<u8>, Seq<char>) -> bool,
    labelled: Expr<Seq<char>>,
)
    requires
        parse(bytes) matches Ok(tree) && tree.maps_to(made, labelled),
        odd_up(width_of(labelled)) + 2 <= usize::MAX,
    ensures
        tree_text(labelled) is Ok,
{
    lemma_parse_lacks_one_operand_at_most(tokens(bytes, 0), 0);
    lemma_maps_to_keeps_shape(parse(bytes)->Ok_0, made, labelled);
    lemma_has_tree_view(labelled);
}

impl<N> Ast<N> {
    /// The expression that the tree holds.
    pub closed spec fn tree(&self) -> Expr<N> {
        self.expr
    }

    /// The tree of an expression.
    pub fn new(expr: Expr<N>) -> (ast: Self)
        ensures
            ast.tree() == expr,
    {
        Self { expr }
    }

    /// The expression that the tree holds.
    pub fn expr(&self) -> (e: &Expr<N>)
        ensures
            *e == self.tree(),
    {
        &self.expr
    }

    /// The tree with each number leaf replaced by what `f` makes of it.
    pub fn map<M, F: Fn(&N) -> M>(&self, f: &F) -> (out: Ast<M>)
        requires
            forall|n: &N| call_requires(*f, (n,)),
        ensures
            self.tree().maps_to(|n: N, m: M| call_ensures(*f, (&n,), m), out.tree()),
    {
        Ast { expr: self.expr.map(f) }
    }
}

impl Ast<Vec<u8>> {
    /// Parses the expression at the start of `s`. Its number leaves hold the
    /// literals as written. An empty input gives the end marker; tokens behind a
    /// complete expression are ignored.
    pub fn string_to_ast(s: &str) -> (r: Result<Ast<Vec<u8>>, ParseError>)
        ensures
            match parse(s.spec_bytes()) {
                Ok(tree) => r matches Ok(ast) && ast@ == tree,
                Err(error) => r matches Err(e) && e == error,
            },
    {
        let mut lexer = Lexer::new(s);
        match expr_prec(&mut lexer, 0) {
            Ok(expr) => Ok(Ast { expr }),
            Err(error) => Err(error),
        }
    }

    /// Parses `s` as one expression, and refuses tokens that are left behind it.
    pub fn parse_complete(s: &str) -> (r: Result<Ast<Vec<u8>>, ParseError>)
        ensures
            match parse_all(s.spec_bytes()) {
                Ok(tree) => r matches Ok(ast) && ast@ == tree,
                Err(error) => r matches Err(e) && e == error,
            },
    {
        let mut lexer = Lexer::new(s);
        match expr_prec(&mut lexer, 0) {
            Ok(expr) => {
                if lexer.peek().is_some() {
                    Err(ParseError::TrailingInput)
                } else {
                    Ok(Ast { expr })
                }
            },
            Err(error) => Err(error),
        }
    }
}

impl<V: Copy> Ast<V> {
    /// Evaluates the tree over values of type `V` with the arithmetic that the
    /// caller hands in.
    pub fn eval<U, B, W, I>(&self, unary: &U, binary: &B, whole: &W, from_whole: &I) -> (r: Result<
        V,
        EvalError,
    >) where U: Fn(UnOp, V) -> V, B: Fn(BinOp, V, V) -> V, W: Fn(V) -> Option<u64>, I: Fn(u64) -> V
        requires
            forall|op: UnOp, v: V| op != UnOp::Factorial ==> call_requires(*unary, (op, v)),
            forall|op: BinOp, a: V, b: V| call_requires(*binary, (op, a, b)),
            forall|v: V| call_requires(*whole, (v,)),
            forall|n: u64| call_requires(*from_whole, (n,)),
        ensures
            evaluates(
                self.tree(),
                (Arithmetic {
                    unary: |op: UnOp, v: V, out: V| call_ensures(*unary, (op, v), out),
                    binary: |op: BinOp, a: V, b: V, out: V| call_ensures(*binary, (op, a, b), out),
                    whole: |v: V, n: Option<u64>| call_ensures(*whole, (v,), n),
                    from_whole: |n: u64, out: V| call_ensures(*from_whole, (n,), out),
                }),
                r,
            ),
    {
        self.expr.eval(unary, binary, whole, from_whole)
    }
}

impl Ast<String> {
    /// The indented listing of a tree whose numbers hold their labels.
    pub fn print_hierarchy(&self) -> (out: String)
        ensures
            out@ == hierarchy_text(self@, Seq::empty(), false),
    {
        proof {
            reveal_strlit("");
        }
        self.expr.print_hierarchy("", false)
    }

    /// The tree view of a tree whose numbers hold their labels.
    pub fn tree_view(&self) -> (r: Result<String, RenderError>)
        ensures
            match tree_text(self@) {
                Ok(text) => r matches Ok(s) && s@ == text,
                Err(error) => r == Err::<String, RenderError>(error),
            },
    {
        self.expr.tree_view()
    }
}

} // verus!
