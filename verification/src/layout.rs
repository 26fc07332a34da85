use crate::parse::{BinOp, Expr, UnOp};
use vstd::prelude::*;
use vstd::string::*;
use vstd::utf8::encode_utf8;

verus! {

/// The side on which a cell keeps the space that cannot be shared evenly.
#[derive(Debug, PartialEq, Eq, Clone, Copy, Structural)]
pub enum Align {
    /// The text stands one column to the left of the middle.
    Left,
    /// The text stands one column to the right of the middle.
    Right,
}

/// `n` spaces.
pub open spec fn blank(n: nat) -> Seq<char> {
    Seq::new(n, |i: int| ' ')
}

/// The number of bytes that a text takes; a cell's width is counted in these.
pub open spec fn byte_len(s: Seq<char>) -> nat {
    encode_utf8(s).len()
}

/// `s` in the middle of a cell of `total` columns. A text that fills the cell or
/// exceeds it stays as it is. Where the space left over is odd, the longer half
/// goes to the right of a left-aligned text and to the left of a right-aligned one.
pub open spec fn centered(s: Seq<char>, total: nat, align: Align) -> Seq<char> {
    if byte_len(s) >= total {
        s
    } else {
        let diff = (total - byte_len(s)) as nat;
        let short = diff / 2;
        let long = (diff + 1) / 2;
        match align {
            Align::Left => blank(short) + s + blank(long),
            Align::Right => blank(long) + s + blank(short),
        }
    }
}

/// The text of `n` spaces.
pub fn spaces(n: usize) -> (s: String)
    ensures
        s@ == blank(n as nat),
{
    let mut s = String::new();
    let mut i: usize = 0;
    while i < n
        invariant
            i <= n,
            s@ == blank(i as nat),
        decreases n - i,
    {
        proof {
            reveal_strlit(" ");
            assert(blank(i as nat) + " "@ =~= blank((i + 1) as nat));
        }
        s.append(" ");
        i += 1;
    }
    s
}

/// The number of bytes of a text.
pub fn text_len(s: &String) -> (n: usize)
    ensures
        n == byte_len(s@),
{
    s.as_str().as_bytes().len()
}

/// Pads `s` with spaces on both sides to a cell of `total_width` columns.
pub fn pad_center(s: String, total_width: usize, align: Align) -> (r: String)
    ensures
        r@ == centered(s@, total_width as nat, align),
{
    let len: usize = text_len(&s);
    if len >= total_width {
        s
    } else {
        let diff: usize = total_width - len;
        let short: usize = diff / 2;
        let long: usize = diff - short;
        let (before, after) = match align {
            Align::Left => (short, long),
            Align::Right => (long, short),
        };
        let mut r = spaces(before);
        r.append(s.as_str());
        let tail = spaces(after);
        r.append(tail.as_str());
        r
    }
}

/// The symbol of an infix operator.
pub open spec fn binop_label(op: BinOp) -> Seq<char> {
    match op {
        BinOp::Plus => seq!['+'],
        BinOp::Minus => seq!['-'],
        BinOp::Multiply => seq!['*'],
        BinOp::Divide => seq!['/'],
        BinOp::Power => seq!['^'],
    }
}

/// The symbol of a unary operator.
pub open spec fn unop_label(op: UnOp) -> Seq<char> {
    match op {
        UnOp::Negative => seq!['-'],
        UnOp::Sin => seq!['s', 'i', 'n'],
        UnOp::Cos => seq!['c', 'o', 's'],
        UnOp::Tan => seq!['t', 'a', 'n'],
        UnOp::Exp => seq!['e', 'x', 'p'],
        UnOp::Log => seq!['l', 'o', 'g'],
        UnOp::Factorial => seq!['!'],
    }
}

impl BinOp {
    /// The operator's symbol.
    pub fn to_string(&self) -> (s: String)
        ensures
            s@ == binop_label(*self),
    {
        proof {
            reveal_strlit("+");
            reveal_strlit("-");
            reveal_strlit("*");
            reveal_strlit("/");
            reveal_strlit("^");
        }
        let s = match self {
            BinOp::Plus => String::from_str("+"),
            BinOp::Minus => String::from_str("-"),
            BinOp::Multiply => String::from_str("*"),
            BinOp::Divide => String::from_str("/"),
            BinOp::Power => String::from_str("^"),
        };
        assert(s@ =~= binop_label(*self));
        s
    }
}

impl UnOp {
    /// The operator's symbol.
    pub fn to_string(&self) -> (s: String)
        ensures
            s@ == unop_label(*self),
    {
        proof {
            reveal_strlit("-");
            reveal_strlit("sin");
            reveal_strlit("cos");
            reveal_strlit("tan");
            reveal_strlit("exp");
            reveal_strlit("log");
            reveal_strlit("!");
        }
        let s = match self {
            UnOp::Negative => String::from_str("-"),
            UnOp::Sin => String::from_str("sin"),
            UnOp::Cos => String::from_str("cos"),
            UnOp::Tan => String::from_str("tan"),
            UnOp::Exp => String::from_str("exp"),
            UnOp::Log => String::from_str("log"),
            UnOp::Factorial => String::from_str("!"),
        };
        assert(s@ =~= unop_label(*self));
        s
    }
}

/// The number of columns that the tree view of an expression takes: one for a
/// number, none for the end marker, that of its operand for a unary operator, and
/// three more than its operands together for a binary one.
pub open spec fn width_of<N>(e: Expr<N>) -> nat
    decreases e,
{
    match e {
        Expr::BinaryOp(_, l, r) => width_of(*l) + width_of(*r) + 3,
        Expr::UnaryOp(_, x) => width_of(*x),
        Expr::Number(_) => 1,
        Expr::Eof => 0,
    }
}

/// The larger of two numbers.
pub open spec fn larger(a: nat, b: nat) -> nat {
    if a >= b {
        a
    } else {
        b
    }
}

/// The length in bytes of the longest label in an expression, and at least 3
/// wherever there is a label at all; 0 for the end marker.
pub open spec fn max_label_len(e: Expr<Seq<char>>) -> nat
    decreases e,
{
    match e {
        Expr::BinaryOp(_, l, r) => larger(3, larger(max_label_len(*l), max_label_len(*r))),
        Expr::UnaryOp(_, x) => larger(3, max_label_len(*x)),
        Expr::Number(label) => larger(3, byte_len(label)),
        Expr::Eof => 0,
    }
}

/// The width of a tree is that of its view.
pub proof fn lemma_width_of_view<N: View>(e: Expr<N>)
    ensures
        width_of(e@) == width_of(e),
    decreases e,
{
    match e {
        Expr::BinaryOp(_, l, r) => {
            lemma_width_of_view(*l);
            lemma_width_of_view(*r);
        },
        Expr::UnaryOp(_, x) => {
            lemma_width_of_view(*x);
        },
        _ => {},
    }
}

impl<N> Expr<N> {
    /// The number of columns that the tree view takes, unless it exceeds what a
    /// `usize` holds.
    pub fn get_width(&self) -> (w: Option<usize>)
        ensures
            w matches Some(n) ==> n == width_of(*self),
            w is None <==> width_of(*self) > usize::MAX,
        decreases self,
    {
        match self {
            Expr::BinaryOp(_, l, r) => {
                match (l.get_width(), r.get_width()) {
                    (Some(a), Some(b)) => {
                        if a > usize::MAX - 3 || b > usize::MAX - 3 - a {
                            None
                        } else {
                            Some(a + b + 3)
                        }
                    },
                    _ => None,
                }
            },
            Expr::UnaryOp(_, x) => x.get_width(),
            Expr::Number(_) => Some(1),
            Expr::Eof => Some(0),
        }
    }
}

impl Expr<String> {
    /// The length of the longest label, for a tree whose numbers hold their labels.
    pub fn get_max_len(&self) -> (n: usize)
        ensures
            n == max_label_len(self@),
        decreases self,
    {
        match self {
            Expr::BinaryOp(_, l, r) => {
                let a: usize = l.get_max_len();
                let b: usize = r.get_max_len();
                let m: usize = if a >= b {
                    a
                } else {
                    b
                };
                if m >= 3 {
                    m
                } else {
                    3
                }
            },
            Expr::UnaryOp(_, x) => {
                let m: usize = x.get_max_len();
                if m >= 3 {
                    m
                } else {
                    3
                }
            },
            Expr::Number(label) => {
                let m: usize = text_len(label);
                if m >= 3 {
                    m
                } else {
                    3
                }
            },
            Expr::Eof => 0,
        }
    }
}

} // verus!
