use crate::layout::{binop_label, unop_label};
use crate::parse::{complete, BinOp, Expr, UnOp};
use vstd::prelude::*;
use vstd::string::*;

verus! {

/// The branch in front of a node's label: a tee for a node that has a sibling
/// below it, a corner for the last one.
pub open spec fn connector(is_left: bool) -> Seq<char> {
    if is_left {
        seq!['\u{251c}', '\u{2500}', '\u{2500}', ' ']
    } else {
        seq!['\u{2514}', '\u{2500}', '\u{2500}', ' ']
    }
}

/// What a node adds to the prefix of the nodes below it: a bar where a sibling of
/// the node is still to come, spaces where it is the last.
pub open spec fn extension(is_left: bool) -> Seq<char> {
    if is_left {
        seq!['\u{2502}', ' ', ' ', ' ']
    } else {
        seq![' ', ' ', ' ', ' ']
    }
}

/// The line of a node: the prefix, the branch, the label and a line break.
pub open spec fn hierarchy_line(prefix: Seq<char>, is_left: bool, label: Seq<char>) -> Seq<char> {
    prefix + connector(is_left) + label + seq!['\n']
}

/// The indented listing of an expression whose numbers hold their labels: each
/// node on a line of its own, an operator before its operands, the left operand
/// of a binary operator before the right one. The end marker has no line.
pub open spec fn hierarchy_text(e: Expr<Seq<char>>, prefix: Seq<char>, is_left: bool) -> Seq<char>
    decreases e,
{
    match e {
        Expr::BinaryOp(op, l, r) => hierarchy_line(prefix, is_left, binop_label(op))
            + hierarchy_text(*l, prefix + extension(is_left), true) + hierarchy_text(
            *r,
            prefix + extension(is_left),
            false,
        ),
        Expr::UnaryOp(op, x) => hierarchy_line(prefix, is_left, unop_label(op)) + hierarchy_text(
            *x,
            prefix + extension(is_left),
            false,
        ),
        Expr::Number(label) => hierarchy_line(prefix, is_left, label),
        Expr::Eof => Seq::empty(),
    }
}

/// Appends the line of a node.
fn write_line(out: &mut String, prefix: &str, is_left: bool, label: &str)
    ensures
        final(out)@ == old(out)@ + hierarchy_line(prefix@, is_left, label@),
{
    proof {
        reveal_strlit("\u{251c}\u{2500}\u{2500} ");
        reveal_strlit("\u{2514}\u{2500}\u{2500} ");
        reveal_strlit("\n");
        assert("\u{251c}\u{2500}\u{2500} "@ =~= connector(true));
        assert("\u{2514}\u{2500}\u{2500} "@ =~= connector(false));
        assert("\n"@ =~= seq!['\n']);
    }
    out.append(prefix);
    if is_left {
        out.append("\u{251c}\u{2500}\u{2500} ");
    } else {
        out.append("\u{2514}\u{2500}\u{2500} ");
    }
    out.append(label);
    out.append("\n");
    assert(out@ =~= old(out)@ + hierarchy_line(prefix@, is_left, label@));
}

/// The prefix of the nodes below a node.
fn extend_prefix(prefix: &str, is_left: bool) -> (longer: String)
    ensures
        longer@ == prefix@ + extension(is_left),
{
    proof {
        reveal_strlit("\u{2502}   ");
        reveal_strlit("    ");
        assert("\u{2502}   "@ =~= extension(true));
        assert("    "@ =~= extension(false));
    }
    let mut longer = String::from_str(prefix);
    if is_left {
        longer.append("\u{2502}   ");
    } else {
        longer.append("    ");
    }
    longer
}

impl Expr<String> {
    /// Appends the indented listing of the expression to `out`.
    pub fn write_hierarchy(&self, prefix: &str, is_left: bool, out: &mut String)
        ensures
            final(out)@ == old(out)@ + hierarchy_text(self@, prefix@, is_left),
        decreases self,
    {
        let ghost start = out@;
        match self {
            Expr::BinaryOp(op, l, r) => {
                let label = op.to_string();
                write_line(out, prefix, is_left, label.as_str());
                let longer = extend_prefix(prefix, is_left);
                l.write_hierarchy(longer.as_str(), true, out);
                r.write_hierarchy(longer.as_str(), false, out);
                assert(out@ =~= start + hierarchy_text(self@, prefix@, is_left));
            },
            Expr::UnaryOp(op, x) => {
                let label = op.to_string();
                write_line(out, prefix, is_left, label.as_str());
                let longer = extend_prefix(prefix, is_left);
                x.write_hierarchy(longer.as_str(), false, out);
                assert(out@ =~= start + hierarchy_text(self@, prefix@, is_left));
            },
            Expr::Number(label) => {
                write_line(out, prefix, is_left, label.as_str());
            },
            Expr::Eof => {
                assert(out@ =~= start + hierarchy_text(self@, prefix@, is_left));
            },
        }
    }

    /// The indented listing of the expression, each line with a line break behind
    /// it. `prefix` stands before every line; `is_left` says whether a sibling of
    /// the expression is listed after it.
    pub fn print_hierarchy(&self, prefix: &str, is_left: bool) -> (out: String)
        ensures
            out@ == hierarchy_text(self@, prefix@, is_left),
    {
        let mut out = String::new();
        self.write_hierarchy(prefix, is_left, &mut out);
        assert(out@ =~= hierarchy_text(self@, prefix@, is_left));
        out
    }
}

/// One line of the listing: what stands before the branch, the branch, the label.
pub struct Line {
    pub indent: Seq<char>,
    pub is_left: bool,
    pub label: Seq<char>,
}

/// The lines of the listing of an expression, in order.
pub open spec fn hierarchy_lines(e: Expr<Seq<char>>, prefix: Seq<char>, is_left: bool) -> Seq<Line>
    decreases e,
{
    match e {
        Expr::BinaryOp(op, l, r) => seq![
            Line { indent: prefix, is_left, label: binop_label(op) },
        ] + hierarchy_lines(*l, prefix + extension(is_left), true) + hierarchy_lines(
            *r,
            prefix + extension(is_left),
            false,
        ),
        Expr::UnaryOp(op, x) => seq![Line { indent: prefix, is_left, label: unop_label(op) }]
            + hierarchy_lines(*x, prefix + extension(is_left), false),
        Expr::Number(label) => seq![Line { indent: prefix, is_left, label }],
        Expr::Eof => Seq::empty(),
    }
}

/// The text of lines, one behind the other.
pub open spec fn lines_text(lines: Seq<Line>) -> Seq<char>
    decreases lines.len(),
{
    if lines.len() == 0 {
        Seq::empty()
    } else {
        lines_text(lines.drop_last()) + hierarchy_line(
            lines.last().indent,
            lines.last().is_left,
            lines.last().label,
        )
    }
}

/// A node of an expression as the listing shows it: how deep it lies, and its label.
pub struct Entry {
    pub depth: nat,
    pub label: Seq<char>,
}

/// The nodes of an expression with their depths, an operator before its operands
/// and a left operand before the right one; `depth` is the depth of the root.
pub open spec fn outline(e: Expr<Seq<char>>, depth: nat) -> Seq<Entry>
    decreases e,
{
    match e {
        Expr::BinaryOp(op, l, r) => seq![Entry { depth, label: binop_label(op) }] + outline(
            *l,
            depth + 1,
        ) + outline(*r, depth + 1),
        Expr::UnaryOp(op, x) => seq![Entry { depth, label: unop_label(op) }] + outline(
            *x,
            depth + 1,
        ),
        Expr::Number(label) => seq![Entry { depth, label }],
        Expr::Eof => Seq::empty(),
    }
}

/// What a reader takes from lines: the depth of each from the length of its
/// indentation beyond `base`, four columns a level, and its label.
pub open spec fn outline_of_lines(lines: Seq<Line>, base: nat) -> Seq<Entry> {
    Seq::new(
        lines.len(),
        |i: int| Entry { depth: ((lines[i].indent.len() - base) / 4) as nat, label: lines[i].label },
    )
}

proof fn lemma_lines_text_concat(a: Seq<Line>, b: Seq<Line>)
    ensures
        lines_text(a + b) == lines_text(a) + lines_text(b),
    decreases b.len(),
{
    if b.len() == 0 {
        assert(a + b =~= a);
    } else {
        lemma_lines_text_concat(a, b.drop_last());
        assert((a + b).drop_last() =~= a + b.drop_last());
        assert((a + b).last() == b.last());
        assert(lines_text(a + b) =~= lines_text(a) + lines_text(b));
    }
}

proof fn lemma_lines_text_one(line: Line)
    ensures
        lines_text(seq![line]) == hierarchy_line(line.indent, line.is_left, line.label),
{
    assert(seq![line].drop_last() =~= Seq::<Line>::empty());
    assert(seq![line].last() == line);
    assert(lines_text(Seq::<Line>::empty()) =~= Seq::<char>::empty());
    assert(lines_text(seq![line]) =~= hierarchy_line(line.indent, line.is_left, line.label)) by {
        reveal_with_fuel(lines_text, 2);
    }
}

/// The listing is the text of its lines, and nothing else.
pub proof fn lemma_hierarchy_text_is_its_lines(
    e: Expr<Seq<char>>,
    prefix: Seq<char>,
    is_left: bool,
)
    ensures
        hierarchy_text(e, prefix, is_left) == lines_text(hierarchy_lines(e, prefix, is_left)),
    decreases e,
{
    let longer = prefix + extension(is_left);
    match e {
        Expr::BinaryOp(op, l, r) => {
            let head = Line { indent: prefix, is_left, label: binop_label(op) };
            lemma_hierarchy_text_is_its_lines(*l, longer, true);
            lemma_hierarchy_text_is_its_lines(*r, longer, false);
            lemma_lines_text_one(head);
            lemma_lines_text_concat(seq![head], hierarchy_lines(*l, longer, true));
            lemma_lines_text_concat(
                seq![head] + hierarchy_lines(*l, longer, true),
                hierarchy_lines(*r, longer, false),
            );
        },
        Expr::UnaryOp(op, x) => {
            let head = Line { indent: prefix, is_left, label: unop_label(op) };
            lemma_hierarchy_text_is_its_lines(*x, longer, false);
            lemma_lines_text_one(head);
            lemma_lines_text_concat(seq![head], hierarchy_lines(*x, longer, false));
        },
        Expr::Number(label) => {
            lemma_lines_text_one(Line { indent: prefix, is_left, label });
        },
        Expr::Eof => {},
    }
}

/// The indentation of the lines gives the depth of the nodes: read four columns a
/// level, the lines are the outline of the expression, node by node.
pub proof fn lemma_lines_show_the_outline(
    e: Expr<Seq<char>>,
    prefix: Seq<char>,
    is_left: bool,
    base: nat,
    depth: nat,
)
    requires
        prefix.len() == base + 4 * depth,
    ensures
        outline_of_lines(hierarchy_lines(e, prefix, is_left), base) == outline(e, depth),
    decreases e,
{
    let longer = prefix + extension(is_left);
    assert(longer.len() == base + 4 * (depth + 1));
    match e {
        Expr::BinaryOp(op, l, r) => {
            lemma_lines_show_the_outline(*l, longer, true, base, depth + 1);
            lemma_lines_show_the_outline(*r, longer, false, base, depth + 1);
            let head = seq![Line { indent: prefix, is_left, label: binop_label(op) }];
            let a = hierarchy_lines(*l, longer, true);
            let b = hierarchy_lines(*r, longer, false);
            assert(outline_of_lines(head + a + b, base) =~= outline_of_lines(head, base)
                + outline_of_lines(a, base) + outline_of_lines(b, base));
            assert(outline_of_lines(head, base) =~= seq![
                Entry { depth, label: binop_label(op) },
            ]);
        },
        Expr::UnaryOp(op, x) => {
            lemma_lines_show_the_outline(*x, longer, false, base, depth + 1);
            let head = seq![Line { indent: prefix, is_left, label: unop_label(op) }];
            let a = hierarchy_lines(*x, longer, false);
            assert(outline_of_lines(head + a, base) =~= outline_of_lines(head, base)
                + outline_of_lines(a, base));
            assert(outline_of_lines(head, base) =~= seq![Entry { depth, label: unop_label(op) }]);
        },
        Expr::Number(label) => {
            let head = seq![Line { indent: prefix, is_left, label }];
            assert(outline_of_lines(head, base) =~= seq![Entry { depth, label }]);
        },
        Expr::Eof => {
            assert(outline_of_lines(Seq::<Line>::empty(), base) =~= Seq::<Entry>::empty());
        },
    }
}

/// Whether a sequence of entries is empty or starts no deeper than `depth`.
pub open spec fn starts_at_most(s: Seq<Entry>, depth: nat) -> bool {
    s.len() == 0 || s[0].depth <= depth
}

proof fn lemma_outline_head(e: Expr<Seq<char>>, depth: nat)
    requires
        complete(e),
    ensures
        outline(e, depth).len() > 0,
        outline(e, depth)[0].depth == depth,
{
}

proof fn lemma_binop_label_distinct(a: BinOp, b: BinOp)
    requires
        binop_label(a) == binop_label(b),
    ensures
        a == b,
{
    lemma_binop_initial(a);
    lemma_binop_initial(b);
}

/// The first character of an infix operator's symbol.
pub open spec fn binop_initial(op: BinOp) -> char {
    match op {
        BinOp::Plus => '+',
        BinOp::Minus => '-',
        BinOp::Multiply => '*',
        BinOp::Divide => '/',
        BinOp::Power => '^',
    }
}

/// The first character of a unary operator's symbol.
pub open spec fn unop_initial(op: UnOp) -> char {
    match op {
        UnOp::Negative => '-',
        UnOp::Sin => 's',
        UnOp::Cos => 'c',
        UnOp::Tan => 't',
        UnOp::Exp => 'e',
        UnOp::Log => 'l',
        UnOp::Factorial => '!',
    }
}

proof fn lemma_binop_initial(op: BinOp)
    ensures
        binop_label(op)[0] == binop_initial(op),
{
}

proof fn lemma_unop_initial(op: UnOp)
    ensures
        unop_label(op)[0] == unop_initial(op),
{
}

proof fn lemma_unop_label_distinct(a: UnOp, b: UnOp)
    requires
        unop_label(a) == unop_label(b),
    ensures
        a == b,
{
    lemma_unop_initial(a);
    lemma_unop_initial(b);
}

proof fn lemma_cancel_head(h1: Entry, t1: Seq<Entry>, h2: Entry, t2: Seq<Entry>)
    requires
        seq![h1] + t1 == seq![h2] + t2,
    ensures
        h1 == h2,
        t1 == t2,
{
    assert((seq![h1] + t1)[0] == h1);
    assert((seq![h2] + t2)[0] == h2);
    assert((seq![h1] + t1).drop_first() =~= t1);
    assert((seq![h2] + t2).drop_first() =~= t2);
}

/// An outline can be read in one way only: two complete expressions whose
/// outlines, each followed by entries that lie no deeper than its root, are the
/// same sequence, are the same expression, followed by the same entries.
pub proof fn lemma_outline_unique(
    e1: Expr<Seq<char>>,
    e2: Expr<Seq<char>>,
    depth: nat,
    r1: Seq<Entry>,
    r2: Seq<Entry>,
)
    requires
        complete(e1),
        complete(e2),
        outline(e1, depth) + r1 == outline(e2, depth) + r2,
        starts_at_most(r1, depth),
        starts_at_most(r2, depth),
    ensures
        e1 == e2,
        r1 == r2,
    decreases e1,
{
    let below = depth + 1;
    // What follows the root: the operands' outlines and the entries behind them.
    let (h1, t1) = tail_of(e1, depth, r1);
    let (h2, t2) = tail_of(e2, depth, r2);
    lemma_tail_of(e1, depth, r1);
    lemma_tail_of(e2, depth, r2);
    lemma_cancel_head(h1, t1, h2, t2);
    match e1 {
        Expr::Number(_) => {
            match e2 {
                Expr::UnaryOp(_, x2) => {
                    lemma_outline_head(*x2, below);
                    assert(t2[0].depth == below);
                },
                Expr::BinaryOp(_, l2, _) => {
                    lemma_outline_head(*l2, below);
                    assert(t2[0].depth == below);
                },
                _ => {},
            }
        },
        Expr::UnaryOp(op1, x1) => {
            lemma_outline_head(*x1, below);
            assert(t1[0].depth == below);
            match e2 {
                Expr::UnaryOp(op2, x2) => {
                    lemma_outline_unique(*x1, *x2, below, r1, r2);
                    lemma_unop_label_distinct(op1, op2);
                },
                Expr::BinaryOp(_, l2, rr2) => {
                    lemma_outline_head(*rr2, below);
                    let rest2 = outline(*rr2, below) + r2;
                    assert(t2 =~= outline(*l2, below) + rest2);
                    lemma_outline_unique(*x1, *l2, below, r1, rest2);
                    assert(rest2[0].depth == below);
                },
                _ => {},
            }
        },
        Expr::BinaryOp(op1, l1, rr1) => {
            lemma_outline_head(*l1, below);
            lemma_outline_head(*rr1, below);
            let rest1 = outline(*rr1, below) + r1;
            assert(t1 =~= outline(*l1, below) + rest1);
            assert(t1[0].depth == below);
            assert(rest1[0].depth == below);
            match e2 {
                Expr::BinaryOp(op2, l2, rr2) => {
                    lemma_outline_head(*rr2, below);
                    let rest2 = outline(*rr2, below) + r2;
                    assert(t2 =~= outline(*l2, below) + rest2);
                    lemma_outline_unique(*l1, *l2, below, rest1, rest2);
                    lemma_outline_unique(*rr1, *rr2, below, r1, r2);
                    lemma_binop_label_distinct(op1, op2);
                },
                Expr::UnaryOp(_, x2) => {
                    lemma_outline_unique(*l1, *x2, below, rest1, r2);
                },
                _ => {},
            }
        },
        Expr::Eof => {},
    }
}

/// The root's entry, and what follows it in the outline with `rest` behind.
pub open spec fn tail_of(e: Expr<Seq<char>>, depth: nat, rest: Seq<Entry>) -> (Entry, Seq<Entry>) {
    match e {
        Expr::BinaryOp(op, l, r) => (
            Entry { depth, label: binop_label(op) },
            outline(*l, depth + 1) + outline(*r, depth + 1) + rest,
        ),
        Expr::UnaryOp(op, x) => (
            Entry { depth, label: unop_label(op) },
            outline(*x, depth + 1) + rest,
        ),
        Expr::Number(label) => (Entry { depth, label }, rest),
        Expr::Eof => (Entry { depth, label: Seq::empty() }, rest),
    }
}

proof fn lemma_tail_of(e: Expr<Seq<char>>, depth: nat, rest: Seq<Entry>)
    requires
        complete(e),
    ensures
        outline(e, depth) + rest == seq![tail_of(e, depth, rest).0] + tail_of(e, depth, rest).1,
{
    assert(outline(e, depth) + rest =~= seq![tail_of(e, depth, rest).0] + tail_of(
        e,
        depth,
        rest,
    ).1);
}

/// A listing shows one expression only: two complete expressions whose listings
/// agree, line by line, in the depth of the indentation and in the label, are the
/// same expression.
pub proof fn lemma_hierarchy_round_trip(e1: Expr<Seq<char>>, e2: Expr<Seq<char>>)
    requires
        complete(e1),
        complete(e2),
        outline_of_lines(hierarchy_lines(e1, Seq::empty(), false), 0) == outline_of_lines(
            hierarchy_lines(e2, Seq::empty(), false),
            0,
        ),
    ensures
        e1 == e2,
{
    lemma_lines_show_the_outline(e1, Seq::empty(), false, 0, 0);
    lemma_lines_show_the_outline(e2, Seq::empty(), false, 0, 0);
    assert(outline(e1, 0) + Seq::<Entry>::empty() =~= outline(e1, 0));
    assert(outline(e2, 0) + Seq::<Entry>::empty() =~= outline(e2, 0));
    lemma_outline_unique(e1, e2, 0, Seq::empty(), Seq::empty());
}

/// Whether a character starts a branch.
pub open spec fn is_branch(c: char) -> bool {
    c == '\u{251c}' || c == '\u{2514}'
}

/// Whether a text holds no character that starts a branch.
pub open spec fn no_branch(s: Seq<char>) -> bool {
    forall|i: int| 0 <= i < s.len() ==> !is_branch(#[trigger] s[i])
}

/// Whether a text holds no line break.
pub open spec fn one_line(s: Seq<char>) -> bool {
    forall|i: int| 0 <= i < s.len() ==> #[trigger] s[i] != '\n'
}

/// Whether the labels of all numbers of an expression hold no line break.
pub open spec fn plain_labels(e: Expr<Seq<char>>) -> bool
    decreases e,
{
    match e {
        Expr::BinaryOp(_, l, r) => plain_labels(*l) && plain_labels(*r),
        Expr::UnaryOp(_, x) => plain_labels(*x),
        Expr::Number(label) => one_line(label),
        Expr::Eof => true,
    }
}

/// Whether a line can be told from what follows it: no branch in its
/// indentation, no line break in its label.
pub open spec fn plain_line(line: Line) -> bool {
    no_branch(line.indent) && one_line(line.label)
}

pub open spec fn plain_lines(lines: Seq<Line>) -> bool {
    forall|i: int| 0 <= i < lines.len() ==> plain_line(#[trigger] lines[i])
}

/// A text that starts with a line starts with one line only: the indentation
/// ends at the first branch, the label at the first line break.
proof fn lemma_first_line_unique(a: Line, behind_a: Seq<char>, b: Line, behind_b: Seq<char>)
    requires
        plain_line(a),
        plain_line(b),
        hierarchy_line(a.indent, a.is_left, a.label) + behind_a == hierarchy_line(
            b.indent,
            b.is_left,
            b.label,
        ) + behind_b,
    ensures
        a == b,
        behind_a == behind_b,
{
    let text_a = hierarchy_line(a.indent, a.is_left, a.label) + behind_a;
    let text_b = hierarchy_line(b.indent, b.is_left, b.label) + behind_b;
    let na = a.indent.len() as int;
    let nb = b.indent.len() as int;
    let la = a.label.len() as int;
    let lb = b.label.len() as int;
    assert(connector(a.is_left).len() == 4 && connector(b.is_left).len() == 4);
    assert(is_branch(connector(a.is_left)[0]) && is_branch(connector(b.is_left)[0]));
    assert forall|i: int| 0 <= i < na implies text_a[i] == a.indent[i] by {}
    assert forall|i: int| 0 <= i < nb implies text_b[i] == b.indent[i] by {}
    assert forall|i: int| 0 <= i < 4 implies text_a[na + i] == connector(a.is_left)[i] by {}
    assert forall|i: int| 0 <= i < 4 implies text_b[nb + i] == connector(b.is_left)[i] by {}
    assert forall|i: int| 0 <= i < la implies text_a[na + 4 + i] == a.label[i] by {}
    assert forall|i: int| 0 <= i < lb implies text_b[nb + 4 + i] == b.label[i] by {}
    assert(text_a[na + 4 + la] == '\n');
    assert(text_b[nb + 4 + lb] == '\n');
    if na < nb {
        assert(text_b[na] == b.indent[na]);
        assert(text_a[na + 0] == connector(a.is_left)[0]);
        assert(false);
    }
    if nb < na {
        assert(text_a[nb] == a.indent[nb]);
        assert(text_b[nb + 0] == connector(b.is_left)[0]);
        assert(false);
    }
    assert forall|i: int| 0 <= i < na implies a.indent[i] == b.indent[i] by {
        assert(text_a[i] == a.indent[i]);
        assert(text_b[i] == b.indent[i]);
    }
    assert(a.indent =~= b.indent);
    assert(text_a[na + 0] == connector(a.is_left)[0]);
    assert(text_b[nb + 0] == connector(b.is_left)[0]);
    assert(a.is_left == b.is_left);
    if la < lb {
        assert(text_b[nb + 4 + la] == b.label[la]);
        assert(false);
    }
    if lb < la {
        assert(text_a[na + 4 + lb] == a.label[lb]);
        assert(false);
    }
    assert(a.label =~= b.label);
    assert(behind_a =~= text_a.skip(na + 4 + la + 1));
    assert(behind_b =~= text_b.skip(nb + 4 + lb + 1));
}

proof fn lemma_lines_text_front(lines: Seq<Line>)
    requires
        lines.len() > 0,
    ensures
        lines_text(lines) == hierarchy_line(lines[0].indent, lines[0].is_left, lines[0].label)
            + lines_text(lines.drop_first()),
{
    assert(lines =~= seq![lines[0]] + lines.drop_first());
    lemma_lines_text_concat(seq![lines[0]], lines.drop_first());
    lemma_lines_text_one(lines[0]);
}

/// A text is the text of one sequence of lines only.
pub proof fn lemma_lines_text_unique(a: Seq<Line>, b: Seq<Line>)
    requires
        plain_lines(a),
        plain_lines(b),
        lines_text(a) == lines_text(b),
    ensures
        a == b,
    decreases a.len(),
{
    if a.len() == 0 || b.len() == 0 {
        if a.len() > 0 {
            lemma_lines_text_front(a);
            assert(lines_text(a).len() > 0);
        }
        if b.len() > 0 {
            lemma_lines_text_front(b);
            assert(lines_text(b).len() > 0);
        }
        assert(a =~= b);
    } else {
        lemma_lines_text_front(a);
        lemma_lines_text_front(b);
        assert(plain_line(a[0]) && plain_line(b[0]));
        lemma_first_line_unique(
            a[0],
            lines_text(a.drop_first()),
            b[0],
            lines_text(b.drop_first()),
        );
        assert forall|i: int| 0 <= i < a.drop_first().len() implies plain_line(
            #[trigger] a.drop_first()[i],
        ) by {
            assert(a.drop_first()[i] == a[i + 1]);
        }
        assert forall|i: int| 0 <= i < b.drop_first().len() implies plain_line(
            #[trigger] b.drop_first()[i],
        ) by {
            assert(b.drop_first()[i] == b[i + 1]);
        }
        lemma_lines_text_unique(a.drop_first(), b.drop_first());
        assert(a =~= seq![a[0]] + a.drop_first());
        assert(b =~= seq![b[0]] + b.drop_first());
    }
}

proof fn lemma_plain_lines_concat(a: Seq<Line>, b: Seq<Line>)
    requires
        plain_lines(a),
        plain_lines(b),
    ensures
        plain_lines(a + b),
{
    assert forall|i: int| 0 <= i < (a + b).len() implies plain_line(#[trigger] (a + b)[i]) by {
        if i < a.len() {
            assert((a + b)[i] == a[i]);
        } else {
            assert((a + b)[i] == b[i - a.len()]);
        }
    }
}

/// The lines of a listing can be told apart, as long as the prefix holds no
/// branch and no label of a number holds a line break.
pub proof fn lemma_hierarchy_lines_are_plain(
    e: Expr<Seq<char>>,
    prefix: Seq<char>,
    is_left: bool,
)
    requires
        no_branch(prefix),
        plain_labels(e),
    ensures
        plain_lines(hierarchy_lines(e, prefix, is_left)),
    decreases e,
{
    let longer = prefix + extension(is_left);
    assert(no_branch(longer)) by {
        assert forall|i: int| 0 <= i < longer.len() implies !is_branch(#[trigger] longer[i]) by {
            if i < prefix.len() {
                assert(longer[i] == prefix[i]);
            } else {
                assert(longer[i] == extension(is_left)[i - prefix.len()]);
            }
        }
    }
    match e {
        Expr::BinaryOp(op, l, r) => {
            let head = Line { indent: prefix, is_left, label: binop_label(op) };
            assert(one_line(binop_label(op)));
            assert(plain_lines(seq![head]));
            lemma_hierarchy_lines_are_plain(*l, longer, true);
            lemma_hierarchy_lines_are_plain(*r, longer, false);
            lemma_plain_lines_concat(seq![head], hierarchy_lines(*l, longer, true));
            lemma_plain_lines_concat(
                seq![head] + hierarchy_lines(*l, longer, true),
                hierarchy_lines(*r, longer, false),
            );
        },
        Expr::UnaryOp(op, x) => {
            let head = Line { indent: prefix, is_left, label: unop_label(op) };
            assert(one_line(unop_label(op)));
            assert(plain_lines(seq![head]));
            lemma_hierarchy_lines_are_plain(*x, longer, false);
            lemma_plain_lines_concat(seq![head], hierarchy_lines(*x, longer, false));
        },
        Expr::Number(label) => {
            let head = Line { indent: prefix, is_left, label };
            assert(plain_lines(seq![head]));
        },
        Expr::Eof => {},
    }
}

/// The text of a listing shows one expression only: two complete expressions
/// that are listed with the same text are the same expression, as long as no
/// label of a number holds a line break. The shape is read from the text alone:
/// a line ends at the line break, its depth is the place of its branch.
pub proof fn lemma_hierarchy_text_round_trip(e1: Expr<Seq<char>>, e2: Expr<Seq<char>>)
    requires
        complete(e1),
        complete(e2),
        plain_labels(e1),
        plain_labels(e2),
        hierarchy_text(e1, Seq::empty(), false) == hierarchy_text(e2, Seq::empty(), false),
    ensures
        e1 == e2,
{
    let none = Seq::<char>::empty();
    lemma_hierarchy_text_is_its_lines(e1, none, false);
    lemma_hierarchy_text_is_its_lines(e2, none, false);
    lemma_hierarchy_lines_are_plain(e1, none, false);
    lemma_hierarchy_lines_are_plain(e2, none, false);
    lemma_lines_text_unique(hierarchy_lines(e1, none, false), hierarchy_lines(e2, none, false));
    lemma_hierarchy_round_trip(e1, e2);
}

} // verus!
