use crate::layout::{
    blank, centered, binop_label, lemma_width_of_view, max_label_len, pad_center, spaces,
    unop_label, width_of, Align,
};
use crate::parse::{
    complete, end_markers, expr_view, lemma_complete_has_no_end_marker, Expr,
};
use vstd::prelude::*;
use vstd::string::*;

verus! {

/// Why an expression has no tree view.
#[derive(Debug, PartialEq, Eq, Clone, Copy, Structural)]
pub enum RenderError {
    /// The grid would be wider than a `usize` can count.
    TooWide,
    /// A node falls on a column that the grid does not have. This takes an
    /// expression that lacks two operands or more.
    OutOfGrid,
}

/// An expression with its place in a row of the grid.
pub struct Placed {
    pub expr: Expr<Seq<char>>,
    pub column: int,
    pub align: Align,
}

/// An expression with its place in a row of the grid.
#[derive(Debug)]
pub struct PositionedExpr<'a> {
    pub expr: &'a Expr<String>,
    pub pos: usize,
    pub align: Align,
}

impl<'a> PositionedExpr<'a> {
    /// The placement that this stands for, with the labels taken by their view.
    pub open spec fn placed(&self) -> Placed {
        Placed { expr: self.expr@, column: self.pos as int, align: self.align }
    }

    /// `expr` on column `pos` of its row.
    pub fn new(expr: &'a Expr<String>, pos: usize, align: Align) -> (p: Self)
        ensures
            p.expr == expr,
            p.pos == pos,
            p.align == align,
    {
        Self { expr, pos, align }
    }
}

/// The row of placements that a vector of positioned expressions stands for.
pub open spec fn row_of(v: Seq<PositionedExpr>) -> Seq<Placed> {
    Seq::new(v.len(), |i: int| v[i].placed())
}

/// The texts that a vector of cells holds.
pub open spec fn cells_of(v: Seq<String>) -> Seq<Seq<char>> {
    Seq::new(v.len(), |i: int| v[i]@)
}

/// `n` forced to the next odd number.
pub open spec fn odd_up(n: nat) -> nat {
    if n % 2 == 0 {
        n + 1
    } else {
        n
    }
}

/// How many columns an operand stands away from its binary operator.
pub open spec fn side_offset<N>(e: Expr<N>) -> int {
    if e is BinaryOp {
        2
    } else {
        1
    }
}

/// The number of nodes of an expression, end markers included.
pub open spec fn size_of<N>(e: Expr<N>) -> nat
    decreases e,
{
    match e {
        Expr::BinaryOp(_, l, r) => 1 + size_of(*l) + size_of(*r),
        Expr::UnaryOp(_, x) => 1 + size_of(*x),
        _ => 1,
    }
}

/// The operands of a placed node, placed in the row below: those of a binary
/// operator to its left and right, that of a unary operator right under it.
pub open spec fn children(p: Placed) -> Seq<Placed> {
    match p.expr {
        Expr::BinaryOp(_, l, r) => seq![
            Placed { expr: *l, column: p.column - side_offset(*l), align: Align::Left },
            Placed { expr: *r, column: p.column + side_offset(*r), align: Align::Right },
        ],
        Expr::UnaryOp(_, x) => seq![Placed { expr: *x, column: p.column, align: Align::Left }],
        _ => seq![],
    }
}

/// Whether a placed node has its column in a grid of `width` columns, and a
/// binary operator's left operand a column to stand on. The end marker takes no cell.
pub open spec fn fits(p: Placed, width: nat) -> bool {
    match p.expr {
        Expr::BinaryOp(_, l, _) => side_offset(*l) <= p.column < width,
        Expr::Eof => true,
        _ => 0 <= p.column < width,
    }
}

/// Whether every node of a row fits.
pub open spec fn row_fits(row: Seq<Placed>, width: nat) -> bool {
    forall|i: int| 0 <= i < row.len() ==> fits(#[trigger] row[i], width)
}

/// The width of the gap between the two strokes under a binary operator.
pub open spec fn gap(cell: nat) -> nat {
    if cell >= 3 {
        (cell - 2) as nat
    } else {
        1
    }
}

/// What a placed node writes into its cell of the node row.
pub open spec fn node_text(p: Placed, cell: nat) -> Option<Seq<char>> {
    match p.expr {
        Expr::BinaryOp(op, _, _) => Some(centered(binop_label(op), cell, p.align)),
        Expr::UnaryOp(op, _) => Some(centered(unop_label(op), cell, p.align)),
        Expr::Number(label) => Some(centered(label, cell, p.align)),
        Expr::Eof => None,
    }
}

/// What a placed node writes into its cell of the edge row.
pub open spec fn edge_text(p: Placed, cell: nat) -> Option<Seq<char>> {
    match p.expr {
        Expr::BinaryOp(_, _, _) => Some(seq!['/'] + blank(gap(cell)) + seq!['\\']),
        Expr::UnaryOp(_, _) => Some(centered(seq!['|'], cell, p.align)),
        _ => None,
    }
}

/// A row of `cells` with `text` written at `column`, if there is a text and the
/// row has that column.
pub open spec fn written(cells: Seq<Seq<char>>, column: int, text: Option<Seq<char>>) -> Seq<
    Seq<char>,
> {
    match text {
        Some(t) => if 0 <= column < cells.len() {
            cells.update(column, t)
        } else {
            cells
        },
        None => cells,
    }
}

/// The node row after the first `upto` nodes of `row` have written their labels
/// into blank cells, one after the other.
pub open spec fn node_cells(row: Seq<Placed>, upto: int, width: nat, cell: nat) -> Seq<Seq<char>>
    decreases upto,
{
    if upto <= 0 {
        Seq::new(width, |i: int| blank(cell))
    } else {
        written(
            node_cells(row, upto - 1, width, cell),
            row[upto - 1].column,
            node_text(row[upto - 1], cell),
        )
    }
}

/// The edge row after the first `upto` nodes of `row` have written their strokes.
pub open spec fn edge_cells(row: Seq<Placed>, upto: int, width: nat, cell: nat) -> Seq<Seq<char>>
    decreases upto,
{
    if upto <= 0 {
        Seq::new(width, |i: int| blank(cell))
    } else {
        written(
            edge_cells(row, upto - 1, width, cell),
            row[upto - 1].column,
            edge_text(row[upto - 1], cell),
        )
    }
}

/// The operands of the first `upto` nodes of `row`, in order.
pub open spec fn next_row(row: Seq<Placed>, upto: int) -> Seq<Placed>
    decreases upto,
{
    if upto <= 0 {
        Seq::empty()
    } else {
        next_row(row, upto - 1) + children(row[upto - 1])
    }
}

/// The first `upto` cells, one behind the other.
pub open spec fn joined(cells: Seq<Seq<char>>, upto: int) -> Seq<char>
    decreases upto,
{
    if upto <= 0 {
        Seq::empty()
    } else {
        joined(cells, upto - 1) + cells[upto - 1]
    }
}

/// The nodes of the first `upto` expressions of `row` together.
pub open spec fn total_size(row: Seq<Placed>, upto: int) -> nat
    decreases upto,
{
    if upto <= 0 {
        0
    } else {
        total_size(row, upto - 1) + size_of(row[upto - 1].expr)
    }
}

/// The two lines of one level: the node row and the edge row under it.
pub open spec fn level_text(row: Seq<Placed>, width: nat, cell: nat) -> Seq<char> {
    joined(node_cells(row, row.len() as int, width, cell), width as int) + seq!['\n'] + joined(
        edge_cells(row, row.len() as int, width, cell),
        width as int,
    ) + seq!['\n']
}

/// The lines of the level `row` and of all levels below it, or `None` where a node
/// does not fit.
pub open spec fn levels_text(row: Seq<Placed>, width: nat, cell: nat) -> Option<Seq<char>>
    decreases total_size(row, row.len() as int),
{
    if !row_fits(row, width) {
        None
    } else {
        let next = next_row(row, row.len() as int);
        if next.len() == 0 {
            Some(level_text(row, width, cell))
        } else {
            proof {
                lemma_next_row_smaller(row, row.len() as int);
            }
            match levels_text(next, width, cell) {
                Some(below) => Some(level_text(row, width, cell) + below),
                None => None,
            }
        }
    }
}

/// The tree view of an expression whose numbers hold their labels: level by level,
/// a row of labels and a row of strokes, in a grid of odd width whose cells have
/// an odd length, with the root in the middle column: of the columns 1 to `width`
/// the one numbered `(width + 1) / 2`, which is `(width - 1) / 2` counted from 0.
///
/// Every expression that lacks no operand, or one only, has a tree view unless
/// its grid is too wide to count (`lemma_has_tree_view`).
pub open spec fn tree_text(e: Expr<Seq<char>>) -> Result<Seq<char>, RenderError> {
    let width = odd_up(width_of(e));
    let cell = odd_up(max_label_len(e));
    let root = Placed { expr: e, column: ((width - 1) / 2) as int, align: Align::Left };
    if width + 2 > usize::MAX {
        Err(RenderError::TooWide)
    } else {
        match levels_text(seq![root], width, cell) {
            Some(text) => Ok(text),
            None => Err(RenderError::OutOfGrid),
        }
    }
}

/// The nodes of the first expressions of a row do not depend on what follows them.
pub proof fn lemma_total_size_prefix(a: Seq<Placed>, b: Seq<Placed>, upto: int)
    requires
        0 <= upto <= a.len(),
    ensures
        total_size(a + b, upto) == total_size(a, upto),
    decreases upto,
{
    if upto > 0 {
        lemma_total_size_prefix(a, b, upto - 1);
    }
}

/// Two rows behind each other have the nodes of both.
pub proof fn lemma_total_size_concat(a: Seq<Placed>, b: Seq<Placed>, upto: int)
    requires
        0 <= upto <= b.len(),
    ensures
        total_size(a + b, a.len() + upto) == total_size(a, a.len() as int) + total_size(b, upto),
    decreases upto,
{
    if upto > 0 {
        lemma_total_size_concat(a, b, upto - 1);
    } else {
        lemma_total_size_prefix(a, b, a.len() as int);
    }
}

/// The operands of a row have together as many nodes as the row without its own.
pub proof fn lemma_next_row_smaller(row: Seq<Placed>, upto: int)
    requires
        0 <= upto <= row.len(),
    ensures
        total_size(next_row(row, upto), next_row(row, upto).len() as int) + upto == total_size(
            row,
            upto,
        ),
    decreases upto,
{
    if upto > 0 {
        lemma_next_row_smaller(row, upto - 1);
        let before = next_row(row, upto - 1);
        let added = children(row[upto - 1]);
        lemma_total_size_concat(before, added, added.len() as int);
        reveal_with_fuel(total_size, 3);
    }
}

/// How many columns the nodes of an expression reach to the left of its root.
pub open spec fn left_reach<N>(e: Expr<N>) -> int
    decreases e,
{
    match e {
        Expr::BinaryOp(_, l, r) => {
            let by_left = side_offset(*l) + left_reach(*l);
            let by_right = left_reach(*r) - side_offset(*r);
            if by_left >= by_right {
                by_left
            } else {
                by_right
            }
        },
        Expr::UnaryOp(_, x) => left_reach(*x),
        _ => 0,
    }
}

/// How many columns the nodes of an expression reach to the right of its root.
pub open spec fn right_reach<N>(e: Expr<N>) -> int
    decreases e,
{
    match e {
        Expr::BinaryOp(_, l, r) => {
            let by_right = side_offset(*r) + right_reach(*r);
            let by_left = right_reach(*l) - side_offset(*l);
            if by_right >= by_left {
                by_right
            } else {
                by_left
            }
        },
        Expr::UnaryOp(_, x) => right_reach(*x),
        _ => 0,
    }
}

/// Whether a placed expression has all its nodes on columns of the grid.
pub open spec fn within(p: Placed, width: nat) -> bool {
    left_reach(p.expr) <= p.column && p.column + right_reach(p.expr) < width
}

/// Whether every expression of a row has all its nodes on columns of the grid.
pub open spec fn all_within(row: Seq<Placed>, width: nat) -> bool {
    forall|i: int| 0 <= i < row.len() ==> within(#[trigger] row[i], width)
}

/// An expression with its end markers counted as numbers is odd in width, and
/// reaches less than half of that width to either side of its root.
pub proof fn lemma_reach_is_half_width<N>(e: Expr<N>)
    ensures
        0 <= left_reach(e),
        0 <= right_reach(e),
        2 * left_reach(e) + 1 <= width_of(e) + end_markers(e),
        2 * right_reach(e) + 1 <= width_of(e) + end_markers(e),
        (width_of(e) + end_markers(e)) % 2 == 1,
    decreases e,
{
    match e {
        Expr::BinaryOp(_, l, r) => {
            lemma_reach_is_half_width(*l);
            lemma_reach_is_half_width(*r);
        },
        Expr::UnaryOp(_, x) => {
            lemma_reach_is_half_width(*x);
        },
        _ => {},
    }
}

/// An expression that has all its nodes on the grid fits, and so do its operands
/// in the row below.
pub proof fn lemma_within_goes_down(p: Placed, width: nat)
    requires
        within(p, width),
    ensures
        fits(p, width),
        all_within(children(p), width),
{
    lemma_reach_is_half_width(p.expr);
    match p.expr {
        Expr::BinaryOp(_, l, r) => {
            lemma_reach_is_half_width(*l);
            lemma_reach_is_half_width(*r);
        },
        Expr::UnaryOp(_, x) => {
            lemma_reach_is_half_width(*x);
        },
        _ => {},
    }
}

proof fn lemma_next_row_within(row: Seq<Placed>, upto: int, width: nat)
    requires
        0 <= upto <= row.len(),
        all_within(row, width),
    ensures
        all_within(next_row(row, upto), width),
    decreases upto,
{
    if upto > 0 {
        lemma_next_row_within(row, upto - 1, width);
        lemma_within_goes_down(row[upto - 1], width);
        let before = next_row(row, upto - 1);
        let added = children(row[upto - 1]);
        assert forall|i: int| 0 <= i < (before + added).len() implies within(
            #[trigger] (before + added)[i],
            width,
        ) by {
            if i < before.len() {
                assert((before + added)[i] == before[i]);
            } else {
                assert((before + added)[i] == added[i - before.len()]);
            }
        }
    }
}

/// A row whose expressions have all their nodes on the grid has its lines, and
/// those of all levels below.
pub proof fn lemma_levels_fit(row: Seq<Placed>, width: nat, cell: nat)
    requires
        all_within(row, width),
    ensures
        levels_text(row, width, cell) is Some,
    decreases total_size(row, row.len() as int),
{
    assert forall|i: int| 0 <= i < row.len() implies fits(#[trigger] row[i], width) by {
        lemma_within_goes_down(row[i], width);
    }
    let next = next_row(row, row.len() as int);
    if next.len() != 0 {
        lemma_next_row_smaller(row, row.len() as int);
        lemma_next_row_within(row, row.len() as int, width);
        lemma_levels_fit(next, width, cell);
    }
}

/// Every expression that lacks no operand, or one only, has a tree view, unless
/// its grid is too wide to count.
pub proof fn lemma_has_tree_view(e: Expr<Seq<char>>)
    requires
        end_markers(e) <= 1,
        odd_up(width_of(e)) + 2 <= usize::MAX,
    ensures
        tree_text(e) is Ok,
{
    let width = odd_up(width_of(e));
    let root = Placed { expr: e, column: ((width - 1) / 2) as int, align: Align::Left };
    lemma_reach_is_half_width(e);
    assert(width == width_of(e) + end_markers(e));
    assert(within(root, width));
    assert(all_within(seq![root], width));
    lemma_levels_fit(seq![root], width, odd_up(max_label_len(e)));
}

/// Every complete expression has a tree view, unless its grid is too wide to
/// count: a number alone, a sum, a function of a product.
pub proof fn lemma_complete_has_tree_view(e: Expr<Seq<char>>)
    requires
        complete(e),
        odd_up(width_of(e)) + 2 <= usize::MAX,
    ensures
        tree_text(e) is Ok,
{
    lemma_complete_has_no_end_marker(e);
    lemma_has_tree_view(e);
}

/// A row of `width` blank cells of `cell` columns each.
fn blank_row(width: usize, cell: usize) -> (row: Vec<String>)
    ensures
        row.len() == width,
        cells_of(row@) == Seq::new(width as nat, |i: int| blank(cell as nat)),
{
    let mut row: Vec<String> = Vec::new();
    let mut i: usize = 0;
    while i < width
        invariant
            i <= width,
            row.len() == i,
            forall|j: int| 0 <= j < i ==> (#[trigger] row@[j])@ == blank(cell as nat),
        decreases width - i,
    {
        row.push(spaces(cell));
        i += 1;
    }
    assert(cells_of(row@) =~= Seq::new(width as nat, |i: int| blank(cell as nat)));
    row
}

/// Appends the cells of a row, one behind the other, and a line break.
fn append_row(out: &mut String, row: &Vec<String>)
    ensures
        final(out)@ == old(out)@ + joined(cells_of(row@), row.len() as int) + seq!['\n'],
{
    let ghost start = out@;
    let mut i: usize = 0;
    while i < row.len()
        invariant
            i <= row.len(),
            out@ == start + joined(cells_of(row@), i as int),
        decreases row.len() - i,
    {
        proof {
            assert(start + joined(cells_of(row@), i as int) + row@[i as int]@ =~= start + joined(
                cells_of(row@),
                i + 1,
            ));
        }
        out.append(row[i].as_str());
        i += 1;
    }
    proof {
        reveal_strlit("\n");
        assert("\n"@ =~= seq!['\n']);
    }
    out.append("\n");
}

/// The two strokes under a binary operator, in a cell of `cell` columns.
fn strokes(cell: usize) -> (s: String)
    ensures
        s@ == seq!['/'] + blank(gap(cell as nat)) + seq!['\\'],
{
    proof {
        reveal_strlit("/");
        reveal_strlit("\\");
        assert("/"@ =~= seq!['/']);
        assert("\\"@ =~= seq!['\\']);
    }
    let width: usize = if cell >= 3 {
        cell - 2
    } else {
        1
    };
    let mut s = String::from_str("/");
    let middle = spaces(width);
    s.append(middle.as_str());
    s.append("\\");
    s
}

/// Writes `text` into the cell at `column` of a row.
fn write_cell(row: &mut Vec<String>, column: usize, text: String)
    requires
        column < old(row).len(),
    ensures
        final(row).len() == old(row).len(),
        cells_of(final(row)@) == written(cells_of(old(row)@), column as int, Some(text@)),
{
    row.set(column, text);
    assert(cells_of(row@) =~= cells_of(old(row)@).update(column as int, text@));
}

impl Expr<String> {
    /// The tree view of an expression whose numbers hold their labels, line by line
    /// with a line break behind each.
    ///
    /// There is none where the grid cannot be counted, and none where a node falls
    /// outside the grid, which takes an expression that lacks two operands or more.
    pub fn tree_view(&self) -> (r: Result<String, RenderError>)
        ensures
            match tree_text(self@) {
                Ok(text) => r matches Ok(s) && s@ == text,
                Err(error) => r == Err::<String, RenderError>(error),
            },
    {
        proof {
            lemma_width_of_view(*self);
        }
        let width: usize = match self.get_width() {
            None => {
                return Err(RenderError::TooWide);
            },
            Some(w) => {
                if w > usize::MAX - 2 {
                    return Err(RenderError::TooWide);
                }
                if w % 2 == 0 {
                    w + 1
                } else {
                    w
                }
            },
        };
        let longest: usize = self.get_max_len();
        let cell: usize = if longest % 2 == 0 {
            longest + 1
        } else {
            longest
        };
        let ghost goal = levels_text(
            seq![Placed { expr: self@, column: ((width - 1) / 2) as int, align: Align::Left }],
            width as nat,
            cell as nat,
        );
        let mut current: Vec<PositionedExpr> = Vec::new();
        current.push(PositionedExpr::new(self, (width - 1) / 2, Align::Left));
        assert(row_of(current@) =~= seq![
            Placed { expr: self@, column: ((width - 1) / 2) as int, align: Align::Left },
        ]);
        let mut out = String::new();
        let mut done: bool = false;
        while !done
            invariant
                width + 2 <= usize::MAX,
                !done ==> goal == match levels_text(row_of(current@), width as nat, cell as nat) {
                    Some(below) => Some(out@ + below),
                    None => None,
                },
                done ==> goal == Some(out@),
                match tree_text(self@) {
                    Ok(text) => goal == Some(text),
                    Err(error) => goal is None && error == RenderError::OutOfGrid,
                },
            decreases total_size(row_of(current@), current.len() as int), (if done {
                0int
            } else {
                1int
            }),
        {
            let ghost row = row_of(current@);
            let mut nodes = blank_row(width, cell);
            let mut edges = blank_row(width, cell);
            let mut next: Vec<PositionedExpr> = Vec::new();
            let mut i: usize = 0;
            assert(row_of(next@) =~= next_row(row, 0));
            while i < current.len()
                invariant
                    i <= current.len(),
                    width + 2 <= usize::MAX,
                    row == row_of(current@),
                    nodes.len() == width,
                    edges.len() == width,
                    cells_of(nodes@) == node_cells(row, i as int, width as nat, cell as nat),
                    cells_of(edges@) == edge_cells(row, i as int, width as nat, cell as nat),
                    row_of(next@) == next_row(row, i as int),
                    forall|j: int| 0 <= j < i ==> fits(#[trigger] row[j], width as nat),
                    !done,
                    goal == match levels_text(row, width as nat, cell as nat) {
                        Some(below) => Some(out@ + below),
                        None => None,
                    },
                    match tree_text(self@) {
                        Ok(text) => goal == Some(text),
                        Err(error) => goal is None && error == RenderError::OutOfGrid,
                    },
                decreases current.len() - i,
            {
                let item = &current[i];
                let pos: usize = item.pos;
                let align = item.align;
                assert(row[i as int] == item.placed());
                let ghost before = row_of(next@);
                match item.expr {
                    Expr::BinaryOp(op, l, r) => {
                        let left_diff: usize = match **l {
                            Expr::BinaryOp(_, _, _) => 2,
                            _ => 1,
                        };
                        let right_diff: usize = match **r {
                            Expr::BinaryOp(_, _, _) => 2,
                            _ => 1,
                        };
                        assert(left_diff == side_offset(l@) && right_diff == side_offset(r@)) by {
                            assert(l@ == expr_view(**l));
                            assert(r@ == expr_view(**r));
                        }
                        assert(row[i as int].expr == Expr::BinaryOp(
                            *op,
                            Box::new(l@),
                            Box::new(r@),
                        ));
                        if pos >= width || pos < left_diff {
                            assert(!fits(row[i as int], width as nat));
                            return Err(RenderError::OutOfGrid);
                        }
                        write_cell(&mut nodes, pos, pad_center(op.to_string(), cell, align));
                        write_cell(&mut edges, pos, strokes(cell));
                        next.push(PositionedExpr::new(l, pos - left_diff, Align::Left));
                        next.push(PositionedExpr::new(r, pos + right_diff, Align::Right));
                        assert(row_of(next@) =~= before + children(row[i as int]));
                    },
                    Expr::UnaryOp(op, x) => {
                        if pos >= width {
                            assert(!fits(row[i as int], width as nat));
                            return Err(RenderError::OutOfGrid);
                        }
                        proof {
                            reveal_strlit("|");
                            assert("|"@ =~= seq!['|']);
                        }
                        write_cell(&mut nodes, pos, pad_center(op.to_string(), cell, align));
                        write_cell(
                            &mut edges,
                            pos,
                            pad_center(String::from_str("|"), cell, align),
                        );
                        next.push(PositionedExpr::new(x, pos, Align::Left));
                        assert(row_of(next@) =~= before + children(row[i as int]));
                    },
                    Expr::Number(label) => {
                        if pos >= width {
                            assert(!fits(row[i as int], width as nat));
                            return Err(RenderError::OutOfGrid);
                        }
                        write_cell(&mut nodes, pos, pad_center(label.clone(), cell, align));
                        assert(row_of(next@) =~= before + children(row[i as int]));
                    },
                    Expr::Eof => {
                        assert(row_of(next@) =~= before + children(row[i as int]));
                    },
                }
                i += 1;
            }
            assert(row_fits(row, width as nat));
            let ghost above = out@;
            append_row(&mut out, &nodes);
            append_row(&mut out, &edges);
            assert(out@ =~= above + level_text(row, width as nat, cell as nat));
            proof {
                lemma_next_row_smaller(row, row.len() as int);
            }
            if next.len() == 0 {
                done = true;
            } else {
                proof {
                    let below = levels_text(row_of(next@), width as nat, cell as nat);
                    if below is Some {
                        assert(above + (level_text(row, width as nat, cell as nat) + below->0)
                            =~= out@ + below->0);
                    }
                }
                current = next;
            }
        }
        Ok(out)
    }
}

} // verus!
