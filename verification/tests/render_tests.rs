use ast_calc::ast::Ast;
use ast_calc::grid::{PositionedExpr, RenderError};
use ast_calc::layout::{pad_center, spaces, text_len, Align};
use ast_calc::parse::{BinOp, Expr, UnOp};

fn label(literal: &Vec<u8>) -> String {
    std::str::from_utf8(literal)
        .unwrap()
        .parse::<f64>()
        .unwrap()
        .to_string()
}

fn labelled(input: &str) -> Ast<String> {
    Ast::string_to_ast(input).unwrap().map(&label)
}

fn blank(n: usize) -> String {
    " ".repeat(n)
}

fn lines(rows: &[String]) -> String {
    let mut out = String::new();
    for row in rows {
        out.push_str(row);
        out.push('\n');
    }
    out
}

#[test]
fn pad_center_shares_the_space() {
    assert_eq!(pad_center("+".to_string(), 3, Align::Left), " + ");
    assert_eq!(pad_center("+".to_string(), 3, Align::Right), " + ");
    assert_eq!(pad_center("x".to_string(), 5, Align::Right), "  x  ");
    assert_eq!(pad_center("".to_string(), 4, Align::Left), "    ");
}

#[test]
fn pad_center_puts_the_odd_space_by_alignment() {
    assert_eq!(pad_center("ab".to_string(), 5, Align::Left), " ab  ");
    assert_eq!(pad_center("ab".to_string(), 5, Align::Right), "  ab ");
    assert_eq!(pad_center("10".to_string(), 3, Align::Left), "10 ");
    assert_eq!(pad_center("10".to_string(), 3, Align::Right), " 10");
    assert_eq!(pad_center("".to_string(), 1, Align::Left), " ");
    assert_eq!(pad_center("".to_string(), 1, Align::Right), " ");
}

#[test]
fn pad_center_leaves_a_text_that_fills_the_cell() {
    assert_eq!(pad_center("abc".to_string(), 3, Align::Left), "abc");
    assert_eq!(pad_center("abcd".to_string(), 3, Align::Right), "abcd");
    assert_eq!(pad_center("abc".to_string(), 0, Align::Left), "abc");
}

#[test]
fn pad_center_counts_bytes() {
    // One character of two bytes leaves one column in a cell of three.
    assert_eq!(pad_center("\u{e9}".to_string(), 3, Align::Left), "\u{e9} ");
    assert_eq!(pad_center("\u{e9}".to_string(), 3, Align::Right), " \u{e9}");
    assert_eq!(text_len(&"\u{e9}".to_string()), 2);
    assert_eq!(text_len(&"sin".to_string()), 3);
}

#[test]
fn spaces_are_spaces() {
    assert_eq!(spaces(0), "");
    assert_eq!(spaces(3), "   ");
}

#[test]
fn operator_symbols() {
    assert_eq!(BinOp::Plus.to_string(), "+");
    assert_eq!(BinOp::Minus.to_string(), "-");
    assert_eq!(BinOp::Multiply.to_string(), "*");
    assert_eq!(BinOp::Divide.to_string(), "/");
    assert_eq!(BinOp::Power.to_string(), "^");
    assert_eq!(UnOp::Negative.to_string(), "-");
    assert_eq!(UnOp::Sin.to_string(), "sin");
    assert_eq!(UnOp::Cos.to_string(), "cos");
    assert_eq!(UnOp::Tan.to_string(), "tan");
    assert_eq!(UnOp::Exp.to_string(), "exp");
    assert_eq!(UnOp::Log.to_string(), "log");
    assert_eq!(UnOp::Factorial.to_string(), "!");
}

#[test]
fn width_counts_columns() {
    assert_eq!(labelled("").expr().get_width(), Some(0));
    assert_eq!(labelled("5").expr().get_width(), Some(1));
    assert_eq!(labelled("sin(-5)!").expr().get_width(), Some(1));
    assert_eq!(labelled("1+2").expr().get_width(), Some(5));
    assert_eq!(labelled("1+2*3").expr().get_width(), Some(9));
    assert_eq!(labelled("1+").expr().get_width(), Some(4));
}

#[test]
fn longest_label_is_at_least_three() {
    assert_eq!(labelled("").expr().get_max_len(), 0);
    assert_eq!(labelled("5").expr().get_max_len(), 3);
    assert_eq!(labelled("1+2").expr().get_max_len(), 3);
    assert_eq!(labelled("1+1000").expr().get_max_len(), 4);
    assert_eq!(labelled("sin(0.12345)").expr().get_max_len(), 7);
    assert_eq!(labelled("-").expr().get_max_len(), 3);
}

#[test]
fn hierarchy_of_a_sum_of_a_product() {
    assert_eq!(
        labelled("1+2*3").print_hierarchy(),
        "└── +\n    ├── 1\n    └── *\n        ├── 2\n        └── 3\n"
    );
}

#[test]
fn hierarchy_draws_a_bar_under_a_left_operand() {
    assert_eq!(
        labelled("(1+2)*3").print_hierarchy(),
        "└── *\n    ├── +\n    │   ├── 1\n    │   └── 2\n    └── 3\n"
    );
}

#[test]
fn hierarchy_of_unary_operators() {
    assert_eq!(
        labelled("sin(3--1)").print_hierarchy(),
        "└── sin\n    └── -\n        ├── 3\n        └── -\n            └── 1\n"
    );
    assert_eq!(
        labelled("ln(4!)").print_hierarchy(),
        "└── log\n    └── !\n        └── 4\n"
    );
}

#[test]
fn hierarchy_has_no_line_for_the_end_marker() {
    assert_eq!(labelled("").print_hierarchy(), "");
    assert_eq!(labelled("1+").print_hierarchy(), "└── +\n    ├── 1\n");
    assert_eq!(labelled("-").print_hierarchy(), "└── -\n");
}

#[test]
fn hierarchy_shows_numbers_as_formatted() {
    assert_eq!(labelled("1e3").print_hierarchy(), "└── 1000\n");
    assert_eq!(labelled("2.50").print_hierarchy(), "└── 2.5\n");
}

#[test]
fn hierarchy_with_a_prefix_of_its_own() {
    let ast = labelled("1+2");
    assert_eq!(
        ast.expr().print_hierarchy(">", true),
        ">├── +\n>│   ├── 1\n>│   └── 2\n"
    );
}

#[test]
fn tree_view_of_a_sum() {
    let expected = lines(&[
        blank(6) + " + " + &blank(6),
        blank(6) + "/ \\" + &blank(6),
        blank(3) + " 1 " + &blank(3) + " 2 " + &blank(3),
        blank(15),
    ]);
    assert_eq!(labelled("1+2").tree_view(), Ok(expected));
}

#[test]
fn tree_view_of_a_sum_of_a_product() {
    let expected = lines(&[
        blank(12) + " + " + &blank(12),
        blank(12) + "/ \\" + &blank(12),
        blank(9) + " 1 " + &blank(6) + " * " + &blank(6),
        blank(18) + "/ \\" + &blank(6),
        blank(15) + " 2 " + &blank(3) + " 3 " + &blank(3),
        blank(27),
    ]);
    assert_eq!(labelled("1+2*3").tree_view(), Ok(expected));
}

#[test]
fn tree_view_sizes_cells_by_the_longest_label() {
    let expected = lines(&[
        blank(10) + "  +  " + &blank(10),
        blank(10) + "/   \\" + &blank(10),
        blank(5) + "1000 " + &blank(5) + "  2  " + &blank(5),
        blank(25),
    ]);
    assert_eq!(labelled("1000+2").tree_view(), Ok(expected));
}

#[test]
fn tree_view_aligns_operands_towards_their_operator() {
    let expected = lines(&[
        blank(6) + " + " + &blank(6),
        blank(6) + "/ \\" + &blank(6),
        blank(3) + "10 " + &blank(3) + " 20" + &blank(3),
        blank(15),
    ]);
    assert_eq!(labelled("10+20").tree_view(), Ok(expected));
}

#[test]
fn tree_view_of_a_unary_operand() {
    let expected = lines(&[
        blank(6) + " + " + &blank(6),
        blank(6) + "/ \\" + &blank(6),
        blank(3) + " 1 " + &blank(3) + "sin" + &blank(3),
        blank(9) + " | " + &blank(3),
        blank(9) + " 2 " + &blank(3),
        blank(15),
    ]);
    assert_eq!(labelled("1+sin(2)").tree_view(), Ok(expected));
}

#[test]
fn tree_view_keeps_a_level_for_the_end_marker() {
    // Width 4 is forced to 5; the missing operand takes a place in the second level.
    let expected = lines(&[
        blank(6) + " + " + &blank(6),
        blank(6) + "/ \\" + &blank(6),
        blank(3) + " 1 " + &blank(9),
        blank(15),
    ]);
    assert_eq!(labelled("1+").tree_view(), Ok(expected));
    assert_eq!(labelled("").tree_view(), Ok(" \n \n".to_string()));
}

#[test]
fn tree_view_of_a_number_alone() {
    let text = labelled("5").tree_view().unwrap();
    assert_eq!(text, " 5 \n   \n");
    assert_eq!(text.lines().next().unwrap().trim(), "5");
    assert!(!text.contains('/') && !text.contains('\\') && !text.contains('|'));
    assert_eq!(labelled("12345").tree_view(), Ok("12345\n     \n".to_string()));
}

#[test]
fn tree_view_of_unary_operators_over_a_number() {
    assert_eq!(
        labelled("sin(4)").tree_view(),
        Ok("sin\n | \n 4 \n   \n".to_string())
    );
    assert_eq!(
        labelled("-3!").tree_view(),
        Ok(" - \n | \n ! \n | \n 3 \n   \n".to_string())
    );
}

#[test]
fn tree_view_puts_the_root_in_the_middle() {
    for input in ["5", "1+2", "1+2*3", "(1+2)*(3+4)", "2^3^4", "sin(1)+2", "1+2+3+4+5"] {
        let ast = labelled(input);
        let width = ast.expr().get_width().unwrap();
        let cell = 3;
        let text = ast.tree_view().unwrap();
        let first: Vec<char> = text.lines().next().unwrap().chars().collect();
        assert_eq!(first.len(), width * cell);
        let middle = (width - 1) / 2;
        let before: String = first[..middle * cell].iter().collect();
        let after: String = first[(middle + 1) * cell..].iter().collect();
        assert_eq!(before.trim(), "");
        assert_eq!(after.trim(), "");
        assert_eq!(before.len(), after.len());
    }
}

#[test]
fn tree_view_exists_for_every_parsed_expression() {
    let inputs = [
        "1", "-1", "1!", "1+2", "1-2-3-4-5-6-7-8", "1^2^3^4^5^6^7^8",
        "((((1+2)+3)+4)+5)", "1+(2+(3+(4+5)))", "sin(cos(tan(exp(ln(1)))))",
        "-(1+2)*-(3+4)", "(1+2)!^(3*4)!", "1+", "-", "2*sin", "1+2*", "(1+2)*(3+",
    ];
    for input in inputs {
        match ast_calc::ast::Ast::string_to_ast(input) {
            Ok(ast) => assert!(ast.map(&label).tree_view().is_ok(), "{}", input),
            Err(_) => {}
        }
    }
    assert!(labelled("1-2-3-4-5-6-7-8").tree_view().is_ok());
    assert!(labelled("1+").tree_view().is_ok());
}

#[test]
fn tree_view_fails_where_a_left_operand_has_no_column() {
    // Six binary operators down the left side, all on end markers: the grid has
    // 19 columns, the root stands on column 9, the fifth operator on column 1, and
    // no column is left for the sixth.
    let mut e: Expr<String> = Expr::Eof;
    for _ in 0..6 {
        e = Expr::BinaryOp(BinOp::Plus, Box::new(e), Box::new(Expr::Eof));
    }
    assert_eq!(e.get_width(), Some(18));
    assert_eq!(e.tree_view(), Err(RenderError::OutOfGrid));
    assert_eq!(Ast::new(e).tree_view(), Err(RenderError::OutOfGrid));
}

#[test]
fn positioned_expr_holds_what_it_is_given() {
    let e: Expr<String> = Expr::Number("1".to_string());
    let p = PositionedExpr::new(&e, 4, Align::Right);
    assert_eq!(*p.expr, e);
    assert_eq!(p.pos, 4);
    assert_eq!(p.align, Align::Right);
}

fn outline(text: &str) -> Vec<(usize, String)> {
    text.lines()
        .map(|line| {
            let chars: Vec<char> = line.chars().collect();
            let at = chars
                .iter()
                .position(|c| *c == '\u{251c}' || *c == '\u{2514}')
                .unwrap();
            (at / 4, chars[at + 4..].iter().collect())
        })
        .collect()
}

fn entry(depth: usize, label: &str) -> (usize, String) {
    (depth, label.to_string())
}

#[test]
fn hierarchy_indentation_gives_the_depth() {
    assert_eq!(
        outline(&labelled("1+2*3").print_hierarchy()),
        vec![
            entry(0, "+"),
            entry(1, "1"),
            entry(1, "*"),
            entry(2, "2"),
            entry(2, "3")
        ]
    );
    assert_eq!(
        outline(&labelled("(1+2)*3").print_hierarchy()),
        vec![
            entry(0, "*"),
            entry(1, "+"),
            entry(2, "1"),
            entry(2, "2"),
            entry(1, "3")
        ]
    );
    assert_eq!(
        outline(&labelled("-sin(2)!").print_hierarchy()),
        vec![entry(0, "-"), entry(1, "sin"), entry(2, "!"), entry(3, "2")]
    );
}

#[test]
fn hierarchy_tells_complete_trees_apart() {
    let inputs = [
        "1+2*3", "(1+2)*3", "1*2+3", "1+2+3", "1+(2+3)", "-1+2", "-(1+2)", "2^3^4", "(2^3)^4",
    ];
    for a in inputs {
        for b in inputs {
            let same_listing = labelled(a).print_hierarchy() == labelled(b).print_hierarchy();
            assert_eq!(same_listing, a == b);
        }
    }
}

#[test]
fn hierarchy_does_not_show_a_missing_operand() {
    // A difference without its right operand is listed like a negation.
    assert_eq!(labelled("1-").print_hierarchy(), "└── -\n    ├── 1\n");
    assert_eq!(labelled("-1").print_hierarchy(), "└── -\n    └── 1\n");
    assert_eq!(
        outline(&labelled("1-").print_hierarchy()),
        outline(&labelled("-1").print_hierarchy())
    );
}
