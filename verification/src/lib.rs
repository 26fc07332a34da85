//! A calculator for arithmetic expressions: a tokenizer, a precedence parser, an
//! evaluator over the caller's arithmetic, and two views of the syntax tree.
//!
//! Numbers are kept as the literals that were written. What a literal is worth,
//! how a value is printed and how values are added or multiplied is the caller's
//! to say: the leaves of a tree are mapped to values or to labels with `map`, and
//! the evaluator is handed the operations.

pub mod ast;
pub mod eval;
pub mod grid;
pub mod hierarchy;
pub mod layout;
pub mod lex;
pub mod parse;
pub mod spelling;
