//! Formula One: a tiny LISP with a hand-built tokeniser, a recursive
//! descent parser and a tree-walking evaluator.

pub mod ast;
pub mod eval;
pub mod lex;
pub mod parse;
pub mod text;
