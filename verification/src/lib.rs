//! A small dynamically-typed expression language: its syntax tree, its scope
//! stack, its built-in operations and a tree-walking evaluator, together with
//! the tokenizer and parser that produce the tree.
//!
//! Every type has a mathematical model (`Term` for expressions, `Machine`
//! for evaluation contexts, `ParserView` for parsers), and every function
//! says over these models what it returns. The evaluator computes the
//! function `eval::eval`, the tokenizer `lexer::lex`, the parser
//! `parser::parse_expression` and `parser::parse_program`. The modules
//! `laws`, `progress`, `replay` and `roundtrip` hold what is proved of these
//! functions.
//!
//! The library does no input or output. The console of a program is a queue
//! of lines and a buffer of text in its context; a front end fills the one
//! and empties the other. An evaluation that asks for a line that is not
//! queued yet stops, and can be run again once the line is there
//! (`replay::lemma_rerun_repeats`).

pub mod ast;
pub mod builtin_functions;
pub mod error;
pub mod eval;
pub mod laws;
pub mod lexer;
pub mod parser;
pub mod progress;
pub mod render;
pub mod replay;
pub mod roundtrip;
pub mod scope;
pub mod text;
