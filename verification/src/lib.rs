//! Propositional-logic expressions: scanning, parsing, canonical variable
//! indexing and evaluation over assignment masks.

pub mod arguments;
pub mod ast;
pub mod bin_tree;
pub mod diagnostic;
pub mod evaluator;
pub mod grammar;
pub mod pipeline;
pub mod table;
pub mod text;
pub mod tokenizer;
pub mod tree_dump;
pub mod tree_grid;
pub mod tree_print;
