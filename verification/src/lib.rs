//! A tokenizer for source text and a walker that matches a token stream
//! against a user-defined syntax tree.

pub mod lexer;
pub mod text;
pub mod ast_parser;
pub mod tree_walker;
