pub mod ast_parser;
