# Tokenizer and syntax-tree walker

The library cuts source text into tokens and walks a token stream along a
user-defined syntax tree, building the nodes it finds.

- `lexer::tokenizer`: the tokens (`Tokens`, `Operators`), `parse_token` and
  `deparse_token`, `find_ws_str`, `get_token` and `parse`, which cuts a text
  into tokens and records the line and byte column at each token boundary.
  Contracts are stated over `token_of`, `text_of`, `first_stop`, `lex` and
  `position_after`; the laws prove that writing the tokens back gives the text,
  that `deparse_token` undoes `parse_token`, and how positions count lines and
  bytes.
- `ast_parser::ast_parser`: the syntax tree that a walk follows: named
  structures, their parameters and their nodes (`Expect`, `Maybe`, `Command`,
  `ArgsCondition`) with name-value arguments.
- `tree_walker::tree_walker`: `parse_node` and `generate_tree`. A walk is
  specified step by step (`walk_node`, `walk_scope`, `step_flow` and the
  functions they use) with an allowance of steps; a walk that panics or runs on
  forever has no result, and the public functions require that the walk ends.
  The laws prove that the result does not depend on the allowance, that a walk
  never moves back in the token stream, that it keeps each field's kind and
  only appends to list fields (also when it fails), and that a built node has
  exactly the fields its structure declares, with distinct names.
- `text`: characters and UTF-8 lengths of string slices, whitespace, and
  reading a `usize`.

`app/main.rs` reads a file and prints its tokens.
