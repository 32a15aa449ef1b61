# flow_parser

A small expression language, verified with Verus.

- `src/grammar.rs` parses the surface syntax (`src/ast.rs`): the grammar is
  written as spec functions over the input's characters, and the parser is
  proved to compute exactly what they describe, down to the byte spans and
  the position of a syntax error.
- `src/let_lang.rs` and `src/fn_lang.rs` are two smaller languages with
  parsers of the same kind.
- `src/abt.rs` is the bound tree, whose variables are numbered identifiers;
  `src/typecheck.rs` synthesises types for it; `src/translation.rs` lowers
  the surface syntax to it; `src/naive.rs` reduces it one step at a time;
  `src/renaming.rs` proves that renaming binders apart keeps types.
- `src/debug.rs` numbers the source files and carries the errors reported
  against them; `src/literal.rs` holds decimal literals as their digits.
- `app/` is the `flowi` command: it reads a file, reports syntax errors,
  lowers the program and evaluates it step by step. With `--calc` it runs a
  program of the calculator language of `src/fn_lang.rs`, whose arithmetic on
  decimals is done in floating point there.
