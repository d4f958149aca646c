# lox

A tree-walking interpreter for a small Lox-like language, written in Verus.

- `src/` is the verified library: the scanner (`scanner.rs`), the parser
  (`parser.rs`, with its grammar as spec functions in `grammar.rs`), the
  syntax tree (`ast.rs`), error reporting (`error.rs`), scoped environments
  (`environment.rs`), the operator rules (`operators.rs`), the front end as a
  whole (`running.rs`) and the interpreter (`interpreter.rs`).
- The interpreter is a machine that takes one step at a time. It asks its
  embedder to print values and to do all work on numbers, whose type it
  leaves open.
- `app/` is the command-line program: it reads files or a prompt, prints
  errors and output, and answers the interpreter's requests with `f64`
  numbers.
