# temp_rs

The front end of an interactive Rust evaluator, verified with Verus.

A snippet typed at the prompt is read until it is complete (`lexer`),
classified as an item, a statement or an expression (`parser`, with `syn`
doing the parsing behind `syntax`), and turned into a small crate that
replays the session's items and bindings and evaluates the snippet
(`generator`, `session`). When `rustc` rejects the crate, its diagnostics are
rewritten so that they point at the snippet (`driver`).

- `src/` is the verified library.
- `app/` is the command-line program around it: the prompt (`rustyline`),
  writing files and running `rustc`, and loading the compiled library with
  `dlopen` (`libc`).
- `tests/` holds the tests.
