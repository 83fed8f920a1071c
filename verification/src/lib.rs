//! An interactive Rust evaluator's front end: deciding when a typed snippet is
//! complete, classifying it, generating the crate that evaluates it, keeping
//! the session's items and bindings, and rewriting the compiler's
//! diagnostics so they point at the snippet.
//!
//! - [`lexer`]: whether the text typed so far is an unfinished snippet.
//! - [`parser`]: item, statement or expression, and which statements persist.
//! - [`syntax`]: what is read of `syn`'s parse results.
//! - [`generator`]: the generated file and the line the snippet starts on.
//! - [`driver`]: file names, compiler failure reports, diagnostic rewriting.
//! - [`session`]: kept items and bindings, and the library counter.
//! - [`prompt`]: the prompt shown, and when typed lines make a snippet.
//! - [`text`]: character-level text operations.
pub mod text;
pub mod lexer;
pub mod syntax;
pub mod parser;
pub mod generator;
pub mod driver;
pub mod session;
pub mod prompt;
