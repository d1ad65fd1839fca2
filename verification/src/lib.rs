//! A small Lisp-like language: tokeniser, parser and evaluator.
pub mod builtins;
pub mod context;
pub mod eval;
pub mod ffi;
pub mod host;
pub mod laws;
pub mod parser;
pub mod semantics;
pub mod text;
pub mod value;
