//! A reader for a small Lisp-family expression language.
//!
//! The module `parsing` holds the syntax tree, the grammar as mathematical
//! functions on sequences of characters, the reader, which is proved to give
//! exactly what the grammar says, and the laws that are proved of both.

pub mod parsing;
