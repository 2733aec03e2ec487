//! Incremental parser for a brace-delimited scene description format.
//!
//! A text is a sequence of comments (`# ...` up to the end of the line) and
//! nodes (`type { ... name Name ... }`). The [`grammar`] recognises one of
//! them at the start of a text that may still be growing; the [`parser`]
//! keeps the text that has come in so far and hands out the nodes one by
//! one; [`laws`] holds what is proved of the two together.

pub mod facts;
pub mod grammar;
pub mod laws;
pub mod parser;
pub mod scan;
pub mod text;

pub use crate::grammar::{Node, Outcome, RootElement};
pub use crate::parser::{parse_chunks, ArseParser, FillError, Status};
