//! A small calculator language, parsed and evaluated by verified code.
//!
//! - `chars`: the character classes of the language.
//! - `syntax`: the syntax trees, the parse errors, and their views.
//! - `grammar`: the language as a mathematical model, level by level.
//! - `results`: what holds of every result of the model.
//! - `text`, `lexical`, `parser`: the parser, from single characters up to
//!   statements; each function returns what the model says.
//! - `render`: writing a syntax tree out as text.
//! - `round_trip`: the proof that what is written out parses back.
//! - `derivation`: the texts that the grammar produces, with the proof that
//!   the parser reads every one of them, whatever its white space.
//! - `accepted`: the proof that the parser accepts nothing else.
//! - `eval`: evaluation against a table of variables.

pub mod accepted;
pub mod chars;
pub mod derivation;
pub mod eval;
pub mod grammar;
pub mod lexical;
pub mod parser;
pub mod render;
pub mod results;
pub mod round_trip;
pub mod syntax;
pub mod text;

pub use crate::eval::{eval_expr, eval_statement, Variables};
pub use crate::parser::{parse_expr, parse_statement};
pub use crate::syntax::{Expr, ParseError, Statement};
