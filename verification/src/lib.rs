//! Exhaustive satisfiability for propositional formulas in infix notation.
//!
//! A formula is tokenised by [`lexer`], turned into an expression tree by
//! [`parser`], and handed to [`solver`], which normalises it, encodes it as
//! integer clauses, searches for satisfying partial assignments and expands
//! them into every model of the formula.
pub mod encode;
pub mod expand;
pub mod lexer;
pub mod models;
pub mod normal;
pub mod parser;
pub mod roundtrip;
pub mod search;
pub mod solver;

pub use crate::lexer::{get_tokens, LexerError, LexerErrorKind, Token, TokenStream};
pub use crate::parser::{run_parser, Expression, ParserError, ParserErrorKind};
pub use crate::solver::{solve, try_solve};
