//! Front end of an assembler-like language: a lexer that turns raw text into
//! a token sequence, and a recursive-descent parser that builds a statement
//! tree from it, with bounded lookahead and lenient single-token recovery.

pub mod lexer;
pub mod parser;
pub mod tokens;
