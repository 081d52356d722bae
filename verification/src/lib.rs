//! A scanner and a precedence-climbing parser for a small expression
//! language, with their proofs.
//!
//! [`lexer::Lexer`] turns a text into tokens, one at a time, and
//! [`parser::Parser`] turns the tokens into a [`ast::Program`]: a run of
//! `let` statements, `return` statements and expressions, in which prefix
//! and infix operators are nested by their ranks.
//!
//! Each of the two is proved to compute a function that is written down as
//! mathematics: [`lexer::scan_token`] says what the next token of a text is,
//! and [`grammar::program`] what the statements of a sequence of tokens are.
//! About these functions the crate proves, among other things, that the
//! scanner keeps giving `EOF` once it has reached the end
//! ([`lexer::lemma_eof_is_final`]), that the trees of the parser are nested
//! by rank ([`grammar::lemma_expression_nests_by_rank`]), that a tree keeps
//! every token of its text but the semicolons
//! ([`writing::lemma_program_is_written`]), and that every tree nested by
//! rank is read back from the tokens that write it
//! ([`round_trip::lemma_written_program_is_read`]).

pub mod ast;
pub mod error;
pub mod grammar;
pub mod lexer;
pub mod parser;
pub mod round_trip;
pub mod token;
pub mod writing;
