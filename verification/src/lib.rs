//! Front end of a small expression language: a lexer that turns source text
//! into classified tokens with byte spans, and a Pratt (precedence-climbing)
//! parser that turns the token stream into an abstract syntax tree.

pub mod ast;
pub mod lexer;
pub mod parser;
pub mod precedence;
