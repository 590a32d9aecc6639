//! Lexical and syntactic front end of a small scripting language: a scanner
//! that turns source text into tokens and a recursive-descent parser that
//! turns tokens into an expression tree, both verified against mathematical
//! models of what they compute.

pub mod ast;
pub mod grammar;
pub mod interpreter;
pub mod lexis;
pub mod scanner;
pub mod token;
pub mod tokentype;
