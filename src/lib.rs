//! A small compiler for a language of integer expressions and assignments to
//! single-letter variables: a lexer, a grammar check over the token stream, a
//! precedence-climbing parser and a stack-machine code generator emitting
//! Intel-syntax x86-64 assembly.
pub mod error;
pub mod text;
pub mod lexer;
pub mod spelling;
pub mod static_check;
pub mod parser;
pub mod generator;
pub mod direct;
pub mod soundness;
