//! An interpreter for a small parenthesised language: a lexer and parser
//! for its S-expressions, a preprocessor for its directives, a compiler to
//! bytecode and a stack machine that runs it.

pub mod aliases;
pub mod ast;
pub mod builtins;
pub mod bytecode;
pub mod compiler;
pub mod config;
pub mod error;
pub mod gatherer;
pub mod internal;
pub mod lexer;
pub mod num;
pub mod parser;
pub mod pos;
pub mod preprocessor;
pub mod roundtrip;
pub mod text;
pub mod value;
pub mod vm;
