//! A small scripting-language front end and tree-walking interpreter.
//!
//! Source text is lexed into a token stream, parsed into an abstract syntax
//! tree, and evaluated against a single mutable variable environment.
//! Numbers are written in an explicit radix between 2 and 64 (`b16@ff`),
//! and the side effects a program performs (printing, sleeping) are
//! returned as an ordered effect list for the caller to carry out.

pub mod ast;
pub mod base_literal;
pub mod builtin;
pub mod evaluator;
pub mod parser;
pub mod token;
pub mod tokenizer;
