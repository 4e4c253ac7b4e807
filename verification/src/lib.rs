//! A two-stage front end for a small S-expression language: a lexer that
//! turns a byte buffer into positioned tokens, and a parser that assembles
//! those tokens into a forest of list/atom nodes.

pub mod lexer;
pub mod shape;
pub mod message;
pub mod parser;
