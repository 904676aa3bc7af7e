use vstd::prelude::*;

pub mod ast;
pub mod chunk;
pub mod class;
pub mod environment;
pub mod grammar;
pub mod lexer;
pub mod numbering;
pub mod parser;
pub mod resolution;
pub mod resolver;
pub mod runtime;
pub mod scanner;
pub mod token;

verus! {
} // verus!
