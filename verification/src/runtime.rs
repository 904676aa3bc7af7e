//! The error that stops a running program.
use vstd::prelude::*;

verus! {

/// A run-time error: what went wrong, and the (zero-based) source line.
#[derive(Debug)]
pub struct RuntimeError {
    pub message: String,
    pub line: usize,
}

impl RuntimeError {
    pub fn new(message: String, line: usize) -> (e: Self)
        ensures
            e.message@ == message@,
            e.line == line,
    {
        RuntimeError { message, line }
    }
}

} // verus!
