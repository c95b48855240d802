//! The command line surface of the interpreter: what it can be asked to do.

use vstd::prelude::*;

verus! {

/// A command line invocation of the interpreter.
pub enum Cli {
    /// Evaluate a lambda expression from a file.
    RunFile {
        /// Path to the file containing the lambda expression.
        path: String,
    },
    /// Evaluate a lambda expression provided as plain text.
    Run {
        /// lambda expression to parse and evaluate.
        expr: String,
    },
}

} // verus!
