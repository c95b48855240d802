//! A small untyped lambda calculus interpreter: lambda terms, capture-avoiding
//! substitution, normal-order beta reduction to normal form, and the binding
//! environment for top-level `let` definitions, together with a lexer and a
//! parser for the surface syntax.

pub mod bindings;
pub mod cli;
pub mod fresh;
pub mod lexer;
pub mod parser;
pub mod reduce;
pub mod subst;
pub mod term;

pub use bindings::Bindings;
pub use cli::Cli;
pub use lexer::{tokenize, Token, TokenType};
pub use parser::{parse_program, ParseError};
pub use reduce::Instruction;
pub use term::LambdaTerm;
pub use term::SpecTerm;
