//! A verified Reverse Polish Notation (RPN) calculator core.
//!
//! The library exposes two functions: [`tokenise`], which turns one line of
//! text into a sequence of [`Node`] tokens, and [`execute`], which evaluates
//! such a sequence against an operand stack.  Both carry full functional
//! contracts against spec-level models of tokenisation and evaluation.

pub mod eval;
pub mod token;
pub mod tokenizer;

pub use eval::execute;
pub use eval::EvalError;
pub use token::Node;
pub use tokenizer::tokenise;
pub use tokenizer::ParseFailure;
pub use tokenizer::TokenizeError;
