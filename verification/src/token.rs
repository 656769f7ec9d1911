//! The token type shared by the tokenizer and the evaluator.

use vstd::prelude::*;

verus! {

/// One lexical unit of an RPN expression: a signed 32-bit integer operand,
/// or one of the four arithmetic operator markers.
///
/// A `Node` is immutable once produced; the token sequence the tokenizer
/// yields is read-only input to the evaluator.
#[derive(Debug, PartialEq, Eq, Structural, Clone, Copy)]
pub enum Node {
    Val(i32),
    Plus,
    Minus,
    Mul,
    Div,
}

} // verus!
