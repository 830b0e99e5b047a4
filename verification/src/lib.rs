use vstd::prelude::*;

pub mod dfa;
pub mod matcher;
pub mod nfa;
pub mod postfix;

verus! {

/// Errors raised while compiling a pattern. Matching a string against a
/// successfully compiled pattern never fails.
#[derive(Clone, Copy, Debug, PartialEq, Eq, Structural)]
pub enum SyntaxError {
    /// A `)` without a matching `(`, or a `(` left open at the end.
    UnbalancedParenthesis,
    /// An operator found fewer operands on the stack than it consumes.
    MissingOperand,
    /// The token stream left more than one fragment (or none) on the stack.
    MalformedExpression,
}

} // verus!
