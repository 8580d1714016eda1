use vstd::prelude::*;

verus! {

/// Failures reported by the builders, queries and the pattern compiler.
#[derive(Debug, Clone, Copy, PartialEq, Eq, Structural)]
pub enum FsmError {
    /// A state id that the automaton never handed out.
    InvalidStateId,
    /// A pattern that is empty, has unbalanced parentheses, or leaves an
    /// operator without operands.
    InvalidPattern,
}

} // verus!
