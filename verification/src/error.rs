//! The kinds of failure that the library reports to its caller.

use vstd::prelude::*;
use vstd::string::StringExecFns;

verus! {

/// Why a call was refused.
#[derive(Debug, Clone, Copy, PartialEq, Eq, Structural)]
pub enum FsmError {
    /// The automaton or the vocabulary is malformed: an id at the limit of
    /// its range, an alphabet key that is not one character, or a
    /// vocabulary without entries.
    InputInvalid,
    /// A state was named that the index has no slot for.
    StateOutOfBounds,
    /// A state was awaited that the build does not reach: its slot is never
    /// ready.
    StateUnreachable,
    /// The cache service was to be stopped while it did not run.
    ServiceNotRunning,
}

impl FsmError {
    /// The failure in words.
    pub fn message(&self) -> (text: String)
        ensures
            text@ == (match self {
                FsmError::InputInvalid => "the automaton or the vocabulary is malformed"@,
                FsmError::StateOutOfBounds => "the state has no slot in the index"@,
                FsmError::StateUnreachable => "the build does not reach the state"@,
                FsmError::ServiceNotRunning => "Cache service is not running"@,
            }),
    {
        match self {
            FsmError::InputInvalid => String::from_str(
                "the automaton or the vocabulary is malformed",
            ),
            FsmError::StateOutOfBounds => String::from_str("the state has no slot in the index"),
            FsmError::StateUnreachable => String::from_str("the build does not reach the state"),
            FsmError::ServiceNotRunning => String::from_str("Cache service is not running"),
        }
    }
}

} // verus!
