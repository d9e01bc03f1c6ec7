//! What can go wrong before any call is made.

use vstd::prelude::*;

verus! {

/// The ways in which an argument, a statement or a script line is refused.
#[derive(Debug, Clone, Copy, PartialEq, Eq, Structural)]
pub enum ScxError {
    /// A typed argument is too short, or its type hint or separator is wrong.
    ArgumentFormat,
    /// Text that must be a number is not one, or does not fit a machine word.
    Parse,
    /// The system call number is not known on this platform.
    UnknownSyscall,
    /// A call would have no number, or more than six arguments.
    ArgumentCount,
    /// A script line holds text that no token matches.
    Tokenization,
}

} // verus!
