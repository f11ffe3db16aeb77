//! The failures that can stop the utility before its sleep loop starts.

use vstd::prelude::*;

verus! {

/// A configuration or setup failure.
///
/// Every variant is terminal: each is reported once and the process
/// gives up before any sleeping begins. Once the loop runs, nothing
/// can produce an error value any more.
#[derive(Clone, Copy, Debug, PartialEq, Eq, Structural)]
pub enum LucidError {
    /// The duration argument is not a decimal number.
    DurationParseError,
    /// The duration argument is a number, but below zero.
    DurationNegative,
    /// The operating system refused to detach the process.
    FailedToDaemonize,
}

impl LucidError {
    /// A one-line human-readable description of the failure.
    pub fn message(&self) -> (r: &'static str)
        ensures
            *self == LucidError::DurationParseError ==> r@ == "Could not parse 'duration' argument"@,
            *self == LucidError::DurationNegative ==> r@ == "Duration can not be negative"@,
            *self == LucidError::FailedToDaemonize ==> r@ == "Failed to daemonize itself"@,
    {
        match self {
            LucidError::DurationParseError => "Could not parse 'duration' argument",
            LucidError::DurationNegative => "Duration can not be negative",
            LucidError::FailedToDaemonize => "Failed to daemonize itself",
        }
    }
}

} // verus!
