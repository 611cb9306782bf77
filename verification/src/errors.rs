use vstd::prelude::*;

verus! {

/// The failure taxonomy of the harness. Every failure aborts the command in
/// progress; none is retried.
#[derive(Clone, Copy, Debug, PartialEq, Eq, Structural)]
pub enum Fault {
    /// No configuration record was found.
    ConfigurationMissing,
    /// A seed range was not of the form `N` or `N-M`.
    InvalidSeedFormat,
    /// A seed range part was not a decimal number in range.
    InvalidSeedNumber,
    /// A seed range `N-M` had `N > M`.
    InvalidSeedOrder,
    /// A run id collided with a reserved ledger name.
    ReservedId,
    /// The configured scoring direction was neither `min` nor `max`.
    InvalidScoring,
    /// The configured extraction pattern did not compile.
    InvalidPattern,
    /// The tester process exited with a nonzero status.
    SubprocessFailure,
    /// A score line was present but its value was not numeric.
    ExtractionFailure,
    /// A resource could not be created, read or written.
    IOFailure,
}

} // verus!
