use vstd::prelude::*;

verus! {

/// Every way a payout run can fail. Nothing is retried and nothing is
/// approximated: each failure ends the run.
#[derive(Clone, Copy, Debug, PartialEq, Eq, Structural)]
pub enum PayoutError {
    /// A setting of the environment is missing or malformed.
    ConfigurationError,
    /// A bad time window or a bad selection of the payout mode.
    InputValidationError,
    /// The ticket-closure store cannot be reached.
    StoreUnavailable,
    /// The store answered with something that is no leaderboard.
    QueryError,
    /// The pool policy was applied to an activity with no ticket at all.
    EmptyPoolDivision,
    /// The directory could not be reached or did not answer properly.
    DirectoryUnavailable,
    /// The directory knows nobody under a helper's identifier.
    NoMatchFound,
}

} // verus!
