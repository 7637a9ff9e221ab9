use vstd::prelude::*;
use crate::error::PayoutError;
use crate::policy::{PayoutPolicy, PayoutPolicyView, PayoutSpecifierArgs};
use crate::window::{datetime_of, window_of, Interval, TimeWindow};

verus! {

/// The arguments of a payout run as they are given: the two ends of the
/// window as ISO 8601 texts, and the payout mode.
#[derive(Debug)]
pub struct PayoutArgs {
    pub start: String,
    pub end: String,
    pub payout_specifier: PayoutSpecifierArgs,
}

/// What a payout run is asked to do, once its arguments are found valid.
#[derive(Debug)]
pub struct PayoutRequest {
    pub window: TimeWindow,
    pub policy: PayoutPolicy,
}

/// A request or an error as plain values.
pub open spec fn request_view(outcome: Result<PayoutRequest, PayoutError>) -> Result<
    (Interval, PayoutPolicyView),
    PayoutError,
> {
    match outcome {
        Ok(request) => Ok((request.window@, request.policy@)),
        Err(e) => Err(e),
    }
}

impl PayoutArgs {
    /// The window that the arguments name, where they name one.
    pub open spec fn window(&self) -> Result<Interval, PayoutError> {
        match (datetime_of(self.start@), datetime_of(self.end@)) {
            (Ok(first), Ok(last)) => window_of(first, last),
            _ => Err(PayoutError::InputValidationError),
        }
    }

    /// What the arguments ask for, where they are valid.
    pub open spec fn requested(&self) -> Result<(Interval, PayoutPolicyView), PayoutError> {
        match (self.window(), self.payout_specifier.selected()) {
            (Ok(window), Some(policy)) => Ok((window, policy)),
            _ => Err(PayoutError::InputValidationError),
        }
    }

    /// Checks the arguments before anything is computed. A text that names
    /// no moment, a start that is not earlier than the end, and a payout
    /// mode that is not exactly one positive rate or pool are each refused
    /// with `InputValidationError`.
    pub fn validate(&self) -> (request: Result<PayoutRequest, PayoutError>)
        ensures
            request_view(request) == self.requested(),
    {
        let window = match TimeWindow::parse(self.start.as_str(), self.end.as_str()) {
            Ok(window) => window,
            Err(_) => {
                return Err(PayoutError::InputValidationError);
            },
        };
        match self.payout_specifier.policy() {
            Ok(policy) => Ok(PayoutRequest { window, policy }),
            Err(_) => Err(PayoutError::InputValidationError),
        }
    }
}

} // verus!
