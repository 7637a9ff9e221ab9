use vstd::prelude::*;
use vstd::std_specs::cmp::PartialEqSpecImpl;
use crate::error::PayoutError;

verus! {

/// A moment: the nanoseconds since the Unix epoch, and the offset from UTC,
/// in seconds, under which the moment was written down. Only the
/// nanoseconds say which of two moments is the earlier, and whether two are
/// the same: one moment written down under two offsets is equal to itself.
#[derive(Clone, Copy, Debug, Eq)]
pub struct Timestamp {
    pub unix_nanos: i128,
    pub offset_seconds: i32,
}

impl Timestamp {
    /// Both stand for the same moment, whatever their offsets.
    pub open spec fn same_moment(self, other: Timestamp) -> bool {
        self.unix_nanos == other.unix_nanos
    }
}

impl PartialEq for Timestamp {
    fn eq(&self, other: &Timestamp) -> (same: bool) {
        self.unix_nanos == other.unix_nanos
    }
}

impl PartialEqSpecImpl for Timestamp {
    open spec fn obeys_eq_spec() -> bool {
        true
    }

    open spec fn eq_spec(&self, other: &Timestamp) -> bool {
        self.same_moment(*other)
    }
}

/// The moment that an ISO 8601 text names, as nanoseconds since the Unix
/// epoch and offset in seconds; `None` for a text that names none.
pub uninterp spec fn iso8601_moment(text: Seq<char>) -> Option<(i128, i32)>;

/// The error of `time`'s parsers. Nothing is read from it.
#[verifier::external_type_specification]
#[verifier::external_body]
pub struct ExParseError(time::error::Parse);

/// `time::OffsetDateTime::parse` with the format `Iso8601::DEFAULT`. What it
/// makes of a text depends on the text alone, so the outcome has a name:
/// the parsed moment, read through `unix_timestamp_nanos` and the whole
/// seconds of `offset`, is `iso8601_moment` of the text, and an error comes
/// exactly where that is `None`.
#[verifier::external_body]
fn parse_iso8601(text: &str) -> (parsed: Result<(i128, i32), time::error::Parse>)
    ensures
        match parsed {
            Ok(moment) => iso8601_moment(text@) == Some(moment),
            Err(_) => iso8601_moment(text@) is None,
        },
{
    let moment = time::OffsetDateTime::parse(
        text,
        &time::format_description::well_known::Iso8601::DEFAULT,
    )?;
    Ok((moment.unix_timestamp_nanos(), moment.offset().whole_seconds()))
}

/// What a text stands for as a timestamp, or `InputValidationError`.
pub open spec fn datetime_of(text: Seq<char>) -> Result<Timestamp, PayoutError> {
    match iso8601_moment(text) {
        Some(moment) => Ok(Timestamp { unix_nanos: moment.0, offset_seconds: moment.1 }),
        None => Err(PayoutError::InputValidationError),
    }
}

/// Reads an ISO 8601 date and time, such as `2026-02-01T00:00:00Z`. A text
/// that is none is refused with `InputValidationError`.
pub fn parse_datetime(s: &str) -> (moment: Result<Timestamp, PayoutError>)
    ensures
        moment == datetime_of(s@),
{
    match parse_iso8601(s) {
        Ok(parsed) => Ok(Timestamp { unix_nanos: parsed.0, offset_seconds: parsed.1 }),
        Err(_) => Err(PayoutError::InputValidationError),
    }
}

/// A window as a plain value.
pub struct Interval {
    pub start: Timestamp,
    pub end: Timestamp,
}

impl Interval {
    /// The window holds the moments from its start on, up to its end but
    /// without it.
    pub open spec fn holds(self, moment: Timestamp) -> bool {
        self.start.unix_nanos <= moment.unix_nanos < self.end.unix_nanos
    }

    /// The length of the window in nanoseconds.
    pub open spec fn length(self) -> int {
        self.end.unix_nanos - self.start.unix_nanos
    }
}

/// The window between two moments, if the first is the earlier.
pub open spec fn window_of(start: Timestamp, end: Timestamp) -> Result<Interval, PayoutError> {
    if start.unix_nanos < end.unix_nanos {
        Ok(Interval { start, end })
    } else {
        Err(PayoutError::InputValidationError)
    }
}

/// A half-open stretch of time `[start, end)`. The start is earlier than
/// the end.
#[derive(Debug)]
pub struct TimeWindow {
    start: Timestamp,
    end: Timestamp,
}

impl View for TimeWindow {
    type V = Interval;

    closed spec fn view(&self) -> Interval {
        Interval { start: self.start, end: self.end }
    }
}

/// A window or an error as a plain value.
pub open spec fn window_view(outcome: Result<TimeWindow, PayoutError>) -> Result<
    Interval,
    PayoutError,
> {
    match outcome {
        Ok(window) => Ok(window@),
        Err(e) => Err(e),
    }
}

impl TimeWindow {
    #[verifier::type_invariant]
    closed spec fn well_formed(&self) -> bool {
        self.start.unix_nanos < self.end.unix_nanos
    }

    /// The window from `start` to `end`. A start that is not earlier than
    /// the end is refused with `InputValidationError`.
    pub fn new(start: Timestamp, end: Timestamp) -> (window: Result<TimeWindow, PayoutError>)
        ensures
            window_view(window) == window_of(start, end),
    {
        if start.unix_nanos < end.unix_nanos {
            Ok(TimeWindow { start, end })
        } else {
            Err(PayoutError::InputValidationError)
        }
    }

    /// The window between two ISO 8601 texts. A text that names no moment
    /// is refused with `InputValidationError`, and so is a start that is
    /// not earlier than the end.
    pub fn parse(start: &str, end: &str) -> (window: Result<TimeWindow, PayoutError>)
        ensures
            window_view(window) == match (datetime_of(start@), datetime_of(end@)) {
                (Ok(first), Ok(last)) => window_of(first, last),
                _ => Err(PayoutError::InputValidationError),
            },
    {
        let first = match parse_datetime(start) {
            Ok(moment) => moment,
            Err(_) => {
                return Err(PayoutError::InputValidationError);
            },
        };
        let last = match parse_datetime(end) {
            Ok(moment) => moment,
            Err(_) => {
                return Err(PayoutError::InputValidationError);
            },
        };
        TimeWindow::new(first, last)
    }

    /// The first moment of the window.
    pub fn start(&self) -> (start: Timestamp)
        ensures
            start == self@.start,
    {
        self.start
    }

    /// The first moment after the window.
    pub fn end(&self) -> (end: Timestamp)
        ensures
            end == self@.end,
    {
        self.end
    }

    /// Whether a moment lies in the window. The start does, the end does
    /// not.
    pub fn contains(&self, moment: &Timestamp) -> (inside: bool)
        ensures
            inside == self@.holds(*moment),
    {
        self.start.unix_nanos <= moment.unix_nanos && moment.unix_nanos < self.end.unix_nanos
    }

    /// The length of the window in nanoseconds.
    pub fn period_nanos(&self) -> (length: u128)
        ensures
            length == self@.length(),
            length > 0,
    {
        proof {
            use_type_invariant(self);
        }
        let start: i128 = self.start.unix_nanos;
        let end: i128 = self.end.unix_nanos;
        if start >= 0 || end < 0 {
            (end - start) as u128
        } else {
            let below: u128 = ((-(start + 1)) as u128) + 1;
            (end as u128) + below
        }
    }
}

/// The start of a window lies in it and the end does not.
pub proof fn lemma_window_boundaries(window: Interval)
    requires
        window.start.unix_nanos < window.end.unix_nanos,
    ensures
        window.holds(window.start),
        !window.holds(window.end),
{
}

} // verus!
