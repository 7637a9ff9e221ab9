use vstd::prelude::*;
use crate::activity::{all_positive, as_mapping, count_of, credited, distinct_helpers, lemma_count_of, lemma_credited_total, lemma_recorded, rows_view, tallies_from, total_tickets, HelperActivity, Tallies};
use crate::error::PayoutError;
use crate::window::{Interval, TimeWindow, Timestamp};

verus! {

/// The question that the store is asked for the leaderboard of a window:
/// for every user with the helper role, the number of tickets that they
/// closed at or after the first parameter and before the second. The rows
/// of the answer are what `StoreAnswer::Rows` takes.
pub const LEADERBOARD_QUERY: &'static str = r#"
        SELECT u."slackId" AS "slack_id", COUNT(*) AS "tickets_closed"
        FROM "Ticket" t
        JOIN "User" u ON u."id" = t."closedById"
        WHERE
            u."helper" = true
            AND t."closedAt" >= $1::timestamptz
            AND t."closedAt" < $2::timestamptz
        GROUP BY u."slackId"
        ORDER BY "tickets_closed" DESC;
    "#;

/// One ticket that was closed: who closed it, whether they have the helper
/// role, and when.
#[derive(Debug)]
pub struct ClosureEvent {
    pub helper_id: String,
    pub helper: bool,
    pub closed_at: Timestamp,
}

/// A closure as a plain value.
pub struct Closure {
    pub helper_id: Seq<char>,
    pub helper: bool,
    pub closed_at: Timestamp,
}

impl View for ClosureEvent {
    type V = Closure;

    open spec fn view(&self) -> Closure {
        Closure { helper_id: self.helper_id@, helper: self.helper, closed_at: self.closed_at }
    }
}

/// The closures that a sequence of events stands for.
pub open spec fn closures_of(events: Seq<ClosureEvent>) -> Seq<Closure> {
    events.map_values(|e: ClosureEvent| e@)
}

/// A closure counts where a helper made it within the window.
pub open spec fn qualifies(closure: Closure, window: Interval) -> bool {
    closure.helper && window.holds(closure.closed_at)
}

/// The number of closures that count for one helper.
pub open spec fn closures_by(closures: Seq<Closure>, window: Interval, helper_id: Seq<char>) -> nat
    decreases closures.len(),
{
    if closures.len() == 0 {
        0
    } else {
        let earlier = closures_by(closures.drop_last(), window, helper_id);
        if qualifies(closures.last(), window) && closures.last().helper_id == helper_id {
            earlier + 1
        } else {
            earlier
        }
    }
}

/// The leaderboard of a window: every helper with at least one closure
/// that counts, and the number of those closures. A helper without one
/// does not occur.
pub open spec fn leaderboard(closures: Seq<Closure>, window: Interval) -> Map<Seq<char>, nat> {
    Map::new(
        |helper_id: Seq<char>| closures_by(closures, window, helper_id) > 0,
        |helper_id: Seq<char>| closures_by(closures, window, helper_id),
    )
}

/// The tallies that counting the closures one after the other gives: the
/// helpers stand in the order of their first closure that counts.
pub open spec fn tally(closures: Seq<Closure>, window: Interval) -> Tallies
    decreases closures.len(),
{
    if closures.len() == 0 {
        Tallies::empty()
    } else if qualifies(closures.last(), window) {
        credited(tally(closures.drop_last(), window), closures.last().helper_id)
    } else {
        tally(closures.drop_last(), window)
    }
}

/// One closure more, put anywhere among the others, adds one to the count
/// of its helper where it counts, and changes no other count.
pub proof fn lemma_closure_added(
    closures: Seq<Closure>,
    window: Interval,
    place: int,
    closure: Closure,
    helper_id: Seq<char>,
)
    requires
        0 <= place <= closures.len(),
    ensures
        closures_by(closures.insert(place, closure), window, helper_id) == closures_by(
            closures,
            window,
            helper_id,
        ) + if qualifies(closure, window) && closure.helper_id == helper_id {
            1nat
        } else {
            0nat
        },
    decreases closures.len(),
{
    let more = closures.insert(place, closure);
    if place == closures.len() {
        assert(more.drop_last() =~= closures);
    } else {
        lemma_closure_added(closures.drop_last(), window, place, closure, helper_id);
        assert(more.drop_last() =~= closures.drop_last().insert(place, closure));
        assert(more.last() == closures.last());
    }
}

/// A closure that does not count leaves the leaderboard as it is, with it
/// and without it: one at or after the end of the window, one before its
/// start, one by a user without the helper role.
pub proof fn lemma_closure_outside_window(
    closures: Seq<Closure>,
    window: Interval,
    place: int,
    closure: Closure,
)
    requires
        0 <= place <= closures.len(),
        !closure.helper || closure.closed_at.unix_nanos < window.start.unix_nanos
            || closure.closed_at.unix_nanos >= window.end.unix_nanos,
    ensures
        leaderboard(closures.insert(place, closure), window) == leaderboard(closures, window),
{
    let more = closures.insert(place, closure);
    assert forall|h: Seq<char>| closures_by(more, window, h) == closures_by(closures, window, h) by {
        lemma_closure_added(closures, window, place, closure, h);
    }
    assert(leaderboard(more, window) =~= leaderboard(closures, window));
}

/// A helper's closure from the start of the window on and before its end
/// counts once: with it the helper has exactly one ticket more than
/// without it, and every other helper has what they had.
pub proof fn lemma_closure_inside_window(
    closures: Seq<Closure>,
    window: Interval,
    place: int,
    closure: Closure,
)
    requires
        0 <= place <= closures.len(),
        closure.helper,
        window.start.unix_nanos <= closure.closed_at.unix_nanos < window.end.unix_nanos,
    ensures
        leaderboard(closures.insert(place, closure), window) == leaderboard(
            closures,
            window,
        ).insert(closure.helper_id, closures_by(closures, window, closure.helper_id) + 1),
{
    let more = closures.insert(place, closure);
    assert forall|h: Seq<char>|
        closures_by(more, window, h) == closures_by(closures, window, h) + if closure.helper_id
            == h {
            1nat
        } else {
            0nat
        } by {
        lemma_closure_added(closures, window, place, closure, h);
    }
    assert(leaderboard(more, window) =~= leaderboard(closures, window).insert(
        closure.helper_id,
        closures_by(closures, window, closure.helper_id) + 1,
    ));
}

/// The tickets that a leaderboard gives a helper: none where the helper
/// does not occur.
pub open spec fn tickets_in(board: Map<Seq<char>, nat>, helper_id: Seq<char>) -> nat {
    if board.contains_key(helper_id) {
        board[helper_id]
    } else {
        0
    }
}

/// The two ends of a window: a helper's closure at the very start counts,
/// one at the very end does not. Whoever answers with the leaderboard of
/// the closures they hold, as the store does, answers the same with and
/// without a closure at the end, and with one ticket more for the helper
/// of a closure at the start.
pub proof fn lemma_closures_at_the_boundaries(
    closures: Seq<Closure>,
    window: Interval,
    place: int,
    at_start: Closure,
    at_end: Closure,
)
    requires
        0 <= place <= closures.len(),
        window.start.unix_nanos < window.end.unix_nanos,
        at_start.helper,
        at_start.closed_at.same_moment(window.start),
        at_end.closed_at.same_moment(window.end),
    ensures
        leaderboard(closures.insert(place, at_end), window) == leaderboard(closures, window),
        leaderboard(closures.insert(place, at_start), window).contains_key(at_start.helper_id),
        leaderboard(closures.insert(place, at_start), window)[at_start.helper_id] == closures_by(
            closures,
            window,
            at_start.helper_id,
        ) + 1,
        leaderboard(closures.insert(place, at_start), window) == leaderboard(
            closures,
            window,
        ).insert(
            at_start.helper_id,
            tickets_in(leaderboard(closures, window), at_start.helper_id) + 1,
        ),
{
    lemma_closure_outside_window(closures, window, place, at_end);
    lemma_closure_inside_window(closures, window, place, at_start);
}

/// Counting the closures one after the other gives the leaderboard: no
/// helper twice, none without a ticket, no more tickets than closures, and
/// for every helper the number of their closures that count.
pub proof fn lemma_tally_is_leaderboard(closures: Seq<Closure>, window: Interval)
    ensures
        distinct_helpers(tally(closures, window)),
        all_positive(tally(closures, window)),
        total_tickets(tally(closures, window)) <= closures.len(),
        as_mapping(tally(closures, window)) == leaderboard(closures, window),
    decreases closures.len(),
{
    let now = tally(closures, window);
    if closures.len() == 0 {
        assert(as_mapping(now) =~= leaderboard(closures, window));
    } else {
        let front = closures.drop_last();
        let last = closures.last();
        let before = tally(front, window);
        lemma_tally_is_leaderboard(front, window);
        if qualifies(last, window) {
            lemma_recorded(before, last.helper_id, count_of(before, last.helper_id) + 1);
            lemma_credited_total(before, last.helper_id);
            lemma_count_of(before, last.helper_id);
            assert(count_of(before, last.helper_id) == closures_by(front, window, last.helper_id));
            assert forall|i: int| 0 <= i < now.len() implies (#[trigger] now[i]).1 > 0 by {
                if i < before.len() && now[i] != (
                    last.helper_id,
                    count_of(before, last.helper_id) + 1,
                ) {
                    assert(now[i] == before[i]);
                }
            }
        }
        assert(as_mapping(now) =~= leaderboard(closures, window));
    }
}

/// The leaderboard of a window over the given closures: for every helper
/// the number of tickets that they closed at or after the start of the
/// window and before its end. Closures by users without the helper role do
/// not count, and a helper without a closure that counts does not occur.
pub fn count_closures(events: &Vec<ClosureEvent>, window: &TimeWindow) -> (activity: HelperActivity)
    ensures
        activity.tallies() == tally(closures_of(events@), window@),
        activity@ == leaderboard(closures_of(events@), window@),
        all_positive(activity.tallies()),
        activity.well_formed(),
{
    let ghost closures = closures_of(events@);
    let mut activity = HelperActivity::new();
    let mut i: usize = 0;
    assert(closures.take(0) =~= Seq::<Closure>::empty());
    while i < events.len()
        invariant
            i <= events.len(),
            closures == closures_of(events@),
            activity.tallies() == tally(closures.take(i as int), window@),
            activity.well_formed(),
        decreases events.len() - i,
    {
        proof {
            assert(closures.take(i + 1).drop_last() =~= closures.take(i as int));
            assert(closures.take(i + 1).last() == events@[i as int]@);
            lemma_tally_is_leaderboard(closures.take(i as int), window@);
        }
        if events[i].helper && window.contains(&events[i].closed_at) {
            let counted = activity.credit(events[i].helper_id.as_str());
            assert(counted is Ok);
        }
        i += 1;
    }
    proof {
        assert(closures.take(i as int) =~= closures);
        lemma_tally_is_leaderboard(closures, window@);
    }
    activity
}

/// What the ticket-closure store answered to the query for the leaderboard
/// of a window.
#[derive(Debug)]
pub enum StoreAnswer {
    /// The store could not be reached.
    Unreachable,
    /// The store refused the query.
    Failed,
    /// The rows of the answer, in its order: a helper and the number of
    /// tickets that they closed in the window, which is at least one.
    Rows(Vec<(String, i64)>),
}

/// The leaderboard that a store's answer stands for, or why there is none.
pub open spec fn leaderboard_in(answer: StoreAnswer) -> Result<Tallies, PayoutError> {
    match answer {
        StoreAnswer::Unreachable => Err(PayoutError::StoreUnavailable),
        StoreAnswer::Failed => Err(PayoutError::QueryError),
        StoreAnswer::Rows(rows) => match tallies_from(rows_view(rows@)) {
            Some(tallies) => Ok(tallies),
            None => Err(PayoutError::QueryError),
        },
    }
}

/// An activity or an error as a plain value.
pub open spec fn tallies_view(outcome: Result<HelperActivity, PayoutError>) -> Result<
    Tallies,
    PayoutError,
> {
    match outcome {
        Ok(activity) => Ok(activity.tallies()),
        Err(e) => Err(e),
    }
}

/// Reads the leaderboard from what the store answered. A store that could
/// not be reached gives `StoreUnavailable`; a query that failed, or rows
/// that are no leaderboard, give `QueryError`. Every helper of the
/// leaderboard has closed at least one ticket.
pub fn get_helper_leaderboard(answer: &StoreAnswer) -> (outcome: Result<
    HelperActivity,
    PayoutError,
>)
    ensures
        tallies_view(outcome) == leaderboard_in(*answer),
        outcome matches Ok(activity) ==> all_positive(activity.tallies())
            && activity.well_formed(),
{
    match answer {
        StoreAnswer::Unreachable => Err(PayoutError::StoreUnavailable),
        StoreAnswer::Failed => Err(PayoutError::QueryError),
        StoreAnswer::Rows(rows) => HelperActivity::from_rows(rows),
    }
}

} // verus!
