use crimson::activity::HelperActivity;
use crimson::error::PayoutError;
use crimson::leaderboard::{count_closures, get_helper_leaderboard, ClosureEvent, StoreAnswer};
use crimson::window::{parse_datetime, TimeWindow, Timestamp};

fn at(text: &str) -> Timestamp {
    parse_datetime(text).unwrap()
}

fn closed(helper_id: &str, helper: bool, when: &str) -> ClosureEvent {
    ClosureEvent { helper_id: helper_id.to_string(), helper, closed_at: at(when) }
}

fn tallies(activity: &HelperActivity) -> Vec<(String, u64)> {
    (0..activity.len()).map(|i| (activity.helper_id(i).clone(), activity.tickets(i))).collect()
}

#[test]
fn a_new_activity_is_empty() {
    let activity = HelperActivity::new();
    assert_eq!(activity.len(), 0);
    assert_eq!(activity.total_tickets(), 0);
    assert_eq!(activity.tickets_of("A"), None);
    assert_eq!(activity.find("A"), None);
}

#[test]
fn record_adds_and_replaces() {
    let mut activity = HelperActivity::new();
    assert_eq!(activity.record("A".to_string(), 3), Ok(()));
    assert_eq!(activity.record("B".to_string(), 1), Ok(()));
    assert_eq!(activity.record("A".to_string(), 5), Ok(()));
    assert_eq!(tallies(&activity), vec![("A".to_string(), 5), ("B".to_string(), 1)]);
    assert_eq!(activity.total_tickets(), 6);
    assert_eq!(activity.tickets_of("A"), Some(5));
    assert_eq!(activity.tickets_of("B"), Some(1));
    assert_eq!(activity.find("B"), Some(1));
}

#[test]
fn record_refuses_more_tickets_than_fit() {
    let mut activity = HelperActivity::new();
    assert_eq!(activity.record("A".to_string(), u64::MAX - 1), Ok(()));
    assert_eq!(activity.record("B".to_string(), 2), Err(PayoutError::QueryError));
    assert_eq!(tallies(&activity), vec![("A".to_string(), u64::MAX - 1)]);
    assert_eq!(activity.record("B".to_string(), 1), Ok(()));
    assert_eq!(activity.credit("A"), Err(PayoutError::QueryError));
    assert_eq!(activity.record("A".to_string(), 7), Ok(()));
    assert_eq!(activity.total_tickets(), 8);
}

#[test]
fn credit_counts_one_ticket() {
    let mut activity = HelperActivity::new();
    assert_eq!(activity.credit("A"), Ok(()));
    assert_eq!(activity.credit("B"), Ok(()));
    assert_eq!(activity.credit("A"), Ok(()));
    assert_eq!(tallies(&activity), vec![("A".to_string(), 2), ("B".to_string(), 1)]);
    assert_eq!(activity.total_tickets(), 3);
}

#[test]
fn rows_become_an_activity() {
    let rows = vec![("U2".to_string(), 9i64), ("U1".to_string(), 4), ("U3".to_string(), 1)];
    let activity = HelperActivity::from_rows(&rows).ok().unwrap();
    assert_eq!(
        tallies(&activity),
        vec![("U2".to_string(), 9), ("U1".to_string(), 4), ("U3".to_string(), 1)]
    );
    assert_eq!(activity.total_tickets(), 14);
    assert_eq!(HelperActivity::from_rows(&Vec::new()).ok().unwrap().len(), 0);
}

#[test]
fn rows_with_a_helper_without_tickets_are_no_leaderboard() {
    let rows = vec![("U2".to_string(), 9i64), ("U1".to_string(), 4), ("U3".to_string(), 0)];
    assert!(matches!(HelperActivity::from_rows(&rows), Err(PayoutError::QueryError)));
    let replaced = vec![("U1".to_string(), 4i64), ("U1".to_string(), 0)];
    assert!(matches!(HelperActivity::from_rows(&replaced), Err(PayoutError::QueryError)));
    let answer = StoreAnswer::Rows(vec![("U1".to_string(), 0)]);
    assert!(matches!(get_helper_leaderboard(&answer), Err(PayoutError::QueryError)));
}

#[test]
fn a_later_row_replaces_an_earlier_one() {
    let rows = vec![("U1".to_string(), 9i64), ("U2".to_string(), 4), ("U1".to_string(), 1)];
    let activity = HelperActivity::from_rows(&rows).ok().unwrap();
    assert_eq!(tallies(&activity), vec![("U1".to_string(), 1), ("U2".to_string(), 4)]);
}

#[test]
fn rows_with_a_negative_count_are_no_leaderboard() {
    let rows = vec![("U1".to_string(), 9i64), ("U2".to_string(), -1)];
    assert!(matches!(HelperActivity::from_rows(&rows), Err(PayoutError::QueryError)));
}

#[test]
fn rows_with_too_many_tickets_are_no_leaderboard() {
    let rows = vec![
        ("U1".to_string(), i64::MAX),
        ("U2".to_string(), i64::MAX),
        ("U3".to_string(), 2),
    ];
    assert!(matches!(HelperActivity::from_rows(&rows), Err(PayoutError::QueryError)));
    let fitting = vec![
        ("U1".to_string(), i64::MAX),
        ("U2".to_string(), i64::MAX),
        ("U3".to_string(), 1),
    ];
    assert_eq!(HelperActivity::from_rows(&fitting).ok().unwrap().total_tickets(), u64::MAX);
}

#[test]
fn the_store_answer_decides_the_leaderboard() {
    assert!(matches!(
        get_helper_leaderboard(&StoreAnswer::Unreachable),
        Err(PayoutError::StoreUnavailable)
    ));
    assert!(matches!(get_helper_leaderboard(&StoreAnswer::Failed), Err(PayoutError::QueryError)));
    let rows = StoreAnswer::Rows(vec![("U1".to_string(), 2), ("U2".to_string(), 1)]);
    let activity = get_helper_leaderboard(&rows).ok().unwrap();
    assert_eq!(tallies(&activity), vec![("U1".to_string(), 2), ("U2".to_string(), 1)]);
    let bad = StoreAnswer::Rows(vec![("U1".to_string(), -2)]);
    assert!(matches!(get_helper_leaderboard(&bad), Err(PayoutError::QueryError)));
}

#[test]
fn a_closure_at_the_end_of_the_window_does_not_count() {
    let window = TimeWindow::parse("2026-02-01T00:00:00Z", "2026-03-01T00:00:00Z").ok().unwrap();
    let events = vec![
        closed("A", true, "2026-02-03T10:00:00Z"),
        closed("A", true, "2026-02-14T12:30:00Z"),
        closed("A", true, "2026-02-28T23:59:59Z"),
        closed("A", true, "2026-03-01T00:00:00Z"),
    ];
    let activity = count_closures(&events, &window);
    assert_eq!(tallies(&activity), vec![("A".to_string(), 3)]);
}

#[test]
fn a_closure_at_the_start_of_the_window_counts() {
    let window = TimeWindow::parse("2026-02-01T00:00:00Z", "2026-03-01T00:00:00Z").ok().unwrap();
    let events = vec![
        closed("A", true, "2026-02-01T00:00:00Z"),
        closed("B", true, "2026-01-31T23:59:59.999999999Z"),
        closed("C", true, "2026-02-01T01:00:00+01:00"),
        closed("D", true, "2026-02-01T00:30:00+01:00"),
    ];
    let activity = count_closures(&events, &window);
    assert_eq!(tallies(&activity), vec![("A".to_string(), 1), ("C".to_string(), 1)]);
}

#[test]
fn only_helpers_are_counted_and_nobody_with_zero_closures_occurs() {
    let window = TimeWindow::parse("2026-02-01T00:00:00Z", "2026-03-01T00:00:00Z").ok().unwrap();
    let events = vec![
        closed("B", true, "2026-02-02T00:00:00Z"),
        closed("X", false, "2026-02-02T00:00:00Z"),
        closed("A", true, "2026-02-05T00:00:00Z"),
        closed("B", true, "2026-02-06T00:00:00Z"),
        closed("Z", true, "2026-04-01T00:00:00Z"),
        closed("B", false, "2026-02-07T00:00:00Z"),
    ];
    let activity = count_closures(&events, &window);
    assert_eq!(tallies(&activity), vec![("B".to_string(), 2), ("A".to_string(), 1)]);
    assert_eq!(activity.tickets_of("X"), None);
    assert_eq!(activity.tickets_of("Z"), None);
    assert_eq!(count_closures(&Vec::new(), &window).len(), 0);
}
