use crimson::activity::HelperActivity;
use crimson::directory::{DirectoryReply, DirectoryUser};
use crimson::error::PayoutError;
use crimson::payout::{do_pool_payouts, do_static_rate_payouts, Reward};
use crimson::policy::Rate;
use crimson::report::ReportRun;

fn activity_of(rows: &[(&str, u64)]) -> HelperActivity {
    let mut activity = HelperActivity::new();
    for (id, tickets) in rows {
        activity.record(id.to_string(), *tickets).unwrap();
    }
    activity
}

fn found(id: i64, name: &str) -> DirectoryReply {
    DirectoryReply::Answered {
        status: 200,
        users: Some(vec![DirectoryUser {
            id,
            slack_id: String::new(),
            display_name: name.to_string(),
            avatar: String::new(),
            project_ids: Vec::new(),
            cookies: None,
        }]),
    }
}

fn nobody() -> DirectoryReply {
    DirectoryReply::Answered { status: 200, users: Some(Vec::new()) }
}

#[test]
fn the_report_lists_every_helper_by_descending_reward() {
    let activity = activity_of(&[("U1", 1), ("U2", 3)]);
    let paid = do_pool_payouts(&activity, 40).unwrap();
    let run = ReportRun::start(&paid);
    assert_eq!(run.next_lookup().map(|id| id.as_str()), Some("U2"));
    let run = run.supply(&found(22, "Bea")).ok().unwrap();
    assert_eq!(run.next_lookup().map(|id| id.as_str()), Some("U1"));
    let run = run.supply(&found(11, "Al")).ok().unwrap();
    assert_eq!(run.next_lookup(), None);
    let report = run.finish().unwrap();
    assert_eq!(report.total_tickets, 4);
    assert_eq!(report.total_reward, Reward { numerator: 160, denominator: 4 });
    assert_eq!(report.rows.len(), 2);
    assert_eq!(report.rows[0].display_name, "Bea");
    assert_eq!(report.rows[0].profile_url, "https://flavortown.hackclub.com/admin/users/22");
    assert_eq!(report.rows[0].reward, Reward { numerator: 120, denominator: 4 });
    assert_eq!(report.rows[0].tickets, 3);
    assert_eq!(report.rows[1].display_name, "Al");
    assert_eq!(report.rows[1].profile_url, "https://flavortown.hackclub.com/admin/users/11");
    assert_eq!(report.rows[1].reward, Reward { numerator: 40, denominator: 4 });
    assert_eq!(report.rows[1].tickets, 1);
}

#[test]
fn a_helper_that_nobody_knows_ends_the_report() {
    let activity = activity_of(&[("U1", 5), ("U2", 3), ("U3", 1)]);
    let paid = do_pool_payouts(&activity, 9).unwrap();
    let run = ReportRun::start(&paid);
    assert_eq!(run.next_lookup().map(|id| id.as_str()), Some("U1"));
    assert!(matches!(run.supply(&nobody()), Err(PayoutError::NoMatchFound)));
}

#[test]
fn a_failure_after_some_lines_leaves_no_report() {
    let activity = activity_of(&[("U1", 5), ("U2", 3), ("U3", 1)]);
    let paid = do_pool_payouts(&activity, 9).unwrap();
    let run = ReportRun::start(&paid).supply(&found(1, "One")).ok().unwrap();
    assert_eq!(run.next_lookup().map(|id| id.as_str()), Some("U2"));
    assert!(matches!(run.supply(&nobody()), Err(PayoutError::NoMatchFound)));
    let run = ReportRun::start(&paid).supply(&found(1, "One")).ok().unwrap();
    assert!(matches!(
        run.supply(&DirectoryReply::Unreachable),
        Err(PayoutError::DirectoryUnavailable)
    ));
    let run = ReportRun::start(&paid).supply(&found(1, "One")).ok().unwrap();
    assert!(matches!(
        run.supply(&DirectoryReply::Answered { status: 503, users: None }),
        Err(PayoutError::DirectoryUnavailable)
    ));
}

#[test]
fn an_unfinished_run_has_no_report() {
    let activity = activity_of(&[("U1", 5), ("U2", 3)]);
    let paid = do_pool_payouts(&activity, 9).unwrap();
    assert!(ReportRun::start(&paid).finish().is_none());
    let run = ReportRun::start(&paid).supply(&found(1, "One")).ok().unwrap();
    assert!(run.finish().is_none());
}

#[test]
fn the_report_of_nobody_is_empty() {
    let paid = do_static_rate_payouts(&HelperActivity::new(), &Rate::new(5, 2).unwrap());
    let run = ReportRun::start(&paid);
    assert_eq!(run.next_lookup(), None);
    let report = run.finish().unwrap();
    assert!(report.rows.is_empty());
    assert_eq!(report.total_tickets, 0);
    assert_eq!(report.total_reward, Reward { numerator: 0, denominator: 2 });
}

#[test]
fn a_reply_that_nothing_asked_for_changes_nothing() {
    let activity = activity_of(&[("U1", 2)]);
    let paid = do_static_rate_payouts(&activity, &Rate::new(5, 2).unwrap());
    let run = ReportRun::start(&paid).supply(&found(1, "One")).ok().unwrap();
    let run = run.supply(&nobody()).ok().unwrap();
    let run = run.supply(&found(2, "Two")).ok().unwrap();
    let report = run.finish().unwrap();
    assert_eq!(report.rows.len(), 1);
    assert_eq!(report.rows[0].display_name, "One");
    assert_eq!(report.rows[0].reward, Reward { numerator: 10, denominator: 2 });
}

#[test]
fn equal_rewards_are_reported_by_ascending_identifier() {
    let activity = activity_of(&[("Ub", 2), ("Uc", 2), ("Ua", 2), ("U", 7)]);
    let paid = do_static_rate_payouts(&activity, &Rate::new(1, 1).unwrap());
    let mut run = ReportRun::start(&paid);
    let mut asked: Vec<String> = Vec::new();
    while let Some(id) = run.next_lookup().cloned() {
        run = run.supply(&found(asked.len() as i64, &id)).ok().unwrap();
        asked.push(id);
    }
    assert_eq!(asked, vec!["U", "Ua", "Ub", "Uc"]);
    let report = run.finish().unwrap();
    let names: Vec<&str> = report.rows.iter().map(|row| row.display_name.as_str()).collect();
    assert_eq!(names, vec!["U", "Ua", "Ub", "Uc"]);
    assert_eq!(report.total_tickets, 13);
    assert_eq!(report.total_reward, Reward { numerator: 13, denominator: 1 });
}
