use reset_passwd_async::report::{build_report, find_password, lex_less, successful_tasks};
use reset_passwd_async::task::{FailureReason, TaskOutcome};
use reset_passwd_async::PasswdTask;

fn rec(h: &str, u: &str, p: &str) -> PasswdTask {
    PasswdTask { ip: h.to_string(), user: u.to_string(), new_pass: p.to_string() }
}

fn success(h: &str, u: &str, p: &str) -> TaskOutcome {
    TaskOutcome::Success { host: h.to_string(), user: u.to_string(), password: p.to_string() }
}

#[test]
fn report_has_rows_only_for_hosts_with_successes() {
    let outcomes = vec![
        success("h1", "u1", "P1"),
        success("h1", "u2", "P2"),
        TaskOutcome::Failure { host: "h2".to_string(), user: "u1".to_string(), reason: FailureReason::UserNotFound },
    ];
    let tasks = successful_tasks(&outcomes);
    assert_eq!(tasks.len(), 2);
    let m = build_report(&tasks);
    assert_eq!(m.users, vec!["u1".to_string(), "u2".to_string()]);
    assert_eq!(m.rows.len(), 1);
    assert_eq!(m.rows[0].host, "h1");
    assert_eq!(m.rows[0].cells, vec![Some("P1".to_string()), Some("P2".to_string())]);
    assert_eq!(m.sheet_row(0), vec!["h1", "u1", "P1", "u2", "P2"]);
}

#[test]
fn missing_cells_become_placeholders() {
    let tasks = vec![rec("10.0.0.2", "zed", "Z1"), rec("10.0.0.10", "amy", "A1"), rec("10.0.0.2", "amy", "A2")];
    let m = build_report(&tasks);
    assert_eq!(m.users, vec!["amy".to_string(), "zed".to_string()]);
    let hosts: Vec<&str> = m.rows.iter().map(|r| r.host.as_str()).collect();
    assert_eq!(hosts, vec!["10.0.0.10", "10.0.0.2"]);
    assert_eq!(m.sheet_row(0), vec!["10.0.0.10", "amy", "A1", "-", "-"]);
    assert_eq!(m.sheet_row(1), vec!["10.0.0.2", "amy", "A2", "zed", "Z1"]);
}

#[test]
fn later_record_wins_for_same_pair() {
    let tasks = vec![rec("h", "u", "old"), rec("h", "u", "new")];
    let m = build_report(&tasks);
    assert_eq!(m.rows.len(), 1);
    assert_eq!(m.rows[0].cells, vec![Some("new".to_string())]);
    assert_eq!(find_password(&tasks, &"h".to_string(), &"u".to_string()), Some("new".to_string()));
    assert_eq!(find_password(&tasks, &"h".to_string(), &"v".to_string()), None);
}

#[test]
fn empty_report() {
    let m = build_report(&vec![]);
    assert!(m.users.is_empty());
    assert!(m.rows.is_empty());
}

#[test]
fn lexicographic_order() {
    assert!(lex_less("abc", "abd"));
    assert!(!lex_less("abd", "abc"));
    assert!(lex_less("ab", "abc"));
    assert!(!lex_less("abc", "abc"));
    assert!(lex_less("", "a"));
    assert!(!lex_less("", ""));
    assert!(lex_less("B", "a"));
    assert!(lex_less("10.0.0.10", "10.0.0.2"));
}
