use reset_passwd_async::orchestrator::{filter_reachable, tally, Orchestrator, CONCURRENCY_LIMIT};
use reset_passwd_async::task::{
    after_password_change, after_user_check, cross_product, password_change_command, user_check_command,
    CredentialTask, FailureReason, TaskOutcome, UserCheckStep,
};

fn strings(v: &[&str]) -> Vec<String> {
    v.iter().map(|s| s.to_string()).collect()
}

fn task(h: &str, u: &str) -> CredentialTask {
    CredentialTask { host: h.to_string(), user: u.to_string() }
}

#[test]
fn commands_are_composed() {
    assert_eq!(user_check_command("alice"), "id -u alice");
    assert_eq!(password_change_command("bob", "Pw1!xyzA"), "echo 'bob:Pw1!xyzA' | sudo chpasswd");
}

#[test]
fn missing_user_ends_task_without_change() {
    match after_user_check(&task("h1", "u1"), false) {
        UserCheckStep::Finished(TaskOutcome::Failure { host, user, reason }) => {
            assert_eq!(host, "h1");
            assert_eq!(user, "u1");
            assert_eq!(reason, FailureReason::UserNotFound);
        }
        other => panic!("unexpected step {:?}", other),
    }
}

#[test]
fn password_change_result_decides_outcome() {
    match after_password_change(&task("h1", "u1"), "Secret1!".to_string(), true) {
        TaskOutcome::Success { host, user, password } => {
            assert_eq!((host.as_str(), user.as_str(), password.as_str()), ("h1", "u1", "Secret1!"));
        }
        other => panic!("unexpected outcome {:?}", other),
    }
    match after_password_change(&task("h1", "u1"), "Secret1!".to_string(), false) {
        TaskOutcome::Failure { host, user, reason } => {
            assert_eq!((host.as_str(), user.as_str()), ("h1", "u1"));
            assert_eq!(reason, FailureReason::PasswordChangeFailed);
        }
        other => panic!("unexpected outcome {:?}", other),
    }
}

#[test]
fn cross_product_is_host_major() {
    let tasks = cross_product(&strings(&["h1", "h2"]), &strings(&["u1", "u2"]));
    let pairs: Vec<(&str, &str)> = tasks.iter().map(|t| (t.host.as_str(), t.user.as_str())).collect();
    assert_eq!(pairs, vec![("h1", "u1"), ("h1", "u2"), ("h2", "u1"), ("h2", "u2")]);
    assert!(cross_product(&strings(&[]), &strings(&["u1"])).is_empty());
    assert!(cross_product(&strings(&["h1"]), &strings(&[])).is_empty());
}

#[test]
fn every_pair_gets_one_outcome_whatever_the_completion_order() {
    let mut o = Orchestrator::new(&strings(&["h1", "h2"]), &strings(&["u1", "u2"]), CONCURRENCY_LIMIT);
    let mut started = Vec::new();
    while let Some(s) = o.start_next() {
        started.push(s);
    }
    assert_eq!(started.len(), 4);
    assert_eq!(o.in_flight(), 4);
    assert!(!o.is_finished());
    for (k, t) in started.into_iter().rev() {
        let outcome = if t.user == "u1" {
            TaskOutcome::Failure { host: t.host.clone(), user: t.user.clone(), reason: FailureReason::UserNotFound }
        } else {
            TaskOutcome::Success { host: t.host.clone(), user: t.user.clone(), password: "Pw".to_string() }
        };
        assert!(o.complete(k, outcome));
    }
    assert!(o.is_finished());
    let outcomes = o.into_outcomes();
    let pairs: Vec<(&str, &str)> = outcomes.iter().map(|x| (x.host().as_str(), x.user().as_str())).collect();
    assert_eq!(pairs, vec![("h1", "u1"), ("h1", "u2"), ("h2", "u1"), ("h2", "u2")]);
    assert_eq!(tally(&outcomes), (2, 2));
}

#[test]
fn ceiling_holds_back_tasks() {
    let mut o = Orchestrator::new(&strings(&["h1", "h2", "h3"]), &strings(&["u1", "u2"]), 2);
    let (k0, t0) = o.start_next().unwrap();
    let (k1, _t1) = o.start_next().unwrap();
    assert_eq!((k0, k1), (0, 1));
    assert!(o.start_next().is_none());
    assert_eq!(o.in_flight(), 2);
    let done = TaskOutcome::Failure { host: t0.host.clone(), user: t0.user.clone(), reason: FailureReason::UserNotFound };
    assert!(o.complete(k0, done));
    assert_eq!(o.in_flight(), 1);
    let (k2, t2) = o.start_next().unwrap();
    assert_eq!(k2, 2);
    assert_eq!((t2.host.as_str(), t2.user.as_str()), ("h2", "u1"));
    assert!(o.start_next().is_none());
}

#[test]
fn wrong_completions_are_refused() {
    let mut o = Orchestrator::new(&strings(&["h1"]), &strings(&["u1", "u2"]), 5);
    let (k, t) = o.start_next().unwrap();
    let other = TaskOutcome::Success { host: "h1".to_string(), user: "u2".to_string(), password: "x".to_string() };
    assert!(!o.complete(k, other));
    let not_started = TaskOutcome::Success { host: "h1".to_string(), user: "u2".to_string(), password: "x".to_string() };
    assert!(!o.complete(1, not_started));
    let good = TaskOutcome::Success { host: t.host.clone(), user: t.user.clone(), password: "x".to_string() };
    assert!(o.complete(k, good));
    let again = TaskOutcome::Success { host: t.host.clone(), user: t.user.clone(), password: "y".to_string() };
    assert!(!o.complete(k, again));
    assert_eq!(o.in_flight(), 0);
}

#[test]
fn empty_run_is_finished_at_once() {
    let mut o = Orchestrator::new(&strings(&[]), &strings(&["u1"]), 3);
    assert!(o.is_finished());
    assert!(o.start_next().is_none());
    assert!(o.into_outcomes().is_empty());
}

#[test]
fn unreachable_hosts_are_dropped() {
    let results = vec![
        ("10.0.0.1".to_string(), true),
        ("10.0.0.2".to_string(), false),
        ("10.0.0.3".to_string(), true),
    ];
    assert_eq!(filter_reachable(results), strings(&["10.0.0.1", "10.0.0.3"]));
    assert!(filter_reachable(vec![]).is_empty());
}
