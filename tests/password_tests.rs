use reset_passwd_async::password::generate_strong_password;
use reset_passwd_async::task::{after_user_check, CredentialTask, UserCheckStep};
use std::collections::HashSet;

const SYMBOLS: &str = ",.:;!@#$%^&*()-_=+[]{}";

fn check_strong(p: &str, len: usize) {
    assert_eq!(p.chars().count(), len);
    assert!(p.chars().any(|c| c.is_ascii_lowercase()));
    assert!(p.chars().any(|c| c.is_ascii_uppercase()));
    assert!(p.chars().any(|c| c.is_ascii_digit()));
    assert!(p.chars().any(|c| SYMBOLS.contains(c)));
    assert!(p
        .chars()
        .all(|c| c.is_ascii_lowercase() || c.is_ascii_uppercase() || c.is_ascii_digit() || SYMBOLS.contains(c)));
}

#[test]
fn password_of_minimum_length() {
    for _ in 0..200 {
        check_strong(&generate_strong_password(8), 8);
    }
}

#[test]
fn password_of_various_lengths() {
    for len in [9usize, 12, 16, 33, 128] {
        check_strong(&generate_strong_password(len), len);
    }
}

#[test]
fn passwords_do_not_repeat() {
    let mut seen = HashSet::new();
    for _ in 0..10000 {
        assert!(seen.insert(generate_strong_password(12)));
    }
}

#[test]
fn each_rotation_draws_a_fresh_password() {
    let task = CredentialTask { host: "10.0.0.1".to_string(), user: "root".to_string() };
    let first = match after_user_check(&task, true) {
        UserCheckStep::ChangePassword { password } => password,
        other => panic!("unexpected step {:?}", other),
    };
    let second = match after_user_check(&task, true) {
        UserCheckStep::ChangePassword { password } => password,
        other => panic!("unexpected step {:?}", other),
    };
    check_strong(&first, 12);
    check_strong(&second, 12);
    assert_ne!(first, second);
}
