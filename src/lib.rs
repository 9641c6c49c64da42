use vstd::prelude::*;

/// Random passwords with one character of each class.
pub mod password;
/// Tasks, their outcomes, and the decisions that each task makes.
pub mod task;
/// The scheduler that runs every task under a ceiling on concurrency.
pub mod orchestrator;
/// The host × user table of new passwords.
pub mod report;

pub use crate::password::generate_strong_password;
pub use crate::report::build_report;

verus! {

/// A password that was applied to `user` on host `ip`.
pub struct PasswdTask {
    pub ip: String,
    pub user: String,
    pub new_pass: String,
}

} // verus!
