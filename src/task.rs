use vstd::prelude::*;
use vstd::string::StringExecFns;
use crate::password::{generate_strong_password, is_strong_password};

verus! {

/// Length of each generated password.
pub const PASSWORD_LENGTH: usize = 12;

/// One unit of rotation work: a user on a host.
pub struct CredentialTask {
    pub host: String,
    pub user: String,
}

#[derive(Clone, Copy, Debug, PartialEq, Eq, Structural)]
pub enum FailureReason {
    UserNotFound,
    PasswordChangeFailed,
}

/// The result of one task.
#[derive(Debug)]
pub enum TaskOutcome {
    Success { host: String, user: String, password: String },
    Failure { host: String, user: String, reason: FailureReason },
}

/// What a task does once the existence check has answered.
#[derive(Debug)]
pub enum UserCheckStep {
    /// Set this new password on the host.
    ChangePassword { password: String },
    /// The task is over.
    Finished(TaskOutcome),
}

impl TaskOutcome {
    pub open spec fn spec_host(&self) -> Seq<char> {
        match self {
            TaskOutcome::Success { host, .. } => host@,
            TaskOutcome::Failure { host, .. } => host@,
        }
    }

    pub open spec fn spec_user(&self) -> Seq<char> {
        match self {
            TaskOutcome::Success { user, .. } => user@,
            TaskOutcome::Failure { user, .. } => user@,
        }
    }

    /// True of the outcome of `task`.
    pub open spec fn is_for(&self, task: CredentialTask) -> bool {
        self.spec_host() == task.host@ && self.spec_user() == task.user@
    }

    pub fn host(&self) -> (r: &String)
        ensures
            r@ == self.spec_host(),
    {
        match self {
            TaskOutcome::Success { host, .. } => host,
            TaskOutcome::Failure { host, .. } => host,
        }
    }

    pub fn user(&self) -> (r: &String)
        ensures
            r@ == self.spec_user(),
    {
        match self {
            TaskOutcome::Success { user, .. } => user,
            TaskOutcome::Failure { user, .. } => user,
        }
    }

    pub fn is_success(&self) -> (r: bool)
        ensures
            r == self is Success,
    {
        match self {
            TaskOutcome::Success { .. } => true,
            TaskOutcome::Failure { .. } => false,
        }
    }
}

impl CredentialTask {
    /// A copy of the task with the same host and user.
    pub fn duplicate(&self) -> (r: CredentialTask)
        ensures
            r.host@ == self.host@,
            r.user@ == self.user@,
    {
        CredentialTask { host: self.host.clone(), user: self.user.clone() }
    }
}

/// `tasks` lists `hosts × users`, host-major: the task at position `k` pairs
/// `hosts[k / |users|]` with `users[k % |users|]`.
pub open spec fn is_cross_product(
    tasks: Seq<CredentialTask>,
    hosts: Seq<String>,
    users: Seq<String>,
) -> bool {
    &&& tasks.len() == hosts.len() * users.len()
    &&& forall|k: int|
        0 <= k < tasks.len() ==> {
            &&& (#[trigger] tasks[k]).host@ == hosts[k / users.len() as int]@
            &&& tasks[k].user@ == users[k % users.len() as int]@
        }
}

/// Every (host, user) pair as a task, host-major.
pub fn cross_product(hosts: &Vec<String>, users: &Vec<String>) -> (r: Vec<CredentialTask>)
    requires
        hosts@.len() * users@.len() <= usize::MAX,
    ensures
        is_cross_product(r@, hosts@, users@),
{
    let ghost m = users@.len() as int;
    let mut r: Vec<CredentialTask> = Vec::new();
    let mut i: usize = 0;
    while i < hosts.len()
        invariant
            i <= hosts@.len(),
            m == users@.len(),
            r@.len() == i * m,
            forall|k: int|
                0 <= k < r@.len() ==> {
                    &&& (#[trigger] r@[k]).host@ == hosts@[k / m]@
                    &&& r@[k].user@ == users@[k % m]@
                },
        decreases hosts@.len() - i,
    {
        let mut j: usize = 0;
        while j < users.len()
            invariant
                i < hosts@.len(),
                j <= m,
                m == users@.len(),
                r@.len() == i * m + j,
                forall|k: int|
                    0 <= k < r@.len() ==> {
                        &&& (#[trigger] r@[k]).host@ == hosts@[k / m]@
                        &&& r@[k].user@ == users@[k % m]@
                    },
            decreases m - j,
        {
            let task = CredentialTask { host: hosts[i].clone(), user: users[j].clone() };
            proof {
                vstd::arithmetic::div_mod::lemma_fundamental_div_mod_converse(
                    i * m + j,
                    m,
                    i as int,
                    j as int,
                );
            }
            r.push(task);
            j = j + 1;
        }
        assert((i + 1) * m == i * m + m) by (nonlinear_arith);
        i = i + 1;
    }
    r
}

/// The remote command that succeeds exactly when `user` exists.
pub fn user_check_command(user: &str) -> (r: String)
    ensures
        r@ == "id -u "@ + user@,
{
    let mut r = String::from_str("id -u ");
    r.append(user);
    r
}

/// The remote command that sets `password` for `user`.
pub fn password_change_command(user: &str, password: &str) -> (r: String)
    ensures
        r@ == "echo '"@ + user@ + ":"@ + password@ + "' | sudo chpasswd"@,
{
    let mut r = String::from_str("echo '");
    r.append(user);
    r.append(":");
    r.append(password);
    r.append("' | sudo chpasswd");
    r
}

/// Decides what a task does once the existence check for its user has
/// answered: a missing user ends the task, otherwise a fresh password is
/// generated to be set.
pub fn after_user_check(task: &CredentialTask, exists: bool) -> (r: UserCheckStep)
    ensures
        !exists ==> (r matches UserCheckStep::Finished(TaskOutcome::Failure { host, user, reason })
            && host@ == task.host@ && user@ == task.user@ && reason == FailureReason::UserNotFound),
        exists ==> (r matches UserCheckStep::ChangePassword { password }
            && is_strong_password(password@, PASSWORD_LENGTH as nat)),
{
    if exists {
        UserCheckStep::ChangePassword { password: generate_strong_password(PASSWORD_LENGTH) }
    } else {
        UserCheckStep::Finished(
            TaskOutcome::Failure {
                host: task.host.clone(),
                user: task.user.clone(),
                reason: FailureReason::UserNotFound,
            },
        )
    }
}

/// The outcome of a task once the password change has answered.
pub fn after_password_change(task: &CredentialTask, password: String, changed: bool) -> (r:
    TaskOutcome)
    ensures
        changed ==> (r matches TaskOutcome::Success { host, user, password: p }
            && host@ == task.host@ && user@ == task.user@ && p@ == password@),
        !changed ==> (r matches TaskOutcome::Failure { host, user, reason }
            && host@ == task.host@ && user@ == task.user@
            && reason == FailureReason::PasswordChangeFailed),
{
    if changed {
        TaskOutcome::Success { host: task.host.clone(), user: task.user.clone(), password }
    } else {
        TaskOutcome::Failure {
            host: task.host.clone(),
            user: task.user.clone(),
            reason: FailureReason::PasswordChangeFailed,
        }
    }
}

} // verus!
