use vstd::prelude::*;
use vstd::string::{StrSliceExecFns, StringExecFns};
use crate::PasswdTask;
use crate::task::TaskOutcome;

verus! {

/// Lexicographic order on strings, character by character by code point
/// (the order of `str`'s `Ord`).
pub open spec fn seq_lt(a: Seq<char>, b: Seq<char>) -> bool
    decreases a.len(),
{
    if a.len() == 0 {
        b.len() > 0
    } else if b.len() == 0 {
        false
    } else if a[0] != b[0] {
        (a[0] as int) < (b[0] as int)
    } else {
        seq_lt(a.drop_first(), b.drop_first())
    }
}

/// Each element strictly below the ones after it.
pub open spec fn strictly_sorted(s: Seq<Seq<char>>) -> bool {
    forall|i: int, j: int| 0 <= i < j < s.len() ==> seq_lt(#[trigger] s[i], #[trigger] s[j])
}

pub open spec fn views(v: Seq<String>) -> Seq<Seq<char>> {
    v.map_values(|s: String| s@)
}

/// The users that `tasks` name.
pub open spec fn user_set(tasks: Seq<PasswdTask>) -> Set<Seq<char>>
    decreases tasks.len(),
{
    if tasks.len() == 0 {
        Set::empty()
    } else {
        user_set(tasks.drop_last()).insert(tasks.last().user@)
    }
}

/// The hosts that `tasks` name.
pub open spec fn host_set(tasks: Seq<PasswdTask>) -> Set<Seq<char>>
    decreases tasks.len(),
{
    if tasks.len() == 0 {
        Set::empty()
    } else {
        host_set(tasks.drop_last()).insert(tasks.last().ip@)
    }
}

/// The password last recorded for `user` on `host`, if any.
pub open spec fn lookup(tasks: Seq<PasswdTask>, host: Seq<char>, user: Seq<char>) -> Option<
    Seq<char>,
>
    decreases tasks.len(),
{
    if tasks.len() == 0 {
        None
    } else if tasks.last().ip@ == host && tasks.last().user@ == user {
        Some(tasks.last().new_pass@)
    } else {
        lookup(tasks.drop_last(), host, user)
    }
}

/// One row of the report: a host and, for each user column, the password set
/// for that user on the host, if any.
pub struct ReportRow {
    pub host: String,
    pub cells: Vec<Option<String>>,
}

/// The host × user table of new passwords.
pub struct ReportMatrix {
    pub users: Vec<String>,
    pub rows: Vec<ReportRow>,
}

pub open spec fn cell_view(c: Option<String>) -> Option<Seq<char>> {
    match c {
        Some(p) => Some(p@),
        None => None,
    }
}

pub open spec fn row_hosts(rows: Seq<ReportRow>) -> Seq<Seq<char>> {
    rows.map_values(|r: ReportRow| r.host@)
}

/// `m` is the report of `tasks`: one column per distinct user and one row per
/// distinct host, both in lexicographic order, and in each cell the password
/// last recorded for that host and user, or none.
pub open spec fn is_report_of(m: ReportMatrix, tasks: Seq<PasswdTask>) -> bool {
    &&& strictly_sorted(views(m.users@))
    &&& views(m.users@).to_set() == user_set(tasks)
    &&& strictly_sorted(row_hosts(m.rows@))
    &&& row_hosts(m.rows@).to_set() == host_set(tasks)
    &&& forall|i: int|
        0 <= i < m.rows@.len() ==> {
            &&& (#[trigger] m.rows@[i]).cells@.len() == m.users@.len()
            &&& forall|j: int|
                0 <= j < m.users@.len() ==> cell_view(#[trigger] m.rows@[i].cells@[j]) == lookup(
                    tasks,
                    m.rows@[i].host@,
                    m.users@[j]@,
                )
        }
}

proof fn lemma_lt_total(a: Seq<char>, b: Seq<char>)
    ensures
        a == b || seq_lt(a, b) || seq_lt(b, a),
    decreases a.len(),
{
    if a.len() > 0 && b.len() > 0 && a[0] == b[0] {
        lemma_lt_total(a.drop_first(), b.drop_first());
        if a.drop_first() == b.drop_first() {
            assert(a =~= seq![a[0]] + a.drop_first());
            assert(b =~= seq![b[0]] + b.drop_first());
        }
    } else if a.len() == 0 && b.len() == 0 {
        assert(a =~= b);
    }
}

proof fn lemma_lt_transitive(a: Seq<char>, b: Seq<char>, c: Seq<char>)
    requires
        seq_lt(a, b),
        seq_lt(b, c),
    ensures
        seq_lt(a, c),
    decreases a.len(),
{
    if a.len() > 0 && b.len() > 0 && c.len() > 0 && a[0] == b[0] && b[0] == c[0] {
        lemma_lt_transitive(a.drop_first(), b.drop_first(), c.drop_first());
    }
}

/// Compares two strings in lexicographic order.
pub fn lex_less(a: &str, b: &str) -> (r: bool)
    ensures
        r == seq_lt(a@, b@),
{
    let la = a.unicode_len();
    let lb = b.unicode_len();
    let mut i: usize = 0;
    assert(a@.skip(0) =~= a@ && b@.skip(0) =~= b@);
    while i < la && i < lb
        invariant
            la == a@.len(),
            lb == b@.len(),
            i <= la && i <= lb,
            seq_lt(a@, b@) == seq_lt(a@.skip(i as int), b@.skip(i as int)),
        decreases la - i,
    {
        let ca = a.get_char(i);
        let cb = b.get_char(i);
        assert(a@.skip(i as int)[0] == ca && b@.skip(i as int)[0] == cb);
        if ca != cb {
            return (ca as u32) < (cb as u32);
        }
        assert(a@.skip(i as int).drop_first() =~= a@.skip(i + 1));
        assert(b@.skip(i as int).drop_first() =~= b@.skip(i + 1));
        i = i + 1;
    }
    i < lb
}

proof fn lemma_contains_after_insert(s: Seq<Seq<char>>, p: int, x: Seq<char>)
    requires
        0 <= p <= s.len(),
    ensures
        forall|y: Seq<char>| #[trigger] s.insert(p, x).contains(y) <==> s.contains(y) || y == x,
{
    let t = s.insert(p, x);
    assert forall|y: Seq<char>| #[trigger] t.contains(y) <==> s.contains(y) || y == x by {
        if t.contains(y) {
            let k = choose|k: int| 0 <= k < t.len() && t[k] == y;
            if k < p {
                assert(s[k] == y);
            } else if k > p {
                assert(s[k - 1] == y);
            }
        }
        if s.contains(y) {
            let k = choose|k: int| 0 <= k < s.len() && s[k] == y;
            if k < p {
                assert(t[k] == y);
            } else {
                assert(t[k + 1] == y);
            }
        }
        if y == x {
            assert(t[p] == y);
        }
    }
}

/// Adds `s` to the sorted list `v` unless it is there already.
fn insert_sorted(v: &mut Vec<String>, s: &String)
    requires
        strictly_sorted(views(old(v)@)),
    ensures
        strictly_sorted(views(final(v)@)),
        forall|y: Seq<char>| #[trigger] views(final(v)@).contains(y) <==> views(old(v)@).contains(y) || y == s@,
{
    let mut p: usize = 0;
    while p < v.len() && lex_less(v[p].as_str(), s.as_str())
        invariant
            p <= v@.len(),
            v@ == old(v)@,
            forall|k: int| 0 <= k < p ==> seq_lt(#[trigger] views(v@)[k], s@),
        decreases v@.len() - p,
    {
        p = p + 1;
    }
    if p < v.len() && v[p] == *s {
        assert(views(v@)[p as int] == s@);
        return;
    }
    let ghost before = views(v@);
    if p < v.len() {
        proof {
            lemma_lt_total(before[p as int], s@);
        }
    }
    v.insert(p, s.clone());
    assert(views(v@) =~= before.insert(p as int, s@));
    proof {
        lemma_contains_after_insert(before, p as int, s@);
        let after = views(v@);
        assert forall|i: int, j: int| 0 <= i < j < after.len() implies seq_lt(
            #[trigger] after[i],
            #[trigger] after[j],
        ) by {
            if j == p {
            } else if i == p {
                if j - 1 > p {
                    lemma_lt_transitive(s@, before[p as int], before[j - 1]);
                }
            } else if i < p && j > p {
                assert(seq_lt(before[i], s@));
                if p < before.len() {
                    lemma_lt_transitive(before[i], s@, before[p as int]);
                    if j - 1 > p {
                        lemma_lt_transitive(before[i], before[p as int], before[j - 1]);
                    }
                }
            } else if i > p {
                assert(seq_lt(before[i - 1], before[j - 1]));
            }
        }
    }
}

/// The distinct users of `tasks`, sorted.
fn sorted_users(tasks: &[PasswdTask]) -> (r: Vec<String>)
    ensures
        strictly_sorted(views(r@)),
        views(r@).to_set() == user_set(tasks@),
{
    let mut r: Vec<String> = Vec::new();
    let mut i: usize = 0;
    while i < tasks.len()
        invariant
            i <= tasks@.len(),
            strictly_sorted(views(r@)),
            forall|y: Seq<char>| #[trigger] views(r@).contains(y) <==> user_set(tasks@.take(i as int)).contains(y),
        decreases tasks@.len() - i,
    {
        assert(tasks@.take(i + 1).drop_last() =~= tasks@.take(i as int));
        insert_sorted(&mut r, &tasks[i].user);
        i = i + 1;
    }
    assert(tasks@.take(i as int) =~= tasks@);
    assert(views(r@).to_set() =~= user_set(tasks@));
    r
}

/// The distinct hosts of `tasks`, sorted.
fn sorted_hosts(tasks: &[PasswdTask]) -> (r: Vec<String>)
    ensures
        strictly_sorted(views(r@)),
        views(r@).to_set() == host_set(tasks@),
{
    let mut r: Vec<String> = Vec::new();
    let mut i: usize = 0;
    while i < tasks.len()
        invariant
            i <= tasks@.len(),
            strictly_sorted(views(r@)),
            forall|y: Seq<char>| #[trigger] views(r@).contains(y) <==> host_set(tasks@.take(i as int)).contains(y),
        decreases tasks@.len() - i,
    {
        assert(tasks@.take(i + 1).drop_last() =~= tasks@.take(i as int));
        insert_sorted(&mut r, &tasks[i].ip);
        i = i + 1;
    }
    assert(tasks@.take(i as int) =~= tasks@);
    assert(views(r@).to_set() =~= host_set(tasks@));
    r
}

/// The password last recorded for `user` on `host`, if any.
pub fn find_password(tasks: &[PasswdTask], host: &String, user: &String) -> (r: Option<String>)
    ensures
        cell_view(r) == lookup(tasks@, host@, user@),
{
    let mut found: Option<String> = None;
    let mut i: usize = 0;
    while i < tasks.len()
        invariant
            i <= tasks@.len(),
            cell_view(found) == lookup(tasks@.take(i as int), host@, user@),
        decreases tasks@.len() - i,
    {
        assert(tasks@.take(i + 1).drop_last() =~= tasks@.take(i as int));
        if tasks[i].ip == *host && tasks[i].user == *user {
            found = Some(tasks[i].new_pass.clone());
        }
        i = i + 1;
    }
    assert(tasks@.take(i as int) =~= tasks@);
    found
}

/// Pivots the recorded passwords into a host × user table.
pub fn build_report(tasks: &[PasswdTask]) -> (r: ReportMatrix)
    ensures
        is_report_of(r, tasks@),
{
    let users = sorted_users(tasks);
    let hosts = sorted_hosts(tasks);
    let mut rows: Vec<ReportRow> = Vec::new();
    let mut i: usize = 0;
    while i < hosts.len()
        invariant
            i <= hosts@.len(),
            rows@.len() == i,
            forall|k: int| 0 <= k < i ==> (#[trigger] rows@[k]).host@ == hosts@[k]@,
            forall|k: int|
                0 <= k < i ==> {
                    &&& (#[trigger] rows@[k]).cells@.len() == users@.len()
                    &&& forall|j: int|
                        0 <= j < users@.len() ==> cell_view(#[trigger] rows@[k].cells@[j]) == lookup(
                            tasks@,
                            rows@[k].host@,
                            users@[j]@,
                        )
                },
        decreases hosts@.len() - i,
    {
        let mut cells: Vec<Option<String>> = Vec::new();
        let mut j: usize = 0;
        while j < users.len()
            invariant
                i < hosts@.len(),
                j <= users@.len(),
                cells@.len() == j,
                forall|c: int|
                    0 <= c < j ==> cell_view(#[trigger] cells@[c]) == lookup(
                        tasks@,
                        hosts@[i as int]@,
                        users@[c]@,
                    ),
            decreases users@.len() - j,
        {
            cells.push(find_password(tasks, &hosts[i], &users[j]));
            j = j + 1;
        }
        rows.push(ReportRow { host: hosts[i].clone(), cells });
        i = i + 1;
    }
    assert(row_hosts(rows@) =~= views(hosts@));
    ReportMatrix { users, rows }
}

/// The record of a successful outcome.
pub open spec fn success_view(t: PasswdTask) -> (Seq<char>, Seq<char>, Seq<char>) {
    (t.ip@, t.user@, t.new_pass@)
}

/// The successful outcomes of `s`, as (host, user, password), in order.
pub open spec fn successes_of(s: Seq<TaskOutcome>) -> Seq<(Seq<char>, Seq<char>, Seq<char>)>
    decreases s.len(),
{
    if s.len() == 0 {
        Seq::empty()
    } else {
        match s.last() {
            TaskOutcome::Success { host, user, password } => successes_of(s.drop_last()).push(
                (host@, user@, password@),
            ),
            TaskOutcome::Failure { .. } => successes_of(s.drop_last()),
        }
    }
}

/// Keeps the successful outcomes, as password records.
pub fn successful_tasks(outcomes: &Vec<TaskOutcome>) -> (r: Vec<PasswdTask>)
    ensures
        r@.map_values(|t: PasswdTask| success_view(t)) == successes_of(outcomes@),
{
    let mut r: Vec<PasswdTask> = Vec::new();
    let mut i: usize = 0;
    while i < outcomes.len()
        invariant
            i <= outcomes@.len(),
            r@.map_values(|t: PasswdTask| success_view(t)) == successes_of(outcomes@.take(i as int)),
        decreases outcomes@.len() - i,
    {
        assert(outcomes@.take(i + 1).drop_last() =~= outcomes@.take(i as int));
        let ghost before = r@;
        match &outcomes[i] {
            TaskOutcome::Success { host, user, password } => {
                r.push(
                    PasswdTask { ip: host.clone(), user: user.clone(), new_pass: password.clone() },
                );
                assert(r@.map_values(|t: PasswdTask| success_view(t)) =~= before.map_values(
                    |t: PasswdTask| success_view(t),
                ).push((host@, user@, password@)));
            },
            TaskOutcome::Failure { .. } => {},
        }
        i = i + 1;
    }
    assert(outcomes@.take(i as int) =~= outcomes@);
    r
}

impl ReportMatrix {
    /// The sheet layout of row `i`: the host, then for each user column the
    /// user and the password, or two placeholders `-` where the host has none.
    pub fn sheet_row(&self, i: usize) -> (r: Vec<String>)
        requires
            i < self.rows@.len(),
            self.rows@[i as int].cells@.len() == self.users@.len(),
        ensures
            r@.len() == 1 + 2 * self.users@.len(),
            r@[0]@ == self.rows@[i as int].host@,
            forall|j: int|
                0 <= j < self.users@.len() ==> {
                    &&& r@[1 + 2 * j]@ == match #[trigger] self.rows@[i as int].cells@[j] {
                        Some(_) => self.users@[j]@,
                        None => "-"@,
                    }
                    &&& r@[2 + 2 * j]@ == match self.rows@[i as int].cells@[j] {
                        Some(p) => p@,
                        None => "-"@,
                    }
                },
    {
        let row = &self.rows[i];
        let mut r: Vec<String> = Vec::new();
        r.push(row.host.clone());
        let mut j: usize = 0;
        while j < self.users.len()
            invariant
                i < self.rows@.len(),
                *row == self.rows@[i as int],
                row.cells@.len() == self.users@.len(),
                j <= self.users@.len(),
                r@.len() == 1 + 2 * j,
                r@[0]@ == row.host@,
                forall|k: int|
                    0 <= k < j ==> {
                        &&& r@[1 + 2 * k]@ == match #[trigger] row.cells@[k] {
                            Some(_) => self.users@[k]@,
                            None => "-"@,
                        }
                        &&& r@[2 + 2 * k]@ == match row.cells@[k] {
                            Some(p) => p@,
                            None => "-"@,
                        }
                    },
            decreases self.users@.len() - j,
        {
            match &row.cells[j] {
                Some(p) => {
                    r.push(self.users[j].clone());
                    r.push(p.clone());
                },
                None => {
                    r.push(String::from_str("-"));
                    r.push(String::from_str("-"));
                },
            }
            j = j + 1;
        }
        r
    }
}

proof fn lemma_host_set_members(tasks: Seq<PasswdTask>, h: Seq<char>)
    ensures
        host_set(tasks).contains(h) <==> exists|i: int| 0 <= i < tasks.len() && (#[trigger] tasks[i]).ip@ == h,
    decreases tasks.len(),
{
    if tasks.len() > 0 {
        let rest = tasks.drop_last();
        lemma_host_set_members(rest, h);
        if host_set(tasks).contains(h) {
            if h != tasks.last().ip@ {
                let i = choose|i: int| 0 <= i < rest.len() && (#[trigger] rest[i]).ip@ == h;
                assert(tasks[i] == rest[i]);
            } else {
                assert(tasks[tasks.len() - 1].ip@ == h);
            }
        }
        if exists|i: int| 0 <= i < tasks.len() && (#[trigger] tasks[i]).ip@ == h {
            let i = choose|i: int| 0 <= i < tasks.len() && (#[trigger] tasks[i]).ip@ == h;
            if i < tasks.len() - 1 {
                assert(rest[i] == tasks[i]);
            }
        }
    }
}

proof fn lemma_success_hosts(outcomes: Seq<TaskOutcome>, h: Seq<char>)
    ensures
        (exists|k: int| 0 <= k < successes_of(outcomes).len() && (#[trigger] successes_of(outcomes)[k]).0 == h)
            <==> exists|i: int|
            0 <= i < outcomes.len() && (#[trigger] outcomes[i]) is Success && outcomes[i].spec_host() == h,
    decreases outcomes.len(),
{
    if outcomes.len() > 0 {
        let rest = outcomes.drop_last();
        let n = outcomes.len() - 1;
        lemma_success_hosts(rest, h);
        let sr = successes_of(rest);
        let so = successes_of(outcomes);
        if exists|k: int| 0 <= k < so.len() && (#[trigger] so[k]).0 == h {
            let k = choose|k: int| 0 <= k < so.len() && (#[trigger] so[k]).0 == h;
            if k < sr.len() {
                assert(sr[k] == so[k]);
                let i = choose|i: int| 0 <= i < rest.len() && (#[trigger] rest[i]) is Success && rest[i].spec_host() == h;
                assert(outcomes[i] == rest[i]);
            } else {
                assert(outcomes[n] is Success && outcomes[n].spec_host() == h);
            }
        }
        if exists|i: int| 0 <= i < outcomes.len() && (#[trigger] outcomes[i]) is Success && outcomes[i].spec_host() == h {
            let i = choose|i: int| 0 <= i < outcomes.len() && (#[trigger] outcomes[i]) is Success && outcomes[i].spec_host() == h;
            if i < n {
                assert(rest[i] == outcomes[i]);
                let k = choose|k: int| 0 <= k < sr.len() && (#[trigger] sr[k]).0 == h;
                assert(so[k] == sr[k]);
            } else {
                assert(so[so.len() - 1].0 == h);
            }
        }
    }
}

/// The report of the successful outcomes has a row for a host exactly when
/// some outcome for that host succeeded: a host with only failures has none.
pub proof fn lemma_rows_are_hosts_with_successes(
    outcomes: Seq<TaskOutcome>,
    tasks: Seq<PasswdTask>,
    m: ReportMatrix,
    h: Seq<char>,
)
    requires
        tasks.map_values(|t: PasswdTask| success_view(t)) == successes_of(outcomes),
        is_report_of(m, tasks),
    ensures
        row_hosts(m.rows@).contains(h) <==> exists|i: int|
            0 <= i < outcomes.len() && (#[trigger] outcomes[i]) is Success && outcomes[i].spec_host() == h,
{
    let so = successes_of(outcomes);
    lemma_host_set_members(tasks, h);
    lemma_success_hosts(outcomes, h);
    assert(row_hosts(m.rows@).to_set().contains(h) == row_hosts(m.rows@).contains(h));
    if exists|i: int| 0 <= i < tasks.len() && (#[trigger] tasks[i]).ip@ == h {
        let i = choose|i: int| 0 <= i < tasks.len() && (#[trigger] tasks[i]).ip@ == h;
        assert(so[i] == success_view(tasks[i]));
    }
    if exists|k: int| 0 <= k < so.len() && (#[trigger] so[k]).0 == h {
        let k = choose|k: int| 0 <= k < so.len() && (#[trigger] so[k]).0 == h;
        assert(so[k] == success_view(tasks[k]));
    }
}

} // verus!
