use vstd::prelude::*;
use crate::task::{CredentialTask, TaskOutcome, cross_product, is_cross_product};

verus! {

/// The most tasks that may be in flight at once.
pub const CONCURRENCY_LIMIT: usize = 50;

/// Number of tasks among the first `n` whose outcome has not come back.
pub open spec fn pending_upto(slots: Seq<Option<TaskOutcome>>, n: int) -> nat
    decreases n,
{
    if n <= 0 {
        0
    } else {
        pending_upto(slots, n - 1) + if slots[n - 1] is None {
            1nat
        } else {
            0nat
        }
    }
}

proof fn lemma_pending_after_fill(slots: Seq<Option<TaskOutcome>>, k: int, o: TaskOutcome, n: int)
    requires
        0 <= k < slots.len(),
        n <= slots.len(),
        slots[k] is None,
    ensures
        pending_upto(slots.update(k, Some(o)), n) + (if k < n {
            1nat
        } else {
            0nat
        }) == pending_upto(slots, n),
    decreases n,
{
    if n > 0 {
        lemma_pending_after_fill(slots, k, o, n - 1);
    }
}

proof fn lemma_none_pending_all_filled(slots: Seq<Option<TaskOutcome>>, n: int)
    requires
        0 <= n <= slots.len(),
        pending_upto(slots, n) == 0,
    ensures
        forall|i: int| 0 <= i < n ==> (#[trigger] slots[i]) is Some,
    decreases n,
{
    if n > 0 {
        lemma_none_pending_all_filled(slots, n - 1);
    }
}

/// Hands out the tasks of `hosts × users` under a ceiling on how many may run
/// at once, and gathers exactly one outcome for each.
pub struct Orchestrator {
    tasks: Vec<CredentialTask>,
    limit: usize,
    next: usize,
    in_flight: usize,
    slots: Vec<Option<TaskOutcome>>,
}

impl Orchestrator {
    pub closed spec fn spec_tasks(&self) -> Seq<CredentialTask> {
        self.tasks@
    }

    pub closed spec fn spec_limit(&self) -> nat {
        self.limit as nat
    }

    /// Number of tasks handed out so far, in order.
    pub closed spec fn spec_started(&self) -> nat {
        self.next as nat
    }

    /// Number of tasks handed out whose outcome has not come back.
    pub closed spec fn spec_in_flight(&self) -> nat {
        self.in_flight as nat
    }

    /// The outcome recorded for each task, if any.
    pub closed spec fn spec_slots(&self) -> Seq<Option<TaskOutcome>> {
        self.slots@
    }

    pub closed spec fn wf(&self) -> bool {
        &&& self.slots@.len() == self.tasks@.len()
        &&& 0 < self.limit
        &&& self.next <= self.tasks@.len()
        &&& self.in_flight <= self.limit
        &&& self.in_flight == pending_upto(self.slots@, self.next as int)
        &&& forall|i: int| self.next <= i < self.slots@.len() ==> (#[trigger] self.slots@[i]) is None
        &&& forall|i: int|
            0 <= i < self.slots@.len() ==> ((#[trigger] self.slots@[i]) matches Some(o) ==> o.is_for(
                self.tasks@[i],
            ))
    }

    /// All tasks handed out and all outcomes back.
    pub open spec fn spec_finished(&self) -> bool {
        self.spec_started() == self.spec_tasks().len() && self.spec_in_flight() == 0
    }

    /// Sets up the tasks `hosts × users`, at most `limit` of them in flight.
    pub fn new(hosts: &Vec<String>, users: &Vec<String>, limit: usize) -> (r: Orchestrator)
        requires
            limit > 0,
            hosts@.len() * users@.len() <= usize::MAX,
        ensures
            r.wf(),
            is_cross_product(r.spec_tasks(), hosts@, users@),
            r.spec_limit() == limit,
            r.spec_started() == 0,
            r.spec_in_flight() == 0,
    {
        let tasks = cross_product(hosts, users);
        let mut slots: Vec<Option<TaskOutcome>> = Vec::new();
        while slots.len() < tasks.len()
            invariant
                slots@.len() <= tasks@.len(),
                forall|i: int| 0 <= i < slots@.len() ==> (#[trigger] slots@[i]) is None,
            decreases tasks@.len() - slots@.len(),
        {
            slots.push(None);
        }
        Orchestrator { tasks, limit, next: 0, in_flight: 0, slots }
    }

    pub fn in_flight(&self) -> (r: usize)
        ensures
            r == self.spec_in_flight(),
    {
        self.in_flight
    }

    pub fn is_finished(&self) -> (r: bool)
        requires
            self.wf(),
        ensures
            r == self.spec_finished(),
    {
        self.next == self.tasks.len() && self.in_flight == 0
    }

    /// Hands out the next task with its position, if one is left and a slot
    /// under the ceiling is free; otherwise changes nothing.
    pub fn start_next(&mut self) -> (r: Option<(usize, CredentialTask)>)
        requires
            old(self).wf(),
        ensures
            final(self).wf(),
            final(self).spec_tasks() == old(self).spec_tasks(),
            final(self).spec_limit() == old(self).spec_limit(),
            final(self).spec_slots() == old(self).spec_slots(),
            final(self).spec_in_flight() <= final(self).spec_limit(),
            r is Some <==> old(self).spec_started() < old(self).spec_tasks().len()
                && old(self).spec_in_flight() < old(self).spec_limit(),
            r matches Some((k, t)) ==> {
                &&& k == old(self).spec_started()
                &&& t.host@ == old(self).spec_tasks()[k as int].host@
                &&& t.user@ == old(self).spec_tasks()[k as int].user@
                &&& final(self).spec_started() == old(self).spec_started() + 1
                &&& final(self).spec_in_flight() == old(self).spec_in_flight() + 1
            },
            r is None ==> *final(self) == *old(self),
    {
        if self.next < self.tasks.len() && self.in_flight < self.limit {
            let k = self.next;
            let t = self.tasks[k].duplicate();
            self.next = k + 1;
            self.in_flight = self.in_flight + 1;
            Some((k, t))
        } else {
            None
        }
    }

    /// Records the outcome of the task at position `index`. It is taken only
    /// for a task that was handed out and has no outcome yet, and only when it
    /// names that task's host and user; otherwise nothing changes.
    pub fn complete(&mut self, index: usize, outcome: TaskOutcome) -> (accepted: bool)
        requires
            old(self).wf(),
        ensures
            final(self).wf(),
            final(self).spec_tasks() == old(self).spec_tasks(),
            final(self).spec_limit() == old(self).spec_limit(),
            final(self).spec_started() == old(self).spec_started(),
            accepted <==> index < old(self).spec_started() && old(self).spec_slots()[index as int] is None
                && outcome.is_for(old(self).spec_tasks()[index as int]),
            accepted ==> final(self).spec_slots() == old(self).spec_slots().update(
                index as int,
                Some(outcome),
            ) && final(self).spec_in_flight() + 1 == old(self).spec_in_flight(),
            !accepted ==> *final(self) == *old(self),
    {
        if index >= self.next {
            return false;
        }
        if self.slots[index].is_some() {
            return false;
        }
        if *outcome.host() != self.tasks[index].host || *outcome.user() != self.tasks[index].user {
            return false;
        }
        proof {
            lemma_pending_after_fill(self.slots@, index as int, outcome, self.next as int);
        }
        self.slots.set(index, Some(outcome));
        self.in_flight = self.in_flight - 1;
        true
    }

    /// The outcomes recorded, in the order of the tasks; once the run is
    /// finished, exactly one for each task.
    pub fn into_outcomes(self) -> (r: Vec<TaskOutcome>)
        requires
            self.wf(),
        ensures
            r@ == recorded(self.spec_slots()),
            self.spec_finished() ==> r@.len() == self.spec_tasks().len(),
            self.spec_finished() ==> forall|i: int|
                0 <= i < r@.len() ==> self.spec_slots()[i] == Some(#[trigger] r@[i]) && r@[i].is_for(
                    self.spec_tasks()[i],
                ),
    {
        let ghost all = self.slots@;
        proof {
            if self.spec_finished() {
                lemma_none_pending_all_filled(all, self.next as int);
                lemma_recorded_all_filled(all);
            }
        }
        let mut slots = self.slots;
        let mut r: Vec<TaskOutcome> = Vec::new();
        let ghost mut n: int = 0;
        assert(all.skip(0) =~= all);
        while slots.len() > 0
            invariant
                0 <= n <= all.len(),
                n + slots@.len() == all.len(),
                slots@ == all.skip(n),
                r@ == recorded(all.take(n)),
            decreases slots@.len(),
        {
            assert(all.take(n + 1).drop_last() =~= all.take(n));
            assert(all.take(n + 1).last() == all[n]);
            match slots.remove(0) {
                Some(o) => {
                    r.push(o);
                },
                None => {},
            }
            proof {
                n = n + 1;
            }
            assert(slots@ =~= all.skip(n));
        }
        assert(all.take(n) =~= all);
        r
    }
}

/// The outcomes present in `slots`, in order.
pub open spec fn recorded(slots: Seq<Option<TaskOutcome>>) -> Seq<TaskOutcome>
    decreases slots.len(),
{
    if slots.len() == 0 {
        Seq::empty()
    } else {
        match slots.last() {
            Some(o) => recorded(slots.drop_last()).push(o),
            None => recorded(slots.drop_last()),
        }
    }
}

proof fn lemma_recorded_all_filled(slots: Seq<Option<TaskOutcome>>)
    requires
        forall|i: int| 0 <= i < slots.len() ==> (#[trigger] slots[i]) is Some,
    ensures
        recorded(slots).len() == slots.len(),
        forall|i: int| 0 <= i < slots.len() ==> slots[i] == Some(#[trigger] recorded(slots)[i]),
    decreases slots.len(),
{
    if slots.len() > 0 {
        let rest = slots.drop_last();
        assert forall|i: int| 0 <= i < rest.len() implies (#[trigger] rest[i]) is Some by {
            assert(rest[i] == slots[i]);
        }
        lemma_recorded_all_filled(rest);
        assert(slots[slots.len() - 1] is Some);
    }
}

/// Number of successful outcomes in `s`.
pub open spec fn count_successes(s: Seq<TaskOutcome>) -> nat
    decreases s.len(),
{
    if s.len() == 0 {
        0
    } else {
        count_successes(s.drop_last()) + if s.last() is Success {
            1nat
        } else {
            0nat
        }
    }
}

/// Counts the outcomes: `(successes, failures)`.
pub fn tally(outcomes: &Vec<TaskOutcome>) -> (r: (usize, usize))
    ensures
        r.0 == count_successes(outcomes@),
        r.0 + r.1 == outcomes@.len(),
{
    let mut successes: usize = 0;
    let mut failures: usize = 0;
    let mut i: usize = 0;
    while i < outcomes.len()
        invariant
            i <= outcomes@.len(),
            successes == count_successes(outcomes@.take(i as int)),
            successes + failures == i,
        decreases outcomes@.len() - i,
    {
        assert(outcomes@.take(i + 1).drop_last() =~= outcomes@.take(i as int));
        if outcomes[i].is_success() {
            successes = successes + 1;
        } else {
            failures = failures + 1;
        }
        i = i + 1;
    }
    assert(outcomes@.take(i as int) =~= outcomes@);
    (successes, failures)
}

/// The hosts found reachable, in the order of `results`.
pub open spec fn reachable_hosts(results: Seq<(String, bool)>) -> Seq<Seq<char>>
    decreases results.len(),
{
    if results.len() == 0 {
        Seq::empty()
    } else if results.last().1 {
        reachable_hosts(results.drop_last()).push(results.last().0@)
    } else {
        reachable_hosts(results.drop_last())
    }
}

/// Keeps the hosts whose probe answered, dropping the others.
pub fn filter_reachable(results: Vec<(String, bool)>) -> (r: Vec<String>)
    ensures
        r@.map_values(|h: String| h@) == reachable_hosts(results@),
{
    let ghost all = results@;
    let total = results.len();
    let mut rest = results;
    let mut r: Vec<String> = Vec::new();
    let mut i: usize = 0;
    while rest.len() > 0
        invariant
            i + rest@.len() == all.len(),
            total == all.len(),
            rest@ == all.skip(i as int),
            r@.map_values(|h: String| h@) == reachable_hosts(all.take(i as int)),
        decreases rest@.len(),
    {
        let (host, ok) = rest.remove(0);
        assert(all.take(i + 1).drop_last() =~= all.take(i as int));
        assert(all[i as int] == (host, ok));
        let ghost before = r@;
        if ok {
            r.push(host);
            assert(r@.map_values(|h: String| h@) =~= before.map_values(|h: String| h@).push(host@));
        }
        i = i + 1;
        assert(rest@ =~= all.skip(i as int));
    }
    assert(all.take(i as int) =~= all);
    r
}

/// Every task of a finished run has its outcome: a finished orchestrator over
/// `hosts × users` yields `|hosts| × |users|` outcomes, and each (host, user)
/// pair has an outcome at its own position.
pub proof fn lemma_every_pair_has_outcome(
    o: Orchestrator,
    hosts: Seq<String>,
    users: Seq<String>,
)
    requires
        o.wf(),
        o.spec_finished(),
        is_cross_product(o.spec_tasks(), hosts, users),
    ensures
        forall|k: int| 0 <= k < hosts.len() * users.len() ==> #[trigger] o.spec_slots()[k] is Some,
        forall|k: int|
            0 <= k < hosts.len() * users.len() ==> ((#[trigger] o.spec_slots()[k]) matches Some(out)
                && out.spec_host() == hosts[k / users.len() as int]@ && out.spec_user()
                == users[k % users.len() as int]@),
{
    lemma_none_pending_all_filled(o.slots@, o.next as int);
}

/// The ceiling holds in every state: never more tasks in flight than the limit.
pub proof fn lemma_ceiling(o: Orchestrator)
    requires
        o.wf(),
    ensures
        o.spec_in_flight() <= o.spec_limit(),
{
}

} // verus!
