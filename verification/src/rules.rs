//! What a task's trigger rule decides within a run, over the statuses
//! that its upstreams have there.

use crate::backend::{Backend, RunRecord};
use crate::status::{
    all_are, all_terminal, any_ended_otherwise, any_is, decide, is_terminal, rule_decision,
    Decision, TaskStatus, TriggerRule,
};
use vstd::prelude::*;

verus! {

pub open spec fn upstreams_all_are(run: RunRecord, task: usize, want: TaskStatus) -> bool {
    forall|up: usize| #[trigger] run.is_upstream(up, task) ==> run.tasks[up as int].status == want
}

pub open spec fn upstreams_all_terminal(run: RunRecord, task: usize) -> bool {
    forall|up: usize| #[trigger]
        run.is_upstream(up, task) ==> is_terminal(run.tasks[up as int].status)
}

pub open spec fn upstreams_any_is(run: RunRecord, task: usize, want: TaskStatus) -> bool {
    exists|up: usize| #[trigger] run.is_upstream(up, task) && run.tasks[up as int].status == want
}

pub open spec fn upstreams_any_ended_otherwise(run: RunRecord, task: usize,
    want: TaskStatus) -> bool {
    exists|up: usize| #[trigger]
        run.is_upstream(up, task) && is_terminal(run.tasks[up as int].status)
            && run.tasks[up as int].status != want
}

/// The task's rule holds of the statuses of its upstreams.
#[verifier::opaque]
pub open spec fn run_satisfied(run: RunRecord, task: usize) -> bool {
    match run.tasks[task as int].task.options.trigger_rule {
        TriggerRule::AllSuccess => upstreams_all_are(run, task, TaskStatus::Success),
        TriggerRule::AllFailed => upstreams_all_are(run, task, TaskStatus::Failure),
        TriggerRule::AllDone => upstreams_all_terminal(run, task),
        TriggerRule::AnySuccess => upstreams_any_is(run, task, TaskStatus::Success)
            && upstreams_all_terminal(run, task),
        TriggerRule::AnyFailed => upstreams_any_is(run, task, TaskStatus::Failure)
            && upstreams_all_terminal(run, task),
    }
}

/// The upstreams that have ended rule out that the task's rule ever holds.
#[verifier::opaque]
pub open spec fn run_unsatisfiable(run: RunRecord, task: usize) -> bool {
    match run.tasks[task as int].task.options.trigger_rule {
        TriggerRule::AllSuccess => upstreams_any_ended_otherwise(run, task, TaskStatus::Success),
        TriggerRule::AllFailed => upstreams_any_ended_otherwise(run, task, TaskStatus::Failure),
        TriggerRule::AllDone => false,
        TriggerRule::AnySuccess => upstreams_all_terminal(run, task) && !upstreams_any_is(
            run,
            task,
            TaskStatus::Success,
        ),
        TriggerRule::AnyFailed => upstreams_all_terminal(run, task) && !upstreams_any_is(
            run,
            task,
            TaskStatus::Failure,
        ),
    }
}

/// What the task's rule decides in the run as it stands.
pub open spec fn run_decision(run: RunRecord, task: usize) -> Decision {
    if run_satisfied(run, task) {
        Decision::Fire
    } else if run_unsatisfiable(run, task) {
        Decision::Skip
    } else {
        Decision::Wait
    }
}

/// `statuses` holds, place by place, the statuses of the tasks of `ups`.
pub open spec fn statuses_of(run: RunRecord, ups: Seq<usize>, statuses: Seq<TaskStatus>) -> bool {
    &&& statuses.len() == ups.len()
    &&& forall|i: int| 0 <= i < ups.len()
        ==> #[trigger] statuses[i] == run.tasks[ups[i] as int].status
}

/// Over a list of the upstreams of a task, the rule decides what it decides
/// in the run.
pub proof fn lemma_decision_over_list(
    run: RunRecord,
    task: usize,
    ups: Seq<usize>,
    statuses: Seq<TaskStatus>,
)
    requires
        forall|up: usize| ups.contains(up) <==> run.is_upstream(up, task),
        statuses_of(run, ups, statuses),
    ensures
        rule_decision(run.tasks[task as int].task.options.trigger_rule, statuses) == run_decision(
            run,
            task,
        ),
{
    reveal(run_satisfied);
    reveal(run_unsatisfiable);
    assert forall|w: TaskStatus| all_are(statuses, w) == upstreams_all_are(run, task, w) by {
        if all_are(statuses, w) {
            assert forall|up: usize| #[trigger] run.is_upstream(up, task) implies
                run.tasks[up as int].status == w by {
                assert(ups.contains(up));
                let i = choose|i: int| 0 <= i < ups.len() && ups[i] == up;
                assert(statuses[i] == w);
            }
        }
        if upstreams_all_are(run, task, w) {
            assert forall|i: int| 0 <= i < statuses.len() implies #[trigger] statuses[i] == w by {
                assert(ups.contains(ups[i]));
                assert(run.is_upstream(ups[i], task));
            }
        }
    }
    assert(all_terminal(statuses) == upstreams_all_terminal(run, task)) by {
        if all_terminal(statuses) {
            assert forall|up: usize| #[trigger] run.is_upstream(up, task) implies
                is_terminal(run.tasks[up as int].status) by {
                assert(ups.contains(up));
                let i = choose|i: int| 0 <= i < ups.len() && ups[i] == up;
                assert(is_terminal(statuses[i]));
            }
        }
        if upstreams_all_terminal(run, task) {
            assert forall|i: int| 0 <= i < statuses.len() implies
                is_terminal(#[trigger] statuses[i]) by {
                assert(ups.contains(ups[i]));
                assert(run.is_upstream(ups[i], task));
            }
        }
    }
    assert forall|w: TaskStatus| any_is(statuses, w) == upstreams_any_is(run, task, w) by {
        if any_is(statuses, w) {
            let i = choose|i: int| 0 <= i < statuses.len() && #[trigger] statuses[i] == w;
            assert(ups.contains(ups[i]));
            assert(run.is_upstream(ups[i], task));
        }
        if upstreams_any_is(run, task, w) {
            let up = choose|up: usize| #[trigger] run.is_upstream(up, task)
                && run.tasks[up as int].status == w;
            assert(ups.contains(up));
            let i = choose|i: int| 0 <= i < ups.len() && ups[i] == up;
            assert(statuses[i] == w);
        }
    }
    assert forall|w: TaskStatus| any_ended_otherwise(statuses, w)
        == upstreams_any_ended_otherwise(run, task, w) by {
        if any_ended_otherwise(statuses, w) {
            let i = choose|i: int| 0 <= i < statuses.len()
                && is_terminal(#[trigger] statuses[i]) && statuses[i] != w;
            assert(ups.contains(ups[i]));
            assert(run.is_upstream(ups[i], task));
        }
        if upstreams_any_ended_otherwise(run, task, w) {
            let up = choose|up: usize| #[trigger] run.is_upstream(up, task)
                && is_terminal(run.tasks[up as int].status) && run.tasks[up as int].status != w;
            assert(ups.contains(up));
            let i = choose|i: int| 0 <= i < ups.len() && ups[i] == up;
            assert(is_terminal(statuses[i]) && statuses[i] != w);
        }
    }
}

/// Two runs in which the upstreams of a task are the same, with statuses
/// that have ended in the same way or not at all, decide the same of it.
pub proof fn lemma_decision_kept(before: RunRecord, after: RunRecord, task: usize)
    requires
        before.tasks[task as int].task.options.trigger_rule
            == after.tasks[task as int].task.options.trigger_rule,
        forall|up: usize| before.is_upstream(up, task) == after.is_upstream(up, task),
        forall|up: usize| #[trigger]
            before.is_upstream(up, task) ==> {
                let b = before.tasks[up as int].status;
                let a = after.tasks[up as int].status;
                a == b || (!is_terminal(a) && !is_terminal(b))
            },
    ensures
        run_decision(after, task) == run_decision(before, task),
        run_satisfied(after, task) == run_satisfied(before, task),
        run_unsatisfiable(after, task) == run_unsatisfiable(before, task),
{
    reveal(run_satisfied);
    reveal(run_unsatisfiable);
    assert forall|w: TaskStatus| is_terminal(w) implies
        upstreams_all_are(before, task, w) == upstreams_all_are(after, task, w) by {
        if upstreams_all_are(before, task, w) {
            assert forall|up: usize| #[trigger] after.is_upstream(up, task) implies
                after.tasks[up as int].status == w by {
                assert(before.is_upstream(up, task));
            }
        }
        if upstreams_all_are(after, task, w) {
            assert forall|up: usize| #[trigger] before.is_upstream(up, task) implies
                before.tasks[up as int].status == w by {
                assert(after.is_upstream(up, task));
            }
        }
    }
    assert(upstreams_all_terminal(before, task) == upstreams_all_terminal(after, task)) by {
        if upstreams_all_terminal(before, task) {
            assert forall|up: usize| #[trigger] after.is_upstream(up, task) implies
                is_terminal(after.tasks[up as int].status) by {
                assert(before.is_upstream(up, task));
            }
        }
        if upstreams_all_terminal(after, task) {
            assert forall|up: usize| #[trigger] before.is_upstream(up, task) implies
                is_terminal(before.tasks[up as int].status) by {
                assert(after.is_upstream(up, task));
            }
        }
    }
    assert forall|w: TaskStatus| is_terminal(w) implies
        upstreams_any_is(before, task, w) == upstreams_any_is(after, task, w) by {
        if upstreams_any_is(before, task, w) {
            let up = choose|up: usize| #[trigger] before.is_upstream(up, task)
                && before.tasks[up as int].status == w;
            assert(after.is_upstream(up, task));
        }
        if upstreams_any_is(after, task, w) {
            let up = choose|up: usize| #[trigger] after.is_upstream(up, task)
                && after.tasks[up as int].status == w;
            assert(before.is_upstream(up, task));
        }
    }
    assert forall|w: TaskStatus| upstreams_any_ended_otherwise(before, task, w)
        == upstreams_any_ended_otherwise(after, task, w) by {
        if upstreams_any_ended_otherwise(before, task, w) {
            let up = choose|up: usize| #[trigger] before.is_upstream(up, task)
                && is_terminal(before.tasks[up as int].status)
                && before.tasks[up as int].status != w;
            assert(after.is_upstream(up, task));
        }
        if upstreams_any_ended_otherwise(after, task, w) {
            let up = choose|up: usize| #[trigger] after.is_upstream(up, task)
                && is_terminal(after.tasks[up as int].status) && after.tasks[up as int].status != w;
            assert(before.is_upstream(up, task));
        }
    }
}

/// What a rule has decided stays decided while the upstreams that have ended
/// stay as they are.
pub proof fn lemma_decided_stays(before: RunRecord, after: RunRecord, task: usize)
    requires
        before.tasks[task as int].task.options.trigger_rule
            == after.tasks[task as int].task.options.trigger_rule,
        forall|up: usize| before.is_upstream(up, task) == after.is_upstream(up, task),
        forall|up: usize| #[trigger]
            before.is_upstream(up, task) && is_terminal(before.tasks[up as int].status)
                ==> after.tasks[up as int].status == before.tasks[up as int].status,
        run_decision(before, task) != Decision::Wait,
    ensures
        run_decision(after, task) == run_decision(before, task),
{
    reveal(run_satisfied);
    reveal(run_unsatisfiable);
    let rule = before.tasks[task as int].task.options.trigger_rule;
    if run_decision(before, task) == Decision::Fire {
        lemma_fire_means_upstreams_ended(before, task);
        lemma_decision_kept(before, after, task);
    } else {
        match rule {
            TriggerRule::AllSuccess => {
                let up = choose|up: usize| #[trigger]
                    before.is_upstream(up, task) && is_terminal(before.tasks[up as int].status)
                        && before.tasks[up as int].status != TaskStatus::Success;
                assert(after.is_upstream(up, task));
            },
            TriggerRule::AllFailed => {
                let up = choose|up: usize| #[trigger]
                    before.is_upstream(up, task) && is_terminal(before.tasks[up as int].status)
                        && before.tasks[up as int].status != TaskStatus::Failure;
                assert(after.is_upstream(up, task));
            },
            TriggerRule::AllDone => {},
            TriggerRule::AnySuccess | TriggerRule::AnyFailed => {
                lemma_decision_kept(before, after, task);
            },
        }
    }
}

/// A task that waits for an upstream that has not ended, and whose rule has
/// not decided, goes on so when it is given more upstreams that have not
/// ended.
pub proof fn lemma_more_open_upstreams(before: RunRecord, after: RunRecord, task: usize,
    open: usize)
    requires
        before.tasks[task as int].task.options.trigger_rule
            == after.tasks[task as int].task.options.trigger_rule,
        forall|up: usize| #[trigger]
            before.is_upstream(up, task) ==> after.is_upstream(up, task)
                && after.tasks[up as int].status == before.tasks[up as int].status,
        forall|up: usize| #[trigger]
            after.is_upstream(up, task) && !before.is_upstream(up, task) ==> !is_terminal(
                after.tasks[up as int].status,
            ),
        after.is_upstream(open, task),
        !is_terminal(after.tasks[open as int].status),
        run_decision(before, task) == Decision::Wait,
    ensures
        run_decision(after, task) == Decision::Wait,
{
    reveal(run_satisfied);
    reveal(run_unsatisfiable);
    if run_decision(after, task) == Decision::Fire {
        lemma_fire_means_upstreams_ended(after, task);
        assert(is_terminal(after.tasks[open as int].status));
    }
    if run_unsatisfiable(after, task) {
        match after.tasks[task as int].task.options.trigger_rule {
            TriggerRule::AllSuccess => {
                let up = choose|up: usize| #[trigger]
                    after.is_upstream(up, task) && is_terminal(after.tasks[up as int].status)
                        && after.tasks[up as int].status != TaskStatus::Success;
                assert(before.is_upstream(up, task));
            },
            TriggerRule::AllFailed => {
                let up = choose|up: usize| #[trigger]
                    after.is_upstream(up, task) && is_terminal(after.tasks[up as int].status)
                        && after.tasks[up as int].status != TaskStatus::Failure;
                assert(before.is_upstream(up, task));
            },
            TriggerRule::AllDone => {},
            TriggerRule::AnySuccess | TriggerRule::AnyFailed => {
                assert(is_terminal(after.tasks[open as int].status));
            },
        }
    }
}

/// A task fires only when all its upstreams have ended.
pub proof fn lemma_fire_means_upstreams_ended(run: RunRecord, task: usize)
    requires
        run_decision(run, task) == Decision::Fire,
    ensures
        upstreams_all_terminal(run, task),
{
    reveal(run_satisfied);
    reveal(run_unsatisfiable);
    assert forall|up: usize| #[trigger] run.is_upstream(up, task) implies
        is_terminal(run.tasks[up as int].status) by {
        match run.tasks[task as int].task.options.trigger_rule {
            TriggerRule::AllSuccess => {
                assert(run.tasks[up as int].status == TaskStatus::Success);
            },
            TriggerRule::AllFailed => {
                assert(run.tasks[up as int].status == TaskStatus::Failure);
            },
            _ => {},
        }
    }
}

/// Evaluates the trigger rule of a task against the statuses that its
/// upstreams have in the run.
pub fn trigger_decision<B: Backend>(backend: &B, run_id: usize, task_id: usize) -> (d: Decision)
    requires
        backend.inv(),
        backend.state().has_task(run_id, task_id),
    ensures
        d == run_decision(backend.state().runs[run_id as int], task_id),
{
    proof {
        backend.lemma_inv_gives_wf();
    }
    let task = backend.get_task_by_id(run_id, task_id);
    let ups = backend.get_upstream(run_id, task_id);
    let ghost run = backend.state().runs[run_id as int];
    let mut statuses: Vec<TaskStatus> = Vec::new();
    let mut i: usize = 0;
    while i < ups.len()
        invariant
            i <= ups.len(),
            backend.inv(),
            backend.state().has_run(run_id),
            run == backend.state().runs[run_id as int],
            run.wf(),
            forall|up: usize| ups@.contains(up) <==> run.is_upstream(up, task_id),
            statuses_of(run, ups@.subrange(0, i as int), statuses@),
        decreases ups.len() - i,
    {
        proof {
            assert(ups@.contains(ups@[i as int]));
            assert(run.edges.contains((ups@[i as int], task_id)));
        }
        let s = backend.get_task_status(run_id, ups[i]);
        statuses.push(s);
        proof {
            let before = ups@.subrange(0, i as int);
            let after = ups@.subrange(0, i + 1);
            assert forall|k: int| 0 <= k < after.len() implies
                #[trigger] statuses@[k] == run.tasks[after[k] as int].status by {
                if k < i {
                    assert(after[k] == before[k]);
                }
            }
        }
        i += 1;
    }
    proof {
        assert(ups@.subrange(0, i as int) =~= ups@);
        lemma_decision_over_list(run, task_id, ups@, statuses@);
    }
    decide(task.options.trigger_rule, &statuses)
}

} // verus!
