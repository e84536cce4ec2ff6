//! What holds of every state that the engine reaches, stated for itself.

use crate::backend::{BackendState, RunRecord};
use crate::engine::{attempt_count, engine_inv, queues_ok, record_ok, run_steady, started};
use crate::engine::run_settled;
use crate::expand::expanded_run;
use crate::graph::{acyclic, ranked};
use crate::json::JsonValue;
use crate::report::{handled, lemma_handled_frame, outcome_of, report_expected, Outcome};
use crate::rules::{run_decision, upstreams_all_terminal};
use crate::settle::{settled, task_settling, tasks_settling};
use crate::status::{is_terminal, TaskStatus};
use crate::status::Decision;
use crate::task::{QueuedTaskView, TaskResultView};
use vstd::prelude::*;

verus! {

/// Of no task are more results recorded than it has attempts.
pub proof fn lemma_attempts_bounded(state: BackendState, run: usize, task: usize)
    requires
        engine_inv(state),
        state.has_task(run, task),
    ensures
        state.record(run, task).results.len() <= state.record(run, task).task.options.max_attempts,
        attempt_count(state.record(run, task)) <= state.record(run, task).task.options.max_attempts,
{
    reveal(run_steady);
    assert(run_steady(state.runs[run as int]));
    assert(record_ok(state.runs[run as int].tasks[task as int]));
}

/// The edges of a run have no cycle.
pub proof fn lemma_run_has_no_cycle(state: BackendState, run: usize)
    requires
        engine_inv(state),
        state.has_run(run),
    ensures
        acyclic(state.runs[run as int].edges),
{
    reveal(run_steady);
    assert(run_steady(state.runs[run as int]));
}

/// Every result that is recorded for a task carries the id of that task and
/// the number of one of the attempts that the task has.
pub proof fn lemma_results_are_of_task(state: BackendState, run: usize, task: usize, i: int)
    requires
        engine_inv(state),
        state.has_task(run, task),
        0 <= i < state.record(run, task).results.len(),
    ensures
        state.record(run, task).results[i].task_id == task,
        1 <= state.record(run, task).results[i].attempt <= state.record(
            run,
            task,
        ).task.options.max_attempts,
{
    reveal(run_steady);
    assert(run_steady(state.runs[run as int]));
    assert(record_ok(state.runs[run as int].tasks[task as int]));
    assert(state.runs[run as int].wf());
}

/// Of no task are two attempts in flight at a time, and a task with an
/// attempt in flight is Running.
pub proof fn lemma_one_attempt_in_flight(state: BackendState, p: QueuedTaskView, q: QueuedTaskView)
    requires
        engine_inv(state),
        state.in_flight.contains(p),
        state.in_flight.contains(q),
        p.run_id == q.run_id,
        p.task_id == q.task_id,
    ensures
        p == q,
        state.status(p.run_id, p.task_id) == TaskStatus::Running,
{
    reveal(queues_ok);
}

/// No task is in the queue and Running at once: a task with an entry in the
/// queue is Queued, Retrying or Skipped, and has no attempt in flight.
pub proof fn lemma_queued_is_not_running(state: BackendState, i: int, q: QueuedTaskView)
    requires
        engine_inv(state),
        0 <= i < state.queue.len(),
        q.run_id == state.queue[i].queued_task.run_id,
        q.task_id == state.queue[i].queued_task.task_id,
    ensures
        state.status(q.run_id, q.task_id) != TaskStatus::Running,
        !state.in_flight.contains(q),
{
    reveal(queues_ok);
}

/// A task that was put into the queue at some time has upstreams that have
/// all ended: no task is started before its upstreams are done.
pub proof fn lemma_started_after_upstreams(state: BackendState, run: usize, up: usize, down: usize)
    requires
        engine_inv(state),
        state.has_run(run),
        state.runs[run as int].is_upstream(up, down),
        started(state.record(run, down)),
    ensures
        is_terminal(state.status(run, up)),
{
    reveal(run_steady);
    let r = state.runs[run as int];
    assert(run_steady(r));
    assert(r.edges.contains((up, down)));
    assert(upstreams_all_terminal(r, down));
}

/// Along every edge of the run, every recorded attempt of the upstream ended
/// no later than any recorded attempt of the downstream started.
pub open spec fn results_ordered(run: RunRecord) -> bool {
    forall|up: usize, down: usize, i: int, j: int|
        #![trigger run.tasks[up as int].results[i], run.tasks[down as int].results[j]]
        run.is_upstream(up, down) && 0 <= i < run.tasks[up as int].results.len() && 0 <= j
            < run.tasks[down as int].results.len() ==> run.tasks[up as int].results[i].ended
            <= run.tasks[down as int].results[j].started
}

/// The attempt that the result reports started no earlier than any recorded
/// attempt of an upstream of its task ended.
pub open spec fn starts_after_upstreams(run: RunRecord, result: TaskResultView) -> bool {
    forall|up: usize, i: int|
        #![trigger run.tasks[up as int].results[i]]
        run.is_upstream(up, result.task_id) && 0 <= i < run.tasks[up as int].results.len()
            ==> run.tasks[up as int].results[i].ended <= result.started
}

/// Taking in a result keeps the results in the order of the edges, given
/// that the reported attempt did not start before its upstreams had ended: a
/// downstream of the task cannot have a result yet, since the task had not
/// ended.
pub proof fn lemma_report_keeps_order(
    before: BackendState,
    after: BackendState,
    run: usize,
    result: TaskResultView,
    queued: QueuedTaskView,
    now: i64,
    outcome: Outcome,
)
    requires
        engine_inv(before),
        before.has_run(run),
        outcome == outcome_of(before, run, result, queued),
        handled(before, after, run, result, queued, now, outcome),
        results_ordered(before.runs[run as int]),
        starts_after_upstreams(before.runs[run as int], result),
    ensures
        results_ordered(after.runs[run as int]),
{
    let old_run = before.runs[run as int];
    let new_run = after.runs[run as int];
    if report_expected(before, run, result, queued) {
        lemma_handled_frame(before, after, run, result, queued, now, outcome);
        let task = queued.task_id;
        assert(before.has_task(run, task));
        assert(before.status(run, task) == TaskStatus::Running) by {
            reveal(queues_ok);
        }
        assert(run_steady(old_run));
        assert forall|up: usize, down: usize, i: int, j: int|
            #![trigger new_run.tasks[up as int].results[i], new_run.tasks[down as int].results[j]]
            new_run.is_upstream(up, down) && 0 <= i < new_run.tasks[up as int].results.len() && 0
                <= j < new_run.tasks[down as int].results.len() implies
                    new_run.tasks[up as int].results[i].ended
            <= new_run.tasks[down as int].results[j].started by {
            assert(old_run.edges.contains((up, down)));
            assert(old_run.is_upstream(up, down));
            assert(old_run.wf()) by {
                reveal(run_steady);
            }
            assert(before.has_task(run, up) && before.has_task(run, down));
            assert(after.record(run, up).results == new_run.tasks[up as int].results);
            assert(after.record(run, down).results == new_run.tasks[down as int].results);
            let old_up = old_run.tasks[up as int].results;
            let old_down = old_run.tasks[down as int].results;
            if up == task {
                // a downstream of the task has no result while the task runs
                if old_down.len() > 0 {
                    assert(started(old_run.tasks[down as int]));
                    assert(upstreams_all_terminal(old_run, down)) by {
                        reveal(run_steady);
                    }
                    assert(is_terminal(old_run.tasks[up as int].status));
                }
                if down == task {
                    assert(started(old_run.tasks[down as int]));
                    assert(upstreams_all_terminal(old_run, down)) by {
                        reveal(run_steady);
                    }
                    assert(is_terminal(old_run.tasks[up as int].status));
                }
            } else if down == task {
                assert(new_run.tasks[up as int].results == old_up);
                if j < old_down.len() {
                    assert(old_up[i].ended <= old_down[j].started);
                } else {
                    assert(old_up[i].ended <= result.started);
                }
            } else {
                assert(old_up[i].ended <= old_down[j].started);
            }
        }
    }
}

/// Expanding a task keeps the results in the order of the edges: the
/// children have no results yet.
pub proof fn lemma_expansion_keeps_order(run: RunRecord, task: usize, items: Seq<JsonValue>)
    requires
        run.wf(),
        run.has_task(task),
        results_ordered(run),
    ensures
        results_ordered(expanded_run(run, task, items)),
{
    let grown = expanded_run(run, task, items);
    let n = run.tasks.len();
    assert forall|up: usize, down: usize, i: int, j: int|
        #![trigger grown.tasks[up as int].results[i], grown.tasks[down as int].results[j]]
        grown.is_upstream(up, down) && 0 <= i < grown.tasks[up as int].results.len() && 0 <= j
            < grown.tasks[down as int].results.len() implies grown.tasks[up as int].results[i].ended
        <= grown.tasks[down as int].results[j].started by {
        assert(grown.edges.contains((up, down)));
        if run.edges.contains((up, down)) {
            assert(run.has_task(up) && run.has_task(down));
            assert(run.tasks[up as int].results[i].ended <= run.tasks[down as int].results[j].started);
        } else if up == task {
            assert(down >= n);
        } else {
            assert(up >= n);
            if run.is_upstream(task, down) {
                assert(run.edges.contains((task, down)));
            }
        }
    }
}

/// The second run has the edges of the first and, for every task, the
/// results that the first has.
pub open spec fn keeps_results(a: RunRecord, b: RunRecord) -> bool {
    &&& b.edges == a.edges
    &&& b.tasks.len() == a.tasks.len()
    &&& forall|t: int| 0 <= t < a.tasks.len() ==> (#[trigger] b.tasks[t]).results
        == a.tasks[t].results
}

/// A result was taken in whose attempt did not start before its upstreams
/// had ended.
pub open spec fn report_step(before: BackendState, after: BackendState, run: usize) -> bool {
    exists|result: TaskResultView, queued: QueuedTaskView, now: i64|
        #![trigger handled(before, after, run, result, queued, now, outcome_of(before, run, result, queued))]
        handled(before, after, run, result, queued, now, outcome_of(before, run, result, queued))
            && starts_after_upstreams(before.runs[run as int], result)
}

/// A task of the run was expanded.
pub open spec fn expansion_step(before: BackendState, after: BackendState, run: usize) -> bool {
    exists|task: usize, items: Seq<JsonValue>|
        before.runs[run as int].has_task(task) && after.runs[run as int] == #[trigger] expanded_run(
            before.runs[run as int],
            task,
            items,
        )
}

/// What a step of the engine does to the results of a run: it leaves them
/// and the edges as they are, as taking an attempt from the queue does; or
/// it takes in a result whose attempt did not start before its upstreams had
/// ended; or it expands a task.
pub open spec fn orderly_step(before: BackendState, after: BackendState, run: usize) -> bool {
    ||| keeps_results(before.runs[run as int], after.runs[run as int])
    ||| report_step(before, after, run)
    ||| expansion_step(before, after, run)
}

/// The states of a run through its steps, in each of which what holds
/// between the steps of the engine holds.
pub open spec fn orderly_run(states: Seq<BackendState>, run: usize) -> bool {
    &&& states.len() > 0
    &&& forall|k: int|
        0 <= k < states.len() ==> engine_inv(#[trigger] states[k]) && states[k].has_run(run)
    &&& forall|k: int|
        0 <= k < states.len() - 1 ==> orderly_step(#[trigger] states[k], states[k + 1], run)
}

/// A run in which no result is recorded has its results in the order of the
/// edges.
pub proof fn lemma_no_results_are_ordered(run: RunRecord)
    requires
        forall|t: int| 0 <= t < run.tasks.len() ==> (#[trigger] run.tasks[t]).results.len() == 0,
        run.wf(),
    ensures
        results_ordered(run),
{
    assert forall|up: usize, down: usize, i: int, j: int|
        #![trigger run.tasks[up as int].results[i], run.tasks[down as int].results[j]]
        run.is_upstream(up, down) && 0 <= i < run.tasks[up as int].results.len() && 0 <= j
            < run.tasks[down as int].results.len() implies run.tasks[up as int].results[i].ended
        <= run.tasks[down as int].results[j].started by {
        assert(run.edges.contains((up, down)));
        assert(run.has_task(up));
        assert(run.tasks[up as int].results.len() == 0);
    }
}

/// Through a whole run the results stay in the order of the edges: along
/// every edge, every recorded attempt of the upstream ended no later than any
/// recorded attempt of the downstream started, given that no reported attempt
/// started before the upstreams of its task had ended.
pub proof fn lemma_run_keeps_order(states: Seq<BackendState>, run: usize, k: int)
    requires
        orderly_run(states, run),
        results_ordered(states[0].runs[run as int]),
        0 <= k < states.len(),
    ensures
        results_ordered(states[k].runs[run as int]),
    decreases k,
{
    if k > 0 {
        lemma_run_keeps_order(states, run, k - 1);
        let before = states[k - 1];
        let after = states[k];
        assert(orderly_step(before, after, run));
        let old_run = before.runs[run as int];
        let new_run = after.runs[run as int];
        assert(old_run.wf()) by {
            reveal(run_steady);
            assert(run_steady(old_run));
        }
        if keeps_results(old_run, new_run) {
            assert forall|up: usize, down: usize, i: int, j: int|
                #![trigger new_run.tasks[up as int].results[i], new_run.tasks[down as int].results[j]]
                new_run.is_upstream(up, down) && 0 <= i < new_run.tasks[up as int].results.len()
                    && 0 <= j < new_run.tasks[down as int].results.len() implies
                    new_run.tasks[up as int].results[i].ended
                <= new_run.tasks[down as int].results[j].started by {
                assert(old_run.edges.contains((up, down)));
                assert(old_run.is_upstream(up, down));
                assert(old_run.has_task(up) && old_run.has_task(down));
                assert(new_run.tasks[up as int].results == old_run.tasks[up as int].results);
                assert(new_run.tasks[down as int].results == old_run.tasks[down as int].results);
                assert(old_run.tasks[up as int].results[i].ended
                    <= old_run.tasks[down as int].results[j].started);
            }
        } else if report_step(before, after, run) {
            let (result, queued, now) = choose|
                result: TaskResultView,
                queued: QueuedTaskView,
                now: i64,
            |
                #![trigger handled(before, after, run, result, queued, now, outcome_of(before, run, result, queued))]
                handled(
                    before,
                    after,
                    run,
                    result,
                    queued,
                    now,
                    outcome_of(before, run, result, queued),
                ) && starts_after_upstreams(before.runs[run as int], result);
            lemma_report_keeps_order(
                before,
                after,
                run,
                result,
                queued,
                now,
                outcome_of(before, run, result, queued),
            );
        } else {
            let (task, items) = choose|task: usize, items: Seq<JsonValue>|
                before.runs[run as int].has_task(task) && after.runs[run as int]
                    == #[trigger] expanded_run(before.runs[run as int], task, items);
            lemma_expansion_keeps_order(old_run, task, items);
        }
    }
}

/// When the end of a task has been carried on, every task that waited has
/// been dealt with as its rule decides over the statuses that its upstreams
/// have now: it is Queued exactly when the rule is satisfied, Skipped exactly
/// when the rule has become unsatisfiable, and waits on exactly when the rule
/// has not decided.
pub proof fn lemma_settled_follows_rules(
    before: BackendState,
    after: BackendState,
    run: usize,
    task: usize,
    dag_name: Seq<char>,
    date: i64,
    now: i64,
)
    requires
        before.has_task(run, task),
        before.status(run, task) == TaskStatus::Pending,
        settled(before, after, run, dag_name, date, now),
    ensures
        after.status(run, task) == TaskStatus::Queued
            <==> run_decision(after.runs[run as int], task)
            == Decision::Fire,
        after.status(run, task) == TaskStatus::Skipped <==> run_decision(
            after.runs[run as int],
            task,
        ) == Decision::Skip,
        after.status(run, task) == TaskStatus::Pending <==> run_decision(
            after.runs[run as int],
            task,
        ) == Decision::Wait,
{
    reveal(tasks_settling);
    reveal(run_settled);
    let o = before.runs[run as int].tasks[task as int];
    let n = after.runs[run as int].tasks[task as int];
    assert(task_settling(
        o,
        n,
        run_decision(after.runs[run as int], task),
        crate::settle::settled_depth(o, after.runs[run as int], task),
        before.runs[run as int].depth(task),
    ));
}

/// When a task has ended, every other task that waited and was not passed
/// over by a branch has been dealt with as its rule decides over the
/// statuses that its upstreams have now: it is Queued exactly when the rule
/// is satisfied, under one more than the greatest depth of its upstreams,
/// Skipped exactly when the rule has become unsatisfiable, and waits on
/// exactly when the rule has not decided.
pub proof fn lemma_ended_follows_rules(
    before: BackendState,
    after: BackendState,
    result: TaskResultView,
    queued: QueuedTaskView,
    now: i64,
    task: usize,
)
    requires
        before.has_task(queued.run_id, task),
        task != queued.task_id,
        before.status(queued.run_id, task) == TaskStatus::Pending,
        !(before.record(queued.run_id, queued.task_id).task.is_branch && result.success
            && before.runs[queued.run_id as int].is_upstream(queued.task_id, task)
            && result.branch_chosen != Some(task)),
        before.has_task(queued.run_id, queued.task_id),
        crate::report::ended(before, after, result, queued, now),
    ensures
        after.status(queued.run_id, task) == TaskStatus::Queued <==> run_decision(
            after.runs[queued.run_id as int],
            task,
        ) == Decision::Fire,
        after.status(queued.run_id, task) == TaskStatus::Skipped <==> run_decision(
            after.runs[queued.run_id as int],
            task,
        ) == Decision::Skip,
        after.status(queued.run_id, task) == TaskStatus::Pending <==> run_decision(
            after.runs[queued.run_id as int],
            task,
        ) == Decision::Wait,
        after.status(queued.run_id, task) == TaskStatus::Queued ==> after.record(
            queued.run_id,
            task,
        ).depth == Some(
            crate::settle::settled_depth(
                before.record(queued.run_id, task),
                after.runs[queued.run_id as int],
                task,
            ),
        ),
{
    reveal(crate::report::tasks_ended);
    reveal(run_settled);
    let run = queued.run_id;
    let status = if result.success {
        TaskStatus::Success
    } else {
        TaskStatus::Failure
    };
    let done = crate::report::finished_state(before, queued, result, status);
    let o = done.runs[run as int].tasks[task as int];
    let n = after.runs[run as int].tasks[task as int];
    assert(o == before.record(run, task));
    assert(crate::report::task_ended(
        o,
        n,
        run_decision(after.runs[run as int], task),
        crate::settle::settled_depth(o, after.runs[run as int], task),
        done.runs[run as int].depth(task),
        done.record(run, queued.task_id).task.is_branch && result.success
            && crate::report::passed_over(
            done.runs[run as int],
            queued.task_id,
            result.branch_chosen,
            task as int,
        ),
    ));
}

/// When a task has ended, a task that waited and is skipped for it, by its
/// rule or because a branch passed it over, has the depth cached that it had
/// before: what is cached for it, else one more than the greatest depth of
/// its upstreams.
pub proof fn lemma_ended_caches_depth(
    before: BackendState,
    after: BackendState,
    result: TaskResultView,
    queued: QueuedTaskView,
    now: i64,
    task: usize,
)
    requires
        before.has_task(queued.run_id, task),
        before.has_task(queued.run_id, queued.task_id),
        task != queued.task_id,
        before.status(queued.run_id, task) == TaskStatus::Pending,
        crate::report::ended(before, after, result, queued, now),
        after.status(queued.run_id, task) == TaskStatus::Skipped,
    ensures
        after.record(queued.run_id, task).depth == Some(
            before.runs[queued.run_id as int].depth(task),
        ),
{
    reveal(crate::report::tasks_ended);
    let run = queued.run_id;
    let status = if result.success {
        TaskStatus::Success
    } else {
        TaskStatus::Failure
    };
    let done = crate::report::finished_state(before, queued, result, status);
    let o = done.runs[run as int].tasks[task as int];
    let n = after.runs[run as int].tasks[task as int];
    assert(o == before.record(run, task));
    assert(crate::report::task_ended(
        o,
        n,
        run_decision(after.runs[run as int], task),
        crate::settle::settled_depth(o, after.runs[run as int], task),
        done.runs[run as int].depth(task),
        done.record(run, queued.task_id).task.is_branch && result.success
            && crate::report::passed_over(
            done.runs[run as int],
            queued.task_id,
            result.branch_chosen,
            task as int,
        ),
    ));
    crate::depth::lemma_depths_read(before.runs[run as int], done.runs[run as int]);
    crate::depth::lemma_same_depth(before.runs[run as int], done.runs[run as int], task);
}

/// A status leads on to another by way of the lifecycle of a task: a task
/// waits, is put into the queue, runs, and ends or is to be retried, which
/// puts it into the queue again; it can be skipped as long as it has not
/// ended; and once it has ended it stays as it is.
pub open spec fn leads_to(from: TaskStatus, to: TaskStatus) -> bool {
    from == to || match from {
        TaskStatus::Pending => to == TaskStatus::Queued || to == TaskStatus::Skipped,
        TaskStatus::Queued => to == TaskStatus::Running || to == TaskStatus::Skipped,
        TaskStatus::Running => to == TaskStatus::Retrying || to == TaskStatus::Success || to
            == TaskStatus::Failure || to == TaskStatus::Skipped,
        TaskStatus::Retrying => to == TaskStatus::Running || to == TaskStatus::Skipped,
        TaskStatus::Success | TaskStatus::Failure | TaskStatus::Skipped => false,
    }
}

/// Taking in a result moves every task forward through its lifecycle or
/// leaves it where it is.
pub proof fn lemma_report_moves_forward(
    before: BackendState,
    after: BackendState,
    run: usize,
    result: TaskResultView,
    queued: QueuedTaskView,
    now: i64,
    outcome: Outcome,
    r: usize,
    t: usize,
)
    requires
        engine_inv(before),
        before.has_task(r, t),
        outcome == outcome_of(before, run, result, queued),
        handled(before, after, run, result, queued, now, outcome),
    ensures
        leads_to(before.status(r, t), after.status(r, t)),
{
    if report_expected(before, run, result, queued) {
        lemma_handled_frame(before, after, run, result, queued, now, outcome);
        assert(before.status(run, queued.task_id) == TaskStatus::Running) by {
            reveal(queues_ok);
        }
        if !(r == run && t == queued.task_id) && before.status(r, t) == TaskStatus::Pending {
            match outcome {
                Outcome::Finished { .. } => {
                    reveal(crate::report::tasks_ended);
                    let status = if result.success {
                        TaskStatus::Success
                    } else {
                        TaskStatus::Failure
                    };
                    let done = crate::report::finished_state(before, queued, result, status);
                    if r == run {
                        let o = done.runs[run as int].tasks[t as int];
                        let n = after.runs[run as int].tasks[t as int];
                        assert(crate::report::task_ended(
                            o,
                            n,
                            run_decision(after.runs[run as int], t),
                            crate::settle::settled_depth(o, after.runs[run as int], t),
                            done.runs[run as int].depth(t),
                            done.record(run, queued.task_id).task.is_branch && result.success
                                && crate::report::passed_over(
                                done.runs[run as int],
                                queued.task_id,
                                result.branch_chosen,
                                t as int,
                            ),
                        ));
                    } else {
                        assert(after.runs[r as int] == done.runs[r as int]);
                    }
                },
                _ => {
                    if r != run {
                        assert(after.runs[r as int] == before.runs[r as int]);
                    }
                },
            }
        }
    }
}

/// Expanding a task leaves the edges of its run without a cycle.
pub proof fn lemma_expansion_keeps_acyclic(run: RunRecord, task: usize, items: Seq<JsonValue>)
    requires
        run.wf(),
        run.has_task(task),
        acyclic(run.edges),
    ensures
        acyclic(expanded_run(run, task, items).edges),
{
    let rank = choose|rank: spec_fn(usize) -> nat| ranked(run.edges, rank);
    let n = run.tasks.len();
    let grown = expanded_run(run, task, items);
    // the tasks that were there are spread out, and the children stand right
    // above the expanded task
    let spread = |x: usize|
        if x < n {
            2 * rank(x)
        } else {
            2 * rank(task) + 1
        };
    assert forall|e: (usize, usize)| #[trigger] grown.edges.contains(e) implies
        spread(e.0) < spread(
        e.1,
    ) by {
        if run.edges.contains(e) {
            assert(run.has_task(e.0) && run.has_task(e.1));
        } else if e.0 == task && n <= e.1 {
        } else {
            assert(run.edges.contains((task, e.1)));
            assert(run.has_task(e.1));
        }
    }
    assert(ranked(grown.edges, spread));
}

} // verus!
