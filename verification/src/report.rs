//! Taking in what an attempt came to: the result is recorded, and the task
//! is polled again, retried, or ended and its end carried on.

use crate::backend::{Backend, BackendState, RunRecord, TaskRecord};
use crate::engine::{
    attempt_count, ended_upstreams_cached, engine_inv, engine_steady, lemma_cached_kept, lemma_not_queued,
    lemma_steady_record, queue_entry, queue_gained, queues_ok, record_ok, result_ok, run_settled,
    run_steady,
    skip, skipped_record, started, with_attempt_count,
};
use crate::depth::{
    lemma_depth_cached, lemma_depths_read, lemma_same_depth, lemma_same_depths_chain, same_depths,
};
use crate::graph::acyclic;
use crate::json::truthy;
use crate::lists::lemma_pushed_contains;
use crate::rules::{lemma_decision_kept, run_decision, upstreams_all_terminal};
use crate::settle::{
    covered, frame_kept, lemma_cover_ended, lemma_settled_covered, newly_queued, queue_settling,
    settle, settled, settled_depth, task_settling, tasks_settling, upstreams_cached,
};
use crate::status::{is_terminal, Decision, TaskStatus};
use crate::task::{OrderedQueuedTaskView, QueuedTask, QueuedTaskView, TaskResult, TaskResultView};
use vstd::prelude::*;

verus! {

/// What the engine made of a reported result.
#[derive(Clone, Copy, Debug, PartialEq, Eq)]
pub enum Outcome {
    /// The report was of no attempt in flight; nothing was changed.
    Ignored,
    /// A sensor has not yet seen what it waits for: the same attempt is in
    /// the queue again, due when the delay has passed.
    Polling { delay: u64 },
    /// The attempt failed and another one is in the queue, due when the delay
    /// has passed.
    Retrying { attempt: usize, delay: u64 },
    /// The task has ended with this status.
    Finished { status: TaskStatus },
}

/// The report is of an attempt that is in flight, and says so.
pub open spec fn report_expected(
    state: BackendState,
    run: usize,
    result: TaskResultView,
    queued: QueuedTaskView,
) -> bool {
    &&& state.in_flight.contains(queued)
    &&& queued.run_id == run
    &&& queued.task_id == result.task_id
    &&& queued.attempt == result.attempt
}

/// What is to be made of a reported result.
pub open spec fn outcome_of(
    state: BackendState,
    run: usize,
    result: TaskResultView,
    queued: QueuedTaskView,
) -> Outcome {
    let options = state.record(run, queued.task_id).task.options;
    if !report_expected(state, run, result, queued) {
        Outcome::Ignored
    } else if options.is_sensor && result.success && !truthy(result.result) {
        Outcome::Polling { delay: options.retry_delay }
    } else if !result.success && queued.attempt < options.max_attempts {
        Outcome::Retrying { attempt: (queued.attempt + 1) as usize, delay: options.retry_delay }
    } else if result.success {
        Outcome::Finished { status: TaskStatus::Success }
    } else {
        Outcome::Finished { status: TaskStatus::Failure }
    }
}

/// The time at which an attempt is due that is put off by `delay` at the
/// time `now`: the latest time there is where the sum is none.
pub open spec fn due_time(now: i64, delay: u64) -> i64 {
    if now + delay <= i64::MAX {
        (now + delay) as i64
    } else {
        i64::MAX
    }
}

/// The time at which an attempt is due that is put off by `delay`.
pub fn due_at(now: i64, delay: u64) -> (r: i64)
    ensures
        r == due_time(now, delay),
{
    if now < 0 {
        if delay <= i64::MAX as u64 {
            now + delay as i64
        } else if delay - (i64::MAX as u64) <= i64::MAX as u64 {
            let rest: i64 = (delay - i64::MAX as u64) as i64;
            let sum: i64 = now + i64::MAX;
            if sum <= i64::MAX - rest {
                sum + rest
            } else {
                i64::MAX
            }
        } else {
            i64::MAX
        }
    } else if delay <= (i64::MAX - now) as u64 {
        now + delay as i64
    } else {
        i64::MAX
    }
}

/// The record of a task that is put into the queue again: with the result
/// recorded and the next attempt number given where a result is handed in.
pub open spec fn requeued_record(old_rec: TaskRecord, depth: usize,
    result: Option<TaskResultView>) -> TaskRecord {
    match result {
        Some(r) => TaskRecord {
            status: TaskStatus::Retrying,
            depth: Some(depth),
            results: old_rec.results.push(r),
            ..with_attempt_count(old_rec, (attempt_count(old_rec) + 1) as usize)
        },
        None => TaskRecord { status: TaskStatus::Retrying, depth: Some(depth), ..old_rec },
    }
}

/// `after` is `before` once the task of the attempt `queued`, which was in
/// flight, has been put into the queue again, with its attempt due at `due`.
pub open spec fn requeued(
    before: BackendState,
    after: BackendState,
    queued: QueuedTaskView,
    result: Option<TaskResultView>,
    due: i64,
) -> bool {
    let run = queued.run_id;
    let task = queued.task_id;
    let depth = before.runs[run as int].depth(task);
    let new_rec = requeued_record(before.record(run, task), depth, result);
    &&& after == before.with_record(run, task, new_rec).with_in_flight(
        before.in_flight.remove(queued),
    ).with_queue(after.queue)
    &&& queue_gained(
        before.queue,
        after.queue,
        queue_entry(
            depth,
            run,
            task,
            queued.dag_name,
            queued.scheduled_date_for_dag_run,
            attempt_count(new_rec),
            due,
        ),
    )
}

/// A change to the record of one task that leaves the task itself, its
/// results' bound and whether it has ended as they were keeps every run
/// steady and settled.
pub proof fn lemma_runs_kept_steady(before: BackendState, after: BackendState, run: usize,
    task: usize)
    requires
        engine_inv(before),
        before.has_task(run, task),
        after.runs == before.with_record(run, task, after.record(run, task)).runs,
        after.record(run, task).task == before.record(run, task).task,
        record_ok(after.record(run, task)),
        started(before.record(run, task)),
        !is_terminal(before.record(run, task).status),
        before.record(run, task).status != TaskStatus::Pending,
        after.record(run, task).status != TaskStatus::Pending,
        !is_terminal(after.record(run, task).status),
    ensures
        forall|r: int| 0 <= r < after.runs.len() ==> run_steady(#[trigger] after.runs[r]),
        forall|r: int| 0 <= r < after.runs.len() ==> run_settled(#[trigger] after.runs[r]),
{
    reveal(run_steady);
    reveal(run_settled);
    let old_run = before.runs[run as int];
    let new_run = after.runs[run as int];
    assert(run_steady(old_run));
    assert(run_settled(old_run));
    assert(new_run.tasks[task as int] == after.record(run, task));
    assert forall|t: usize| t < old_run.tasks.len() implies
        run_decision(new_run, t) == run_decision(old_run, t) by {
        assert forall|up: usize| #[trigger] old_run.is_upstream(up, t) implies {
            let b = old_run.tasks[up as int].status;
            let a = new_run.tasks[up as int].status;
            a == b || (!is_terminal(a) && !is_terminal(b))
        } by {
            assert(old_run.edges.contains((up, t)));
            if up != task {
                assert(new_run.tasks[up as int] == old_run.tasks[up as int]);
            }
        }
        if t != task {
            assert(new_run.tasks[t as int] == old_run.tasks[t as int]);
        }
        lemma_decision_kept(old_run, new_run, t);
    }
    assert forall|r: int| 0 <= r < after.runs.len() implies run_steady(#[trigger] after.runs[r])
        && run_settled(after.runs[r]) by {
        if r != run {
            assert(after.runs[r] == before.runs[r]);
        } else {
            assert forall|t: int| 0 <= t < new_run.tasks.len() implies
                record_ok(#[trigger] new_run.tasks[t]) by {
                if t != task {
                    assert(new_run.tasks[t] == old_run.tasks[t]);
                }
            }
            assert forall|t: usize| t < new_run.tasks.len()
                && started(#[trigger] new_run.tasks[t as int]) implies
                upstreams_all_terminal(new_run, t) by {
                if t != task {
                    assert(new_run.tasks[t as int] == old_run.tasks[t as int]);
                }
                assert(started(old_run.tasks[t as int]));
                assert(upstreams_all_terminal(old_run, t));
                assert forall|up: usize| #[trigger] new_run.is_upstream(up, t) implies
                    is_terminal(new_run.tasks[up as int].status) by {
                    assert(old_run.is_upstream(up, t));
                    assert(is_terminal(old_run.tasks[up as int].status));
                    assert(up != task);
                    assert(old_run.edges.contains((up, t)));
                    assert(new_run.tasks[up as int] == old_run.tasks[up as int]);
                }
            }
            assert forall|p: int| 0 <= p < old_run.tasks.len() implies
                (#[trigger] new_run.tasks[p]) == old_run.tasks[p] || p == task by {}
            lemma_cached_kept(old_run, new_run);
            assert forall|t: usize| t < new_run.tasks.len()
                && (#[trigger] new_run.tasks[t as int]).status == TaskStatus::Pending implies
                run_decision(new_run, t) == Decision::Wait by {
                assert(t != task);
                assert(new_run.tasks[t as int] == old_run.tasks[t as int]);
                assert(run_decision(old_run, t) == Decision::Wait);
            }
        }
    }
}

/// Recording the result of the attempt that is under way leaves every
/// result one of the task and of one of its attempts.
proof fn lemma_results_ok(old_rec: TaskRecord, new_rec: TaskRecord, result: Option<TaskResultView>,
    task: usize)
    requires
        record_ok(old_rec),
        old_rec.status == TaskStatus::Running,
        old_rec.task.id == task,
        new_rec.task == old_rec.task,
        match result {
            Some(r) => r.task_id == task && r.attempt == attempt_count(old_rec)
                && new_rec.results == old_rec.results.push(r),
            None => new_rec.results == old_rec.results,
        },
    ensures
        forall|i: int| 0 <= i < new_rec.results.len() ==> result_ok(
            new_rec.task,
            #[trigger] new_rec.results[i],
        ),
{
    assert forall|i: int| 0 <= i < new_rec.results.len() implies result_ok(
        new_rec.task,
        #[trigger] new_rec.results[i],
    ) by {
        if i < old_rec.results.len() {
            assert(new_rec.results[i] == old_rec.results[i]);
        }
    }
}

/// Putting the task of an attempt in flight into the queue again keeps what
/// holds between the steps of the engine.
proof fn lemma_requeued_inv(
    before: BackendState,
    after: BackendState,
    queued: QueuedTaskView,
    result: Option<TaskResultView>,
    now: i64,
)
    requires
        engine_inv(before),
        after.wf(),
        before.in_flight.contains(queued),
        result is Some
            ==> queued.attempt < before.record(queued.run_id,
            queued.task_id).task.options.max_attempts,
        result matches Some(r) ==> r.task_id == queued.task_id && r.attempt == queued.attempt,
        requeued(before, after, queued, result, now),
    ensures
        engine_inv(after),
{
    let run = queued.run_id;
    let task = queued.task_id;
    let old_rec = before.record(run, task);
    let new_rec = after.record(run, task);
    assert(before.has_task(run, task));
    assert(old_rec.status == TaskStatus::Running && queued.attempt == attempt_count(old_rec)) by {
        reveal(queues_ok);
    }
    lemma_steady_record(before, run, task);
    let depth = before.runs[run as int].depth(task);
    assert(new_rec == requeued_record(old_rec, depth, result));
    assert(record_ok(new_rec)) by {
        lemma_results_ok(old_rec, new_rec, result, task);
    }
    lemma_runs_kept_steady(before, after, run, task);
    lemma_not_queued(before, run, task);
    let e = queue_entry(depth, run, task, queued.dag_name, queued.scheduled_date_for_dag_run,
        attempt_count(new_rec), now);
    assert(queues_ok(after)) by {
        reveal(queues_ok);
        reveal(queue_gained);
        let pos = choose|pos: int| 0 <= pos <= before.queue.len()
            && after.queue == #[trigger] before.queue.insert(pos, e);
        assert forall|i: int| 0 <= i < after.queue.len() implies {
            let q = (#[trigger] after.queue[i]).queued_task;
            let rec = after.record(q.run_id, q.task_id);
            &&& rec.status == TaskStatus::Queued || rec.status == TaskStatus::Retrying
                || rec.status == TaskStatus::Skipped
            &&& rec.status != TaskStatus::Skipped ==> q.attempt == attempt_count(rec)
        } by {
            if i != pos {
                let k = if i < pos { i } else { i - 1 };
                assert(after.queue[i] == before.queue[k]);
                assert(!crate::backend::entry_of(before.queue[k], run, task));
                let q = before.queue[k].queued_task;
                assert(before.has_task(q.run_id, q.task_id));
                assert(after.record(q.run_id, q.task_id) == before.record(q.run_id, q.task_id));
            }
        }
        assert forall|q: QueuedTaskView| #[trigger] after.in_flight.contains(q) implies {
            let rec = after.record(q.run_id, q.task_id);
            rec.status == TaskStatus::Running && q.attempt == attempt_count(rec)
        } by {
            assert(before.in_flight.contains(q));
            assert(before.has_task(q.run_id, q.task_id));
            assert(!(q.run_id == run && q.task_id == task));
            assert(after.record(q.run_id, q.task_id) == before.record(q.run_id, q.task_id));
        }
    }
}

/// Puts the task of an attempt in flight into the queue again: under the
/// same attempt number where no result is handed in, and else with the
/// result recorded and under the next number.
fn requeue<B: Backend>(backend: &mut B, queued: &QueuedTask, result: Option<&TaskResult>, now: i64)
    requires
        old(backend).inv(),
        engine_inv(old(backend).state()),
        old(backend).state().in_flight.contains(queued@),
        result matches Some(r) ==> r.task_id == queued.task_id && r.attempt == queued.attempt
            && queued.attempt < old(backend).state().record(queued.run_id,
            queued.task_id).task.options.max_attempts,
    ensures
        final(backend).inv(),
        engine_inv(final(backend).state()),
        requeued(
            old(backend).state(),
            final(backend).state(),
            queued@,
            match result {
                Some(r) => Some(r@),
                None => None,
            },
            now,
        ),
{
    let run_id = queued.run_id;
    let task_id = queued.task_id;
    let ghost s0 = backend.state();
    let ghost old_rec = s0.record(run_id, task_id);
    proof {
        backend.lemma_inv_gives_wf();
        assert(s0.has_task(run_id, task_id));
        assert(old_rec.status == TaskStatus::Running
            && queued.attempt == attempt_count(old_rec)) by {
            reveal(queues_ok);
        }
        lemma_steady_record(s0, run_id, task_id);
        lemma_not_queued(s0, run_id, task_id);
    }
    let task = backend.get_task_by_id(run_id, task_id);
    let depth = backend.get_task_depth(run_id, task_id);
    let mut attempt = queued.attempt;
    if let Some(r) = result {
        backend.insert_task_results(run_id, r);
        attempt = backend.get_attempt_by_task_id(run_id, task_id);
    }
    backend.remove_from_temp_queue(queued);
    backend.set_task_status(run_id, task_id, TaskStatus::Retrying);
    let ghost s4 = backend.state();
    proof {
        assert(s4.record(run_id, task_id).depth == Some(depth));
        assert(s4.runs[run_id as int].depth(task_id) == depth);
        assert(s4.queue == s0.queue);
    }
    backend.enqueue_task(
        run_id,
        task_id,
        queued.scheduled_date_for_dag_run,
        queued.dag_name.as_str(),
        attempt,
        now,
    );
    proof {
        let s5 = backend.state();
        let ghost_result = match result {
            Some(r) => Some(r@),
            None => None,
        };
        let new_rec = requeued_record(old_rec, depth, ghost_result);
        let e = queue_entry(depth, run_id, task_id, queued@.dag_name,
            queued.scheduled_date_for_dag_run, attempt, now);
        assert(s4.record(run_id, task_id) == new_rec);
        assert(s4.with_depth(run_id, task_id, Some(depth)).runs =~= s4.runs) by {
            assert(s4.runs[run_id as int].with_task(task_id, TaskRecord { depth: Some(depth),
                ..s4.record(run_id, task_id) }).tasks =~= s4.runs[run_id as int].tasks);
        }
        assert(s5.runs == s4.runs);
        assert(s5.runs[run_id as int].tasks =~= s0.runs[run_id as int].with_task(task_id,
            new_rec).tasks);
        assert(s5.runs =~= s0.with_record(run_id, task_id, new_rec).runs);
        assert(s5 == s0.with_record(run_id, task_id,
            new_rec).with_in_flight(s0.in_flight.remove(queued@)).with_queue(s5.queue));
        assert(attempt == attempt_count(new_rec));
        assert(queue_gained(s0.queue, s5.queue, e)) by {
            reveal(queue_gained);
        }
        backend.lemma_inv_gives_wf();
        lemma_requeued_inv(s0, s5, queued@, ghost_result, now);
    }
}

/// The record of a task that has ended with the given result.
pub open spec fn finished_record(old_rec: TaskRecord, result: TaskResultView,
    status: TaskStatus) -> TaskRecord {
    TaskRecord { status, results: old_rec.results.push(result), ..old_rec }
}

/// The state once the attempt `queued` has come back with a result that
/// ends its task.
pub open spec fn finished_state(
    before: BackendState,
    queued: QueuedTaskView,
    result: TaskResultView,
    status: TaskStatus,
) -> BackendState {
    before.with_record(
        queued.run_id,
        queued.task_id,
        finished_record(before.record(queued.run_id, queued.task_id), result, status),
    ).with_in_flight(before.in_flight.remove(queued))
}

/// The task `d` waits for the branch task and is not the one it chose.
pub open spec fn passed_over(run: RunRecord, branch: usize, chosen: Option<usize>, d: int) -> bool {
    &&& 0 <= d < run.tasks.len()
    &&& run.is_upstream(branch, d as usize)
    &&& run.tasks[d].status == TaskStatus::Pending
    &&& chosen != Some(d as usize)
}

/// `after` is `before` but that those downstreams of the branch task that
/// waited, were not chosen and are among `seen` are skipped, each with the
/// depth cached that it had in `before`; no task has another depth than it
/// had.
spec fn passing(
    before: RunRecord,
    after: RunRecord,
    branch: usize,
    chosen: Option<usize>,
    seen: Seq<usize>,
) -> bool {
    &&& after == RunRecord { tasks: after.tasks, ..before }
    &&& after.tasks.len() == before.tasks.len()
    &&& same_depths(before, after)
    &&& forall|d: int|
        0 <= d < before.tasks.len() ==> if passed_over(before, branch, chosen, d) && seen.contains(
            d as usize,
        ) {
            #[trigger] after.tasks[d] == skipped_record(
                before.tasks[d],
                before.depth(d as usize),
            )
        } else {
            after.tasks[d] == before.tasks[d]
        }
}

/// `after` is `before` but that those downstreams of the branch task that
/// waited and were not chosen are skipped, each with the depth cached that
/// it had in `before`; no task has another depth than it had.
pub open spec fn passed(
    before: RunRecord,
    after: RunRecord,
    branch: usize,
    chosen: Option<usize>,
) -> bool {
    &&& after == RunRecord { tasks: after.tasks, ..before }
    &&& after.tasks.len() == before.tasks.len()
    &&& same_depths(before, after)
    &&& forall|d: int|
        0 <= d < before.tasks.len() ==> if passed_over(before, branch, chosen, d) {
            #[trigger] after.tasks[d] == skipped_record(
                before.tasks[d],
                before.depth(d as usize),
            )
        } else {
            after.tasks[d] == before.tasks[d]
        }
}

/// What has become of a task when the end of another was carried on: a
/// downstream of a branch task that waited and was not chosen is skipped;
/// any other task that waited was dealt with as its rule decides; and a task
/// that did not wait is as it was. A task that was skipped has `skipped`
/// cached as its depth.
pub open spec fn task_ended(
    o: TaskRecord,
    n: TaskRecord,
    d: Decision,
    depth: usize,
    skipped: usize,
    passed: bool,
) -> bool {
    if passed {
        n == skipped_record(o, skipped)
    } else {
        task_settling(o, n, d, depth, skipped)
    }
}

/// Every task of the run has become what the end of the task `ended` makes
/// of it: a task that was skipped has the depth cached that it had in `done`,
/// and every upstream of a task that was put into the queue has its depth
/// cached.
#[verifier::opaque]
pub open spec fn tasks_ended(
    done: RunRecord,
    after: RunRecord,
    ended: usize,
    chosen: Option<usize>,
    branching: bool,
) -> bool {
    forall|t: usize|
        t < done.tasks.len() ==> {
            &&& task_ended(
                done.tasks[t as int],
                #[trigger] after.tasks[t as int],
                run_decision(after, t),
                settled_depth(done.tasks[t as int], after, t),
                done.depth(t),
                branching && passed_over(done, ended, chosen, t as int),
            )
            &&& done.tasks[t as int].status == TaskStatus::Pending && after.tasks[t as int].status
                == TaskStatus::Queued ==> upstreams_cached(after, t)
        }
}

/// `after` is what became of `before` when the attempt `queued` came back
/// with a result that ends its task: the result is recorded, the task has
/// succeeded or failed, and the attempt is no more in flight; where a branch
/// task succeeded, those of its downstreams that waited and were not chosen
/// are skipped; every other task that waited has been put into the queue or
/// skipped as its rule decides over the statuses that its upstreams have
/// now, or waits on where its rule has not decided; and the queue has gained
/// one entry for each task that was put in.
pub open spec fn ended(
    before: BackendState,
    after: BackendState,
    result: TaskResultView,
    queued: QueuedTaskView,
    now: i64,
) -> bool {
    let run = queued.run_id;
    let status = if result.success {
        TaskStatus::Success
    } else {
        TaskStatus::Failure
    };
    let done = finished_state(before, queued, result, status);
    &&& frame_kept(done, after, run)
    &&& tasks_ended(
        done.runs[run as int],
        after.runs[run as int],
        queued.task_id,
        result.branch_chosen,
        done.record(run, queued.task_id).task.is_branch && result.success,
    )
    &&& queue_settling(
        done,
        after,
        run,
        queued.dag_name,
        queued.scheduled_date_for_dag_run,
        now,
    )
    &&& run_settled(after.runs[run as int])
}

/// What has become of the state when a result was reported.
pub open spec fn handled(
    before: BackendState,
    after: BackendState,
    run: usize,
    result: TaskResultView,
    queued: QueuedTaskView,
    now: i64,
    outcome: Outcome,
) -> bool {
    match outcome {
        Outcome::Ignored => after == before,
        Outcome::Polling { delay } => requeued(before, after, queued, None, due_time(now, delay)),
        Outcome::Retrying { delay, .. } => requeued(
            before,
            after,
            queued,
            Some(result),
            due_time(now, delay),
        ),
        Outcome::Finished { .. } => ended(before, after, result, queued, now),
    }
}

/// With the downstreams of a branch task passed over and the end carried
/// on from there, the state is what the end of the task makes of it.
proof fn lemma_passed_and_settled(
    done: BackendState,
    mid: BackendState,
    after: BackendState,
    run: usize,
    task: usize,
    chosen: Option<usize>,
    branching: bool,
    dag_name: Seq<char>,
    date: i64,
    now: i64,
)
    requires
        done.has_task(run, task),
        branching ==> mid == done.with_run(run, mid.runs[run as int]) && passed(
            done.runs[run as int],
            mid.runs[run as int],
            task,
            chosen,
        ),
        !branching ==> mid == done,
        settled(mid, after, run, dag_name, date, now),
    ensures
        frame_kept(done, after, run),
        tasks_ended(done.runs[run as int], after.runs[run as int], task, chosen, branching),
        queue_settling(done, after, run, dag_name, date, now),
        run_settled(after.runs[run as int]),
{
    let done_run = done.runs[run as int];
    let mid_run = mid.runs[run as int];
    let new_run = after.runs[run as int];
    assert forall|r: int| 0 <= r < done.runs.len() && r != run implies #[trigger] after.runs[r]
        == done.runs[r] by {
        assert(after.runs[r] == mid.runs[r]);
    }
    assert forall|t: usize| t < done_run.tasks.len() implies (if branching && passed_over(
        done_run,
        task,
        chosen,
        t as int,
    ) {
        #[trigger] mid_run.tasks[t as int] == skipped_record(
            done_run.tasks[t as int],
            done_run.depth(t),
        )
    } else {
        mid_run.tasks[t as int] == done_run.tasks[t as int]
    }) by {}
    assert(same_depths(done_run, mid_run)) by {
        if !branching {
            lemma_depths_read(done_run, mid_run);
        }
    }
    assert(tasks_ended(done_run, new_run, task, chosen, branching)) by {
        reveal(tasks_ended);
        reveal(tasks_settling);
        assert forall|t: usize| t < done_run.tasks.len() implies {
            &&& task_ended(
                done_run.tasks[t as int],
                #[trigger] new_run.tasks[t as int],
                run_decision(new_run, t),
                settled_depth(done_run.tasks[t as int], new_run, t),
                done_run.depth(t),
                branching && passed_over(done_run, task, chosen, t as int),
            )
            &&& done_run.tasks[t as int].status == TaskStatus::Pending
                && new_run.tasks[t as int].status == TaskStatus::Queued ==> upstreams_cached(
                new_run,
                t,
            )
        } by {
            let m = mid_run.tasks[t as int];
            lemma_same_depth(done_run, mid_run, t);
            assert(task_settling(
                m,
                new_run.tasks[t as int],
                run_decision(new_run, t),
                settled_depth(m, new_run, t),
                mid_run.depth(t),
            ));
        }
    }
    assert(mid.queue == done.queue);
    assert(queue_settling(done, after, run, dag_name, date, now)) by {
        reveal(queue_settling);
        reveal(tasks_settling);
        assert forall|e: OrderedQueuedTaskView| #[trigger]
            done.queue.contains(e) implies after.queue.contains(e) by {
            assert(mid.queue.contains(e));
        }
        assert forall|e: OrderedQueuedTaskView| #[trigger]
            after.queue.contains(e) implies done.queue.contains(e) || newly_queued(
            done_run,
            new_run,
            run,
            e,
            dag_name,
            date,
            now,
        ) by {
            if !mid.queue.contains(e) {
                assert(newly_queued(mid_run, new_run, run, e, dag_name, date, now));
                let t = e.queued_task.task_id;
                assert(mid_run.tasks[t as int].status == TaskStatus::Pending);
                assert(done_run.tasks[t as int].status == TaskStatus::Pending);
            }
        }
        assert forall|t: usize|
            t < done_run.tasks.len() && done_run.tasks[t as int].status == TaskStatus::Pending && (
            #[trigger] new_run.tasks[t as int]).status == TaskStatus::Queued implies
            new_run.tasks[t as int].depth is Some && after.queue.contains(
            queue_entry(new_run.tasks[t as int].depth->0, run, t, dag_name, date, 1, now),
        ) by {
            let m = mid_run.tasks[t as int];
            assert(task_settling(
                m,
                new_run.tasks[t as int],
                run_decision(new_run, t),
                settled_depth(m, new_run, t),
                mid_run.depth(t),
            ));
            assert(m == done_run.tasks[t as int]);
            assert(after.queue.contains(
                queue_entry(new_run.tasks[t as int].depth->0, run, t, dag_name, date, 1, now),
            ));
        }
    }
}

/// Recording the result that ends a task keeps the state steady, and leaves
/// only downstreams of the task waiting although their rule has decided.
proof fn lemma_finished_steady(
    before: BackendState,
    after: BackendState,
    queued: QueuedTaskView,
    result: TaskResultView,
    status: TaskStatus,
)
    requires
        engine_inv(before),
        after.wf(),
        before.in_flight.contains(queued),
        is_terminal(status),
        status != TaskStatus::Skipped,
        result.task_id == queued.task_id,
        result.attempt == queued.attempt,
        after == finished_state(before, queued, result, status),
    ensures
        engine_steady(after),
        covered(after.runs[queued.run_id as int], seq![queued.task_id]),
        forall|r: int|
            0 <= r < after.runs.len() && r != queued.run_id
                ==> run_settled(#[trigger] after.runs[r]),
{
    let run = queued.run_id;
    let task = queued.task_id;
    let old_run = before.runs[run as int];
    let new_run = after.runs[run as int];
    let old_rec = before.record(run, task);
    let new_rec = after.record(run, task);
    assert(before.has_task(run, task));
    assert(old_rec.status == TaskStatus::Running && queued.attempt == attempt_count(old_rec)) by {
        reveal(queues_ok);
    }
    lemma_steady_record(before, run, task);
    assert(new_run == old_run.with_task(task, new_rec));
    assert(ended_upstreams_cached(new_run)) by {
        reveal(run_steady);
        assert(run_steady(old_run));
        assert(record_ok(old_rec));
        assert forall|p: int| 0 <= p < old_run.tasks.len() implies
            (#[trigger] new_run.tasks[p]) == old_run.tasks[p] || p == task by {}
        lemma_cached_kept(old_run, new_run);
    }
    assert forall|r: int| 0 <= r < after.runs.len() implies
        run_steady(#[trigger] after.runs[r]) by {
        reveal(run_steady);
        if r != run {
            assert(after.runs[r] == before.runs[r]);
        } else {
            assert(run_steady(old_run));
            assert forall|t: int| 0 <= t < new_run.tasks.len() implies
                record_ok(#[trigger] new_run.tasks[t]) by {
                if t != task {
                    assert(new_run.tasks[t] == old_run.tasks[t]);
                } else {
                    lemma_results_ok(old_rec, new_rec, Some(result), task);
                }
            }
            assert forall|t: usize| t < new_run.tasks.len()
                && started(#[trigger] new_run.tasks[t as int]) implies
                upstreams_all_terminal(new_run, t) by {
                if t != task {
                    assert(new_run.tasks[t as int] == old_run.tasks[t as int]);
                }
                assert(started(old_run.tasks[t as int]));
                assert(upstreams_all_terminal(old_run, t));
                assert forall|up: usize| #[trigger] new_run.is_upstream(up, t) implies
                    is_terminal(new_run.tasks[up as int].status) by {
                    assert(old_run.is_upstream(up, t));
                    assert(is_terminal(old_run.tasks[up as int].status));
                    assert(old_run.edges.contains((up, t)));
                    if up != task {
                        assert(new_run.tasks[up as int] == old_run.tasks[up as int]);
                    }
                }
            }
        }
    }
    lemma_not_queued(before, run, task);
    assert(queues_ok(after)) by {
        reveal(queues_ok);
        assert forall|i: int| 0 <= i < after.queue.len() implies {
            let q = (#[trigger] after.queue[i]).queued_task;
            let rec = after.record(q.run_id, q.task_id);
            &&& rec.status == TaskStatus::Queued || rec.status == TaskStatus::Retrying
                || rec.status == TaskStatus::Skipped
            &&& rec.status != TaskStatus::Skipped ==> q.attempt == attempt_count(rec)
        } by {
            assert(!crate::backend::entry_of(before.queue[i], run, task));
            let q = before.queue[i].queued_task;
            assert(before.has_task(q.run_id, q.task_id));
            assert(after.record(q.run_id, q.task_id) == before.record(q.run_id, q.task_id));
        }
        assert forall|q: QueuedTaskView| #[trigger] after.in_flight.contains(q) implies {
            let rec = after.record(q.run_id, q.task_id);
            rec.status == TaskStatus::Running && q.attempt == attempt_count(rec)
        } by {
            assert(before.in_flight.contains(q));
            assert(before.has_task(q.run_id, q.task_id));
            assert(!(q.run_id == run && q.task_id == task));
            assert(after.record(q.run_id, q.task_id) == before.record(q.run_id, q.task_id));
        }
    }
    lemma_settled_covered(old_run);
    lemma_cover_ended(old_run, new_run, Seq::<usize>::empty(), task);
    assert(Seq::<usize>::empty().push(task) =~= seq![task]);
    assert forall|r: int| 0 <= r < after.runs.len() && r != run implies
        run_settled(#[trigger] after.runs[r]) by {
        assert(after.runs[r] == before.runs[r]);
    }
}

/// Whether the attempt is held as in flight.
pub(crate) fn is_in_flight<B: Backend>(backend: &B, queued: &QueuedTask) -> (r: bool)
    requires
        backend.inv(),
    ensures
        r == backend.state().in_flight.contains(queued@),
{
    let all = backend.get_temp_queue();
    let mut i: usize = 0;
    while i < all.len()
        invariant
            i <= all.len(),
            forall|k: int| 0 <= k < all@.len()
                ==> backend.state().in_flight.contains((#[trigger] all@[k])@),
            forall|k: int| 0 <= k < i ==> (#[trigger] all@[k])@ != queued@,
        decreases all.len() - i,
    {
        if all[i].same_as(queued) {
            return true;
        }
        i += 1;
    }
    proof {
        if backend.state().in_flight.contains(queued@) {
            let k = choose|k: int| 0 <= k < all@.len() && (#[trigger] all@[k])@ == queued@;
            assert(false);
        }
    }
    false
}

/// Skips the downstreams of a branch task that wait and were not chosen,
/// and adds them to `seeds`.
fn pass_over<B: Backend>(
    backend: &mut B,
    run_id: usize,
    branch: usize,
    chosen: Option<usize>,
    seeds: &mut Vec<usize>,
)
    requires
        old(backend).inv(),
        engine_steady(old(backend).state()),
        old(backend).state().has_task(run_id, branch),
        covered(old(backend).state().runs[run_id as int], old(seeds)@),
    ensures
        final(backend).inv(),
        engine_steady(final(backend).state()),
        final(backend).state() == old(backend).state().with_run(
            run_id,
            final(backend).state().runs[run_id as int],
        ),
        passed(
            old(backend).state().runs[run_id as int],
            final(backend).state().runs[run_id as int],
            branch,
            chosen,
        ),
        covered(final(backend).state().runs[run_id as int], final(seeds)@),
{
    let ghost s0 = backend.state();
    let ghost run0 = s0.runs[run_id as int];
    let downstream = backend.get_downstream(run_id, branch);
    proof {
        backend.lemma_inv_gives_wf();
        assert(s0.with_run(run_id, run0).runs =~= s0.runs);
        lemma_depths_read(run0, run0);
    }
    let mut j: usize = 0;
    while j < downstream.len()
        invariant
            j <= downstream.len(),
            backend.inv(),
            engine_steady(backend.state()),
            s0.has_task(run_id, branch),
            s0.wf(),
            run0 == s0.runs[run_id as int],
            forall|d: usize| downstream@.contains(d) <==> run0.is_upstream(branch, d),
            backend.state() == s0.with_run(run_id, backend.state().runs[run_id as int]),
            passing(
                run0,
                backend.state().runs[run_id as int],
                branch,
                chosen,
                downstream@.subrange(0, j as int),
            ),
            covered(backend.state().runs[run_id as int], seeds@),
        decreases downstream.len() - j,
    {
        let d = downstream[j];
        let ghost cur = backend.state();
        let ghost cur_run = cur.runs[run_id as int];
        proof {
            lemma_same_depth(run0, cur_run, d);
        }
        let ghost seen = downstream@.subrange(0, j as int);
        let ghost seen_next = downstream@.subrange(0, j + 1);
        proof {
            assert(downstream@.contains(d));
            assert(run0.edges.contains((branch, d)));
            assert(run0.wf());
            assert(seen_next =~= seen.push(d));
            lemma_pushed_contains(seen, d);
        }
        let status = backend.get_task_status(run_id, d);
        let is_chosen = match chosen {
            Some(c) => c == d,
            None => false,
        };
        if status == TaskStatus::Pending && !is_chosen {
            proof {
                lemma_steady_record(cur, run_id, d);
            }
            skip(backend, run_id, d);
            let ghost before_push = seeds@;
            seeds.push(d);
            proof {
                let next = backend.state();
                let new_run = next.runs[run_id as int];
                assert(cur_run.tasks[d as int].status == TaskStatus::Pending);
                assert(cur_run.tasks[d as int] == run0.tasks[d as int]);
                assert(passed_over(run0, branch, chosen, d as int));
                assert(new_run == cur_run.with_task(d, new_run.tasks[d as int]));
                assert(next.runs =~= s0.with_run(run_id, new_run).runs);
                assert forall|x: int| 0 <= x < run0.tasks.len() implies (if passed_over(
                    run0,
                    branch,
                    chosen,
                    x,
                ) && seen_next.contains(x as usize) {
                    #[trigger] new_run.tasks[x] == skipped_record(
                        run0.tasks[x],
                        run0.depth(x as usize),
                    )
                } else {
                    new_run.tasks[x] == run0.tasks[x]
                }) by {
                    if x != d {
                        assert(new_run.tasks[x] == cur_run.tasks[x]);
                    }
                }
                assert(acyclic(cur_run.edges)) by {
                    reveal(run_steady);
                    assert(run_steady(cur_run));
                }
                lemma_depth_cached(cur_run, new_run, d);
                lemma_same_depths_chain(run0, cur_run, new_run);
                lemma_cover_ended(cur_run, new_run, before_push, d);
            }
        } else {
            proof {
                assert forall|x: int| 0 <= x < run0.tasks.len() implies (if passed_over(
                    run0,
                    branch,
                    chosen,
                    x,
                ) && seen_next.contains(x as usize) {
                    #[trigger] cur_run.tasks[x] == skipped_record(
                        run0.tasks[x],
                        run0.depth(x as usize),
                    )
                } else {
                    cur_run.tasks[x] == run0.tasks[x]
                }) by {
                    if x == d && passed_over(run0, branch, chosen, x) {
                        // the task waited at first and does not now, so it
                        // has been passed over already
                        assert(seen.contains(d));
                    }
                }
            }
        }
        j += 1;
    }
    proof {
        let all = downstream@.subrange(0, j as int);
        assert(all =~= downstream@);
        let fin_run = backend.state().runs[run_id as int];
        assert forall|x: int| 0 <= x < run0.tasks.len() implies (if passed_over(
            run0,
            branch,
            chosen,
            x,
        ) {
            #[trigger] fin_run.tasks[x] == skipped_record(run0.tasks[x], run0.depth(x as usize))
        } else {
            fin_run.tasks[x] == run0.tasks[x]
        }) by {
            if passed_over(run0, branch, chosen, x) {
                assert(downstream@.contains(x as usize));
            }
        }
    }
}

/// Takes in what an attempt came to.
///
/// A report that is of no attempt in flight, or that carries another attempt
/// number than the attempt, is ignored. A sensor that has succeeded with a
/// falsy value is put into the queue again under the same attempt number, and
/// nothing is recorded. A failure with attempts left is recorded and the task
/// put into the queue under the next attempt number. An attempt that is put
/// into the queue again is due when the retry delay of the task has passed:
/// a worker that takes it from the queue before then holds it until then.
/// Any other result is recorded and ends the task, as Success or Failure;
/// a branch task that succeeded has its other waiting downstreams skipped;
/// and the end is carried on to the tasks that wait.
pub fn handle_task_result<B: Backend>(
    backend: &mut B,
    run_id: usize,
    result: &TaskResult,
    queued_task: &QueuedTask,
    now: i64,
) -> (outcome: Outcome)
    requires
        old(backend).inv(),
        engine_inv(old(backend).state()),
    ensures
        final(backend).inv(),
        engine_inv(final(backend).state()),
        outcome == outcome_of(old(backend).state(), run_id, result@, queued_task@),
        handled(
            old(backend).state(),
            final(backend).state(),
            run_id,
            result@,
            queued_task@,
            now,
            outcome,
        ),
{
    let ghost s0 = backend.state();
    if queued_task.run_id != run_id || queued_task.task_id != result.task_id
        || queued_task.attempt != result.attempt || !is_in_flight(backend, queued_task) {
        return Outcome::Ignored;
    }
    let task_id = queued_task.task_id;
    proof {
        backend.lemma_inv_gives_wf();
        assert(s0.has_task(run_id, task_id));
    }
    let task = backend.get_task_by_id(run_id, task_id);
    if task.options.is_sensor && result.success && !result.result.is_truthy() {
        requeue(backend, queued_task, None, due_at(now, task.options.retry_delay));
        return Outcome::Polling { delay: task.options.retry_delay };
    }
    if !result.success && queued_task.attempt < task.options.max_attempts {
        requeue(backend, queued_task, Some(result), due_at(now, task.options.retry_delay));
        return Outcome::Retrying { attempt: queued_task.attempt + 1,
            delay: task.options.retry_delay };
    }
    let status = if result.success {
        TaskStatus::Success
    } else {
        TaskStatus::Failure
    };
    backend.insert_task_results(run_id, result);
    backend.remove_from_temp_queue(queued_task);
    backend.set_task_status(run_id, task_id, status);
    let ghost done = backend.state();
    proof {
        let target = finished_state(s0, queued_task@, result@, status);
        let new_rec = finished_record(s0.record(run_id, task_id), result@, status);
        assert(done.runs[run_id as int].tasks =~= s0.runs[run_id as int].with_task(task_id,
            new_rec).tasks);
        assert(done.runs =~= target.runs);
        assert(done == target);
        backend.lemma_inv_gives_wf();
        lemma_finished_steady(s0, done, queued_task@, result@, status);
    }
    let mut seeds: Vec<usize> = Vec::new();
    seeds.push(task_id);
    proof {
        assert(seeds@ =~= seq![task_id]);
    }
    if task.is_branch && result.success {
        pass_over(backend, run_id, task_id, result.branch_chosen, &mut seeds);
    }
    let ghost mid = backend.state();
    proof {
        assert(mid.runs.len() == done.runs.len());
        assert forall|r: int| 0 <= r < mid.runs.len() && r != run_id implies run_settled(
            #[trigger] mid.runs[r],
        ) by {
            assert(mid.runs[r] == done.runs[r]);
        }
    }
    settle(
        backend,
        run_id,
        seeds,
        queued_task.dag_name.as_str(),
        queued_task.scheduled_date_for_dag_run,
        now,
    );
    proof {
        lemma_passed_and_settled(
            done,
            mid,
            backend.state(),
            run_id,
            task_id,
            result.branch_chosen,
            task.is_branch && result.success,
            queued_task@.dag_name,
            queued_task.scheduled_date_for_dag_run,
            now,
        );
    }
    Outcome::Finished { status }
}

/// What the end of a task leaves as it was, and what it changes.
proof fn lemma_ended_frame(
    before: BackendState,
    after: BackendState,
    result: TaskResultView,
    queued: QueuedTaskView,
    now: i64,
)
    requires
        before.wf(),
        before.in_flight.contains(queued),
        ended(before, after, result, queued, now),
    ensures
        after.in_flight == before.in_flight.remove(queued),
        after.runs.len() == before.runs.len(),
        forall|r: int|
            0 <= r < before.runs.len() ==> (#[trigger] after.runs[r]).tasks.len()
                == before.runs[r].tasks.len() && after.runs[r].edges == before.runs[r].edges
                && after.runs[r].dag_name == before.runs[r].dag_name && after.runs[r].dag_hash
                == before.runs[r].dag_hash && after.runs[r].scheduled_date
                == before.runs[r].scheduled_date,
        forall|r: usize, t: usize|
            before.has_task(r, t) ==> (#[trigger] after.record(r, t)).task == before.record(
                r,
                t,
            ).task && after.record(r, t).results == if r == queued.run_id && t == queued.task_id {
                before.record(r, t).results.push(result)
            } else {
                before.record(r, t).results
            },
        after.status(queued.run_id, queued.task_id) == if result.success {
            TaskStatus::Success
        } else {
            TaskStatus::Failure
        },
        forall|r: usize, t: usize|
            before.has_task(r, t) && !(r == queued.run_id && t == queued.task_id) && before.status(
                r,
                t,
            ) != TaskStatus::Pending ==> #[trigger] after.record(r, t) == before.record(r, t),
{
    let run = queued.run_id;
    let task = queued.task_id;
    assert(before.has_task(run, task));
    let status = if result.success {
        TaskStatus::Success
    } else {
        TaskStatus::Failure
    };
    let done = finished_state(before, queued, result, status);
    let done_run = done.runs[run as int];
    let new_run = after.runs[run as int];
    let branching = done.record(run, task).task.is_branch && result.success;
    assert forall|t: usize| t < done_run.tasks.len() implies {
        let o = done_run.tasks[t as int];
        let n = #[trigger] new_run.tasks[t as int];
        &&& n.task == o.task
        &&& n.results == o.results
        &&& o.status != TaskStatus::Pending ==> n == o
    } by {
        reveal(tasks_ended);
        assert(task_ended(
            done_run.tasks[t as int],
            new_run.tasks[t as int],
            run_decision(new_run, t),
            settled_depth(done_run.tasks[t as int], new_run, t),
            done_run.depth(t),
            branching && passed_over(done_run, task, result.branch_chosen, t as int),
        ));
    }
    assert forall|r: int| 0 <= r < before.runs.len() implies
        (#[trigger] after.runs[r]).tasks.len() == before.runs[r].tasks.len()
        && after.runs[r].edges == before.runs[r].edges && after.runs[r].dag_name
        == before.runs[r].dag_name && after.runs[r].dag_hash == before.runs[r].dag_hash
        && after.runs[r].scheduled_date == before.runs[r].scheduled_date by {
        if r != run {
            assert(after.runs[r] == done.runs[r]);
        }
    }
    assert forall|r: usize, t: usize| before.has_task(r, t) implies
        (#[trigger] after.record(r, t)).task == before.record(r, t).task
        && after.record(r, t).results == if r == run && t == task {
        before.record(r, t).results.push(result)
    } else {
        before.record(r, t).results
    } by {
        if r != run {
            assert(after.runs[r as int] == done.runs[r as int]);
            assert(done.runs[r as int] == before.runs[r as int]);
        } else {
            let n = new_run.tasks[t as int];
        }
    }
    let n0 = new_run.tasks[task as int];
    assert forall|r: usize, t: usize|
        before.has_task(r, t) && !(r == run && t == task) && before.status(r, t)
            != TaskStatus::Pending implies #[trigger] after.record(r, t) == before.record(r, t) by {
        if r != run {
            assert(after.runs[r as int] == done.runs[r as int]);
            assert(done.runs[r as int] == before.runs[r as int]);
        } else {
            let n = new_run.tasks[t as int];
            assert(done_run.tasks[t as int] == before.record(r, t));
        }
    }
}

/// What putting a task into the queue again leaves as it was, and what it
/// changes.
proof fn lemma_requeued_frame(
    before: BackendState,
    after: BackendState,
    result: Option<TaskResultView>,
    queued: QueuedTaskView,
    now: i64,
)
    requires
        before.wf(),
        before.in_flight.contains(queued),
        requeued(before, after, queued, result, now),
    ensures
        after.in_flight == before.in_flight.remove(queued),
        after.runs.len() == before.runs.len(),
        forall|r: int|
            0 <= r < before.runs.len() ==> (#[trigger] after.runs[r]).tasks.len()
                == before.runs[r].tasks.len() && after.runs[r].edges == before.runs[r].edges
                && after.runs[r].dag_name == before.runs[r].dag_name && after.runs[r].dag_hash
                == before.runs[r].dag_hash && after.runs[r].scheduled_date
                == before.runs[r].scheduled_date,
        forall|r: usize, t: usize|
            before.has_task(r, t) ==> (#[trigger] after.record(r, t)).task == before.record(
                r,
                t,
            ).task && after.record(r, t).results == if r == queued.run_id && t == queued.task_id
                && result is Some {
                before.record(r, t).results.push(result->0)
            } else {
                before.record(r, t).results
            },
        after.status(queued.run_id, queued.task_id) == TaskStatus::Retrying,
        forall|r: usize, t: usize|
            before.has_task(r, t) && !(r == queued.run_id && t == queued.task_id)
                ==> #[trigger] after.record(r, t) == before.record(r, t),
{
    let run = queued.run_id;
    assert(before.has_task(run, queued.task_id));
    assert forall|r: usize, t: usize|
        before.has_task(r, t) && !(r == run && t == queued.task_id) implies #[trigger] after.record(
        r,
        t,
    ) == before.record(r, t) by {
        if r != run {
            assert(after.runs[r as int] == before.runs[r as int]);
        }
    }
}

/// A reported result takes nothing out of the queue; and where the attempt is
/// to be made again, the queue holds the entry of the next one.
pub proof fn lemma_handled_keeps_queue(
    before: BackendState,
    after: BackendState,
    run: usize,
    result: TaskResultView,
    queued: QueuedTaskView,
    now: i64,
    outcome: Outcome,
)
    requires
        handled(before, after, run, result, queued, now, outcome),
    ensures
        forall|e: OrderedQueuedTaskView| #[trigger]
            before.queue.contains(e) ==> after.queue.contains(e),
        outcome matches Outcome::Retrying { delay, .. } ==> after.queue.contains(
            queue_entry(
                before.runs[queued.run_id as int].depth(queued.task_id),
                queued.run_id,
                queued.task_id,
                queued.dag_name,
                queued.scheduled_date_for_dag_run,
                (attempt_count(before.record(queued.run_id, queued.task_id)) + 1) as usize,
                due_time(now, delay),
            ),
        ),
{
    match outcome {
        Outcome::Ignored => {},
        Outcome::Finished { .. } => {
            reveal(queue_settling);
            let status = if result.success {
                TaskStatus::Success
            } else {
                TaskStatus::Failure
            };
            let done = finished_state(before, queued, result, status);
            assert(done.queue == before.queue);
            assert forall|e: OrderedQueuedTaskView| #[trigger]
                before.queue.contains(e) implies after.queue.contains(e) by {
                assert(done.queue.contains(e));
            }
        },
        Outcome::Polling { delay } => {
            let rec = requeued_record(
                before.record(queued.run_id, queued.task_id),
                before.runs[queued.run_id as int].depth(queued.task_id),
                None,
            );
            lemma_gained_holds(
                before.queue,
                after.queue,
                queue_entry(
                    before.runs[queued.run_id as int].depth(queued.task_id),
                    queued.run_id,
                    queued.task_id,
                    queued.dag_name,
                    queued.scheduled_date_for_dag_run,
                    attempt_count(rec),
                    due_time(now, delay),
                ),
            );
        },
        Outcome::Retrying { delay, .. } => {
            let rec = requeued_record(
                before.record(queued.run_id, queued.task_id),
                before.runs[queued.run_id as int].depth(queued.task_id),
                Some(result),
            );
            lemma_gained_holds(
                before.queue,
                after.queue,
                queue_entry(
                    before.runs[queued.run_id as int].depth(queued.task_id),
                    queued.run_id,
                    queued.task_id,
                    queued.dag_name,
                    queued.scheduled_date_for_dag_run,
                    attempt_count(rec),
                    due_time(now, delay),
                ),
            );
        },
    }
}

/// A queue that has gained an entry holds it, and what it held.
proof fn lemma_gained_holds(
    before: Seq<OrderedQueuedTaskView>,
    after: Seq<OrderedQueuedTaskView>,
    e: OrderedQueuedTaskView,
)
    requires
        queue_gained(before, after, e),
    ensures
        after.contains(e),
        forall|x: OrderedQueuedTaskView| #[trigger] before.contains(x) ==> after.contains(x),
{
    reveal(queue_gained);
    let pos = choose|pos: int| 0 <= pos <= before.len() && after == #[trigger] before.insert(
        pos,
        e,
    );
    assert(after[pos] == e);
    assert forall|x: OrderedQueuedTaskView| #[trigger] before.contains(x) implies after.contains(
        x,
    ) by {
        let i = choose|i: int| 0 <= i < before.len() && before[i] == x;
        if i < pos {
            assert(after[i] == x);
        } else {
            assert(after[i + 1] == x);
        }
    }
}

/// What a reported result that was not ignored leaves as it was, and what
/// it changes: the attempt is no more in flight; no task, edge or run comes
/// or goes; the results of the tasks are as they were, but that the
/// reported one is recorded as the latest of its task, unless the task is a
/// sensor that is polled again; the task of the attempt is to be retried or
/// has ended; and no other task changes that did not wait.
pub proof fn lemma_handled_frame(
    before: BackendState,
    after: BackendState,
    run: usize,
    result: TaskResultView,
    queued: QueuedTaskView,
    now: i64,
    outcome: Outcome,
)
    requires
        before.wf(),
        report_expected(before, run, result, queued),
        outcome == outcome_of(before, run, result, queued),
        handled(before, after, run, result, queued, now, outcome),
    ensures
        after.in_flight == before.in_flight.remove(queued),
        after.runs.len() == before.runs.len(),
        forall|r: int|
            0 <= r < before.runs.len() ==> (#[trigger] after.runs[r]).tasks.len()
                == before.runs[r].tasks.len() && after.runs[r].edges == before.runs[r].edges
                && after.runs[r].dag_name == before.runs[r].dag_name && after.runs[r].dag_hash
                == before.runs[r].dag_hash && after.runs[r].scheduled_date
                == before.runs[r].scheduled_date,
        forall|r: usize, t: usize|
            before.has_task(r, t) ==> (#[trigger] after.record(r, t)).task == before.record(
                r,
                t,
            ).task && after.record(r, t).results == if r == run && t == queued.task_id && !(outcome
                is Polling) {
                before.record(r, t).results.push(result)
            } else {
                before.record(r, t).results
            },
        after.status(run, queued.task_id) == match outcome {
            Outcome::Finished { status } => status,
            _ => TaskStatus::Retrying,
        },
        forall|r: usize, t: usize|
            before.has_task(r, t) && !(r == run && t == queued.task_id) && before.status(r, t)
                != TaskStatus::Pending ==> #[trigger] after.record(r, t) == before.record(r, t),
{
    match outcome {
        Outcome::Ignored => {},
        Outcome::Polling { delay } => {
            lemma_requeued_frame(before, after, None, queued, due_time(now, delay));
        },
        Outcome::Retrying { delay, .. } => {
            lemma_requeued_frame(before, after, Some(result), queued, due_time(now, delay));
        },
        Outcome::Finished { .. } => {
            lemma_ended_frame(before, after, result, queued, now);
        },
    }
}

} // verus!
