//! The execution engine: what holds of a backend's state while runs are
//! carried out, and the steps that carry them out.

use crate::backend::{
    entry_of, lemma_without_task_absent, put_in_order, without_task, Backend, BackendState,
    RunRecord, TaskRecord,
};
use crate::graph::acyclic;
use crate::rules::{run_decision, upstreams_all_terminal};
use crate::status::{is_terminal, Decision, TaskStatus};
use crate::task::{OrderedQueuedTaskView, QueuedTaskView, TaskResultView, TaskView};
use vstd::prelude::*;

verus! {

/// The task waits in the queue or is with a worker.
pub open spec fn active(s: TaskStatus) -> bool {
    s == TaskStatus::Queued || s == TaskStatus::Running || s == TaskStatus::Retrying
}

/// How many attempt numbers the task has been given.
pub open spec fn attempt_count(rec: TaskRecord) -> usize {
    rec.attempts
}

/// The record once the task has been given the attempt number `n`.
pub open spec fn with_attempt_count(rec: TaskRecord, n: usize) -> TaskRecord {
    TaskRecord { attempts: n, ..rec }
}

/// The result is of the task and of one of the attempts that it has.
pub open spec fn result_ok(task: TaskView, result: TaskResultView) -> bool {
    result.task_id == task.id && 1 <= result.attempt <= task.options.max_attempts
}

/// A task is given no more attempt numbers than it has attempts, and no more
/// results are recorded for it than it was given numbers; while an attempt is
/// under way its result is still owed; a task that waits for its upstreams
/// has not been attempted; a task that was put into the queue has its depth
/// cached; and each result is of the task and of one of its attempts.
pub open spec fn record_ok(rec: TaskRecord) -> bool {
    &&& forall|i: int| 0 <= i < rec.results.len() ==> result_ok(rec.task, #[trigger] rec.results[i])
    &&& attempt_count(rec) <= rec.task.options.max_attempts
    &&& rec.results.len() <= attempt_count(rec)
    &&& active(rec.status) ==> rec.results.len() < attempt_count(rec)
    &&& rec.status == TaskStatus::Pending ==> attempt_count(rec) == 0
    &&& rec.status != TaskStatus::Pending && rec.status != TaskStatus::Skipped ==> rec.depth is Some
}

/// The task was put into the queue at some time.
pub open spec fn started(rec: TaskRecord) -> bool {
    (rec.status != TaskStatus::Pending && rec.status != TaskStatus::Skipped)
        || rec.results.len() > 0
}

/// Every upstream that has ended of a task that waits has its depth cached.
pub open spec fn ended_upstreams_cached(run: RunRecord) -> bool {
    forall|up: usize, t: usize|
        #[trigger] run.is_upstream(up, t) && run.tasks[t as int].status == TaskStatus::Pending
            && is_terminal(run.tasks[up as int].status) ==> run.tasks[up as int].depth is Some
}

/// The edges of the run have no cycle, every task keeps its bounds, none was
/// started before all its upstreams had ended, and the depth is cached of
/// every upstream that has ended of a task that waits.
#[verifier::opaque]
pub open spec fn run_steady(run: RunRecord) -> bool {
    &&& run.wf()
    &&& acyclic(run.edges)
    &&& forall|t: int| 0 <= t < run.tasks.len() ==> record_ok(#[trigger] run.tasks[t])
    &&& forall|t: usize|
        t < run.tasks.len() && started(#[trigger] run.tasks[t as int]) ==> upstreams_all_terminal(
            run,
            t,
        )
    &&& ended_upstreams_cached(run)
}

/// No task of the run waits although its rule has decided.
#[verifier::opaque]
pub open spec fn run_settled(run: RunRecord) -> bool {
    forall|t: usize|
        t < run.tasks.len() && (#[trigger] run.tasks[t as int]).status == TaskStatus::Pending
            ==> run_decision(run, t) == Decision::Wait
}

/// What the queue holds is queued, to be retried, or was skipped while it
/// waited there; what is in flight is running, each task at most once; and
/// each entry carries the attempt number that its task was given last.
#[verifier::opaque]
pub open spec fn queues_ok(state: BackendState) -> bool {
    &&& forall|i: int|
        0 <= i < state.queue.len() ==> {
            let e = (#[trigger] state.queue[i]).queued_task;
            let rec = state.record(e.run_id, e.task_id);
            &&& rec.status == TaskStatus::Queued || rec.status == TaskStatus::Retrying || rec.status
                == TaskStatus::Skipped
            &&& rec.status != TaskStatus::Skipped ==> e.attempt == attempt_count(rec)
        }
    &&& forall|q: QueuedTaskView| #[trigger]
        state.in_flight.contains(q) ==> {
            let rec = state.record(q.run_id, q.task_id);
            rec.status == TaskStatus::Running && q.attempt == attempt_count(rec)
        }
    &&& forall|p: QueuedTaskView, q: QueuedTaskView|
        #![trigger state.in_flight.contains(p), state.in_flight.contains(q)]
        state.in_flight.contains(p) && state.in_flight.contains(q) && p.run_id == q.run_id
            && p.task_id == q.task_id ==> p == q
}

/// What holds of the state between any two steps of the engine, but that
/// some task may wait although its rule has decided.
pub open spec fn engine_steady(state: BackendState) -> bool {
    &&& state.wf()
    &&& queues_ok(state)
    &&& forall|r: int| 0 <= r < state.runs.len() ==> run_steady(#[trigger] state.runs[r])
}

/// What holds of the state between any two steps of the engine.
pub open spec fn engine_inv(state: BackendState) -> bool {
    &&& engine_steady(state)
    &&& forall|r: int| 0 <= r < state.runs.len() ==> run_settled(#[trigger] state.runs[r])
}

/// The entry under which an attempt of a task waits in the queue.
pub open spec fn queue_entry(
    score: usize,
    run: usize,
    task: usize,
    dag_name: Seq<char>,
    date: i64,
    attempt: usize,
    now: i64,
) -> OrderedQueuedTaskView {
    OrderedQueuedTaskView {
        score,
        queued_task: QueuedTaskView {
            run_id: run,
            task_id: task,
            dag_name,
            scheduled_date_for_dag_run: date,
            attempt,
            queued_date: now,
        },
    }
}

/// `after` is `before` with the queue entry `e` put in at some place.
#[verifier::opaque]
pub open spec fn queue_gained(
    before: Seq<OrderedQueuedTaskView>,
    after: Seq<OrderedQueuedTaskView>,
    e: OrderedQueuedTaskView,
) -> bool {
    exists|pos: int| 0 <= pos <= before.len() && after == #[trigger] before.insert(pos, e)
}

/// `after` is `before` once the task, which waited for its upstreams, was
/// given its next attempt number and put into the queue under its depth.
pub open spec fn fired(
    before: BackendState,
    after: BackendState,
    run: usize,
    task: usize,
    dag_name: Seq<char>,
    date: i64,
    now: i64,
) -> bool {
    let old_rec = before.record(run, task);
    let depth = before.runs[run as int].depth(task);
    let attempt = (attempt_count(old_rec) + 1) as usize;
    let new_rec = TaskRecord {
        status: TaskStatus::Queued,
        depth: Some(depth),
        ..with_attempt_count(old_rec, attempt)
    };
    &&& after == before.with_record(run, task, new_rec).with_queue(after.queue)
    &&& queue_gained(before.queue, after.queue, queue_entry(depth, run, task, dag_name, date,
        attempt, now))
}

/// The record of a task that waited and is skipped: its depth is cached, so
/// that those that wait for it can be given theirs.
pub open spec fn skipped_record(rec: TaskRecord, depth: usize) -> TaskRecord {
    TaskRecord { status: TaskStatus::Skipped, depth: Some(depth), ..rec }
}

/// No entry of the queue is of a task that waits for its upstreams, that
/// runs, or that has succeeded or failed.
pub proof fn lemma_not_queued(state: BackendState, run: usize, task: usize)
    requires
        queues_ok(state),
        state.status(run, task) != TaskStatus::Queued,
        state.status(run, task) != TaskStatus::Retrying,
        state.status(run, task) != TaskStatus::Skipped,
    ensures
        forall|k: int| 0 <= k < state.queue.len()
            ==> !entry_of(#[trigger] state.queue[k], run, task),
        without_task(state.queue, run, task) == state.queue,
{
    reveal(queues_ok);
    lemma_without_task_absent(state.queue, run, task);
}

/// The upstreams that have ended of the tasks that wait stay cached when the
/// records of a run change so that no task comes to wait, and no task comes
/// to have ended without its depth cached.
pub proof fn lemma_cached_kept(old_run: RunRecord, new_run: RunRecord)
    requires
        old_run.wf(),
        ended_upstreams_cached(old_run),
        new_run == (RunRecord { tasks: new_run.tasks, ..old_run }),
        new_run.tasks.len() == old_run.tasks.len(),
        forall|t: int|
            0 <= t < old_run.tasks.len() && (#[trigger] new_run.tasks[t]).status
                == TaskStatus::Pending ==> old_run.tasks[t].status == TaskStatus::Pending,
        forall|p: int|
            0 <= p < old_run.tasks.len() && is_terminal((#[trigger] new_run.tasks[p]).status)
                ==> new_run.tasks[p].depth is Some || (is_terminal(old_run.tasks[p].status)
                && new_run.tasks[p].depth == old_run.tasks[p].depth),
    ensures
        ended_upstreams_cached(new_run),
{
    assert forall|up: usize, t: usize|
        #[trigger] new_run.is_upstream(up, t) && new_run.tasks[t as int].status
            == TaskStatus::Pending && is_terminal(new_run.tasks[up as int].status) implies
        new_run.tasks[up as int].depth is Some by {
        assert(old_run.edges.contains((up, t)));
        assert(old_run.has_task(up) && old_run.has_task(t));
        assert(old_run.is_upstream(up, t));
        let n = new_run.tasks[up as int];
        let m = new_run.tasks[t as int];
    }
}

/// In a steady state every task keeps its bounds.
pub proof fn lemma_steady_record(state: BackendState, run: usize, task: usize)
    requires
        engine_steady(state),
        state.has_task(run, task),
    ensures
        record_ok(state.record(run, task)),
        state.runs[run as int].wf(),
{
    reveal(run_steady);
    assert(run_steady(state.runs[run as int]));
}

/// Firing a task whose upstreams have all ended keeps the state steady.
proof fn lemma_fired_steady(
    before: BackendState,
    after: BackendState,
    run: usize,
    task: usize,
    dag_name: Seq<char>,
    date: i64,
    now: i64,
)
    requires
        engine_steady(before),
        after.wf(),
        before.has_task(run, task),
        before.status(run, task) == TaskStatus::Pending,
        upstreams_all_terminal(before.runs[run as int], task),
        fired(before, after, run, task, dag_name, date, now),
    ensures
        engine_steady(after),
{
    reveal(queues_ok);
    reveal(run_steady);
    reveal(queue_gained);
    let old_run = before.runs[run as int];
    let new_run = after.runs[run as int];
    let old_rec = before.record(run, task);
    let new_rec = after.record(run, task);
    let depth = old_run.depth(task);
    let attempt = (attempt_count(old_rec) + 1) as usize;
    let e = queue_entry(depth, run, task, dag_name, date, attempt, now);
    lemma_not_queued(before, run, task);
    assert(record_ok(old_rec));
    assert(new_run.tasks[task as int] == new_rec);
    assert forall|r: int| 0 <= r < after.runs.len() implies
        run_steady(#[trigger] after.runs[r]) by {
        if r != run {
            assert(after.runs[r] == before.runs[r]);
        } else {
            assert(run_steady(old_run));
            assert forall|t: int| 0 <= t < new_run.tasks.len() implies
                record_ok(#[trigger] new_run.tasks[t]) by {
                if t != task {
                    assert(new_run.tasks[t] == old_run.tasks[t]);
                }
            }
            assert forall|t: usize| t < new_run.tasks.len()
                && started(#[trigger] new_run.tasks[t as int]) implies
                upstreams_all_terminal(new_run, t) by {
                if t != task {
                    assert(new_run.tasks[t as int] == old_run.tasks[t as int]);
                    assert(upstreams_all_terminal(old_run, t));
                }
                assert forall|up: usize| #[trigger] new_run.is_upstream(up, t) implies
                    is_terminal(new_run.tasks[up as int].status) by {
                    assert(old_run.is_upstream(up, t));
                    assert(is_terminal(old_run.tasks[up as int].status));
                }
            }
            assert forall|p: int| 0 <= p < old_run.tasks.len() implies
                (#[trigger] new_run.tasks[p]).status == old_run.tasks[p].status || p == task by {
                if p != task {
                    assert(new_run.tasks[p] == old_run.tasks[p]);
                }
            }
            lemma_cached_kept(old_run, new_run);
        }
    }
    let pos = choose|pos: int| 0 <= pos <= before.queue.len()
        && after.queue == #[trigger] before.queue.insert(pos, e);
    assert forall|i: int| 0 <= i < after.queue.len() implies {
        let q = (#[trigger] after.queue[i]).queued_task;
        let rec = after.record(q.run_id, q.task_id);
        &&& rec.status == TaskStatus::Queued || rec.status == TaskStatus::Retrying
            || rec.status == TaskStatus::Skipped
        &&& rec.status != TaskStatus::Skipped ==> q.attempt == attempt_count(rec)
    } by {
        if i != pos {
            let k = if i < pos { i } else { i - 1 };
            assert(after.queue[i] == before.queue[k]);
            assert(!entry_of(before.queue[k], run, task));
            let q = before.queue[k].queued_task;
            assert(before.has_task(q.run_id, q.task_id));
            assert(after.record(q.run_id, q.task_id) == before.record(q.run_id, q.task_id));
        }
    }
    assert forall|q: QueuedTaskView| #[trigger] after.in_flight.contains(q) implies {
        let rec = after.record(q.run_id, q.task_id);
        rec.status == TaskStatus::Running && q.attempt == attempt_count(rec)
    } by {
        assert(before.in_flight.contains(q));
        assert(before.has_task(q.run_id, q.task_id));
        assert(after.record(q.run_id, q.task_id) == before.record(q.run_id, q.task_id));
    }
}

/// Skipping a task that waits for its upstreams keeps the state steady.
proof fn lemma_skipped_steady(before: BackendState, after: BackendState, run: usize, task: usize)
    requires
        engine_steady(before),
        after.wf(),
        before.has_task(run, task),
        before.status(run, task) == TaskStatus::Pending,
        after == before.with_record(
            run,
            task,
            skipped_record(before.record(run, task), after.record(run, task).depth->0),
        ),
        after.record(run, task).depth is Some,
    ensures
        engine_steady(after),
{
    reveal(queues_ok);
    reveal(run_steady);
    let old_run = before.runs[run as int];
    let new_run = after.runs[run as int];
    let old_rec = before.record(run, task);
    lemma_not_queued(before, run, task);
    assert(record_ok(old_rec));
    assert(new_run.tasks[task as int] == skipped_record(old_rec, after.record(run, task).depth->0));
    assert forall|p: int| 0 <= p < old_run.tasks.len() implies
        (#[trigger] new_run.tasks[p]) == old_run.tasks[p] || p == task by {}
    lemma_cached_kept(old_run, new_run);
    assert forall|r: int| 0 <= r < after.runs.len() implies
        run_steady(#[trigger] after.runs[r]) by {
        if r != run {
            assert(after.runs[r] == before.runs[r]);
        } else {
            assert(run_steady(old_run));
            assert forall|t: int| 0 <= t < new_run.tasks.len() implies
                record_ok(#[trigger] new_run.tasks[t]) by {
                if t != task {
                    assert(new_run.tasks[t] == old_run.tasks[t]);
                }
            }
            assert forall|t: usize| t < new_run.tasks.len()
                && started(#[trigger] new_run.tasks[t as int]) implies
                upstreams_all_terminal(new_run, t) by {
                if t != task {
                    assert(new_run.tasks[t as int] == old_run.tasks[t as int]);
                    assert(upstreams_all_terminal(old_run, t));
                    assert forall|up: usize| #[trigger] new_run.is_upstream(up, t) implies
                        is_terminal(new_run.tasks[up as int].status) by {
                        assert(old_run.is_upstream(up, t));
                        assert(is_terminal(old_run.tasks[up as int].status));
                    }
                }
            }
        }
    }
    assert forall|i: int| 0 <= i < after.queue.len() implies {
        let q = (#[trigger] after.queue[i]).queued_task;
        let rec = after.record(q.run_id, q.task_id);
        &&& rec.status == TaskStatus::Queued || rec.status == TaskStatus::Retrying
            || rec.status == TaskStatus::Skipped
        &&& rec.status != TaskStatus::Skipped ==> q.attempt == attempt_count(rec)
    } by {
        assert(!entry_of(before.queue[i], run, task));
        let q = before.queue[i].queued_task;
        assert(before.has_task(q.run_id, q.task_id));
        assert(after.record(q.run_id, q.task_id) == before.record(q.run_id, q.task_id));
    }
    assert forall|q: QueuedTaskView| #[trigger] after.in_flight.contains(q) implies {
        let rec = after.record(q.run_id, q.task_id);
        rec.status == TaskStatus::Running && q.attempt == attempt_count(rec)
    } by {
        assert(before.in_flight.contains(q));
        assert(before.has_task(q.run_id, q.task_id));
        assert(after.record(q.run_id, q.task_id) == before.record(q.run_id, q.task_id));
    }
}

/// Gives a task that waits for its upstreams, all of which have ended, its
/// next attempt number and puts it into the queue.
pub(crate) fn fire<B: Backend>(
    backend: &mut B,
    run_id: usize,
    task_id: usize,
    dag_name: &str,
    date: i64,
    now: i64,
)
    requires
        old(backend).inv(),
        engine_steady(old(backend).state()),
        old(backend).state().has_task(run_id, task_id),
        old(backend).state().status(run_id, task_id) == TaskStatus::Pending,
        upstreams_all_terminal(old(backend).state().runs[run_id as int], task_id),
    ensures
        final(backend).inv(),
        engine_steady(final(backend).state()),
        fired(old(backend).state(), final(backend).state(), run_id, task_id, dag_name@, date, now),
{
    let ghost s0 = backend.state();
    let task = backend.get_task_by_id(run_id, task_id);
    let depth = backend.get_task_depth(run_id, task_id);
    let ghost s1 = backend.state();
    proof {
        lemma_steady_record(s0, run_id, task_id);
    }
    let attempt = backend.get_attempt_by_task_id(run_id, task_id);
    let ghost s2 = backend.state();
    proof {
        assert(s2.record(run_id, task_id).depth == Some(depth));
        assert(s2.runs[run_id as int].depth(task_id) == depth);
        lemma_not_queued(s0, run_id, task_id);
        assert(s2.queue == s0.queue);
    }
    backend.enqueue_task(run_id, task_id, date, dag_name, attempt, now);
    let ghost s3 = backend.state();
    backend.set_task_status(run_id, task_id, TaskStatus::Queued);
    proof {
        let s4 = backend.state();
        let old_rec = s0.record(run_id, task_id);
        let new_rec = TaskRecord {
            status: TaskStatus::Queued,
            depth: Some(depth),
            ..with_attempt_count(old_rec, attempt)
        };
        let e = queue_entry(depth, run_id, task_id, dag_name@, date, attempt, now);
        assert(s2.with_depth(run_id, task_id, Some(depth)).runs =~= s2.runs) by {
            assert(s2.runs[run_id as int].with_task(task_id, TaskRecord { depth: Some(depth),
                ..s2.record(run_id, task_id) }).tasks =~= s2.runs[run_id as int].tasks);
        }
        assert(s3.runs == s2.runs);
        assert(s4.record(run_id, task_id) == new_rec);
        assert(s4.runs[run_id as int].tasks =~= s0.runs[run_id as int].with_task(task_id,
            new_rec).tasks);
        assert(s4.runs =~= s0.with_record(run_id, task_id, new_rec).runs);
        assert(s4 == s0.with_record(run_id, task_id, new_rec).with_queue(s4.queue));
        assert(put_in_order(s0.queue, e, s3.queue));
        assert(queue_gained(s0.queue, s4.queue, e)) by {
            reveal(queue_gained);
        }
        backend.lemma_inv_gives_wf();
        lemma_fired_steady(s0, s4, run_id, task_id, dag_name@, date, now);
    }
}

/// Marks a task that waits for its upstreams as skipped, and caches its
/// depth.
pub(crate) fn skip<B: Backend>(backend: &mut B, run_id: usize, task_id: usize)
    requires
        old(backend).inv(),
        engine_steady(old(backend).state()),
        old(backend).state().has_task(run_id, task_id),
        old(backend).state().status(run_id, task_id) == TaskStatus::Pending,
    ensures
        final(backend).inv(),
        engine_steady(final(backend).state()),
        final(backend).state() == old(backend).state().with_record(
            run_id,
            task_id,
            skipped_record(
                old(backend).state().record(run_id, task_id),
                old(backend).state().runs[run_id as int].depth(task_id),
            ),
        ),
{
    let ghost s0 = backend.state();
    let depth = backend.get_task_depth(run_id, task_id);
    backend.set_task_status(run_id, task_id, TaskStatus::Skipped);
    proof {
        let s2 = backend.state();
        let target = s0.with_record(run_id, task_id, skipped_record(s0.record(run_id, task_id), depth));
        assert(s2.runs[run_id as int].tasks =~= target.runs[run_id as int].tasks);
        assert(s2.runs =~= target.runs);
        assert(s2 == target);
        backend.lemma_inv_gives_wf();
        lemma_skipped_steady(s0, s2, run_id, task_id);
    }
}

} // verus!
