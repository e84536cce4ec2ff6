//! Carrying the end of tasks on to the tasks that wait for them: each is put
//! into the queue or skipped as its trigger rule decides, and what is skipped
//! is carried on in turn.

use crate::backend::{Backend, BackendState, RunRecord, TaskRecord};
use crate::depth::{
    lemma_depth_cached, lemma_depths_read, lemma_same_depth, lemma_same_depths_chain, same_depths,
};
use crate::engine::{
    attempt_count, ended_upstreams_cached, engine_inv, engine_steady, fire, fired, queue_entry,
    run_settled, run_steady, skip, skipped_record, with_attempt_count,
};
use crate::graph::acyclic;
use crate::rules::{
    lemma_decided_stays, lemma_decision_kept, lemma_fire_means_upstreams_ended, run_decision,
    trigger_decision,
};
use crate::status::{is_terminal, Decision, TaskStatus};
use crate::task::OrderedQueuedTaskView;
use vstd::prelude::*;

verus! {

/// What has become of a task that waited: it waits on, or it was skipped
/// because its rule says so, with `skipped` cached as its depth, or it was
/// put into the queue for its first attempt, under the depth `depth`, because
/// its rule says so. A task that did not wait is as it was.
pub open spec fn task_settling(
    o: TaskRecord,
    n: TaskRecord,
    d: Decision,
    depth: usize,
    skipped: usize,
) -> bool {
    if o.status != TaskStatus::Pending {
        n == o
    } else {
        ||| n == o
        ||| d == Decision::Skip && n == skipped_record(o, skipped)
        ||| d == Decision::Fire && n == TaskRecord {
            status: TaskStatus::Queued,
            depth: Some(depth),
            ..with_attempt_count(o, 1)
        }
    }
}

/// The depth under which a task that waited is put into the queue: the one
/// that was cached for it, and else one more than the greatest depth that is
/// cached for its upstreams in the run, and 0 where it has none.
pub open spec fn settled_depth(o: TaskRecord, run: RunRecord, task: usize) -> usize {
    match o.depth {
        Some(cached) => cached,
        None => run.depth_over(task, (run.tasks.len() - 1) as nat, run.tasks.len()),
    }
}

/// Every upstream of the task has its depth cached.
pub open spec fn upstreams_cached(run: RunRecord, task: usize) -> bool {
    forall|up: usize| #[trigger] run.is_upstream(up, task) ==> run.tasks[up as int].depth is Some
}

/// `e` is the entry of a task of the run that waited and was put into the
/// queue.
pub open spec fn newly_queued(
    old_run: RunRecord,
    new_run: RunRecord,
    run: usize,
    e: OrderedQueuedTaskView,
    dag_name: Seq<char>,
    date: i64,
    now: i64,
) -> bool {
    let t = e.queued_task.task_id;
    &&& e.queued_task.run_id == run
    &&& t < old_run.tasks.len()
    &&& old_run.tasks[t as int].status == TaskStatus::Pending
    &&& new_run.tasks[t as int].status == TaskStatus::Queued
    &&& new_run.tasks[t as int].depth is Some
    &&& e == queue_entry(new_run.tasks[t as int].depth->0, run, t, dag_name, date, 1, now)
}

/// Nothing has changed outside the task records of the run and the queue.
pub open spec fn frame_kept(before: BackendState, after: BackendState, run: usize) -> bool {
    let old_run = before.runs[run as int];
    let new_run = after.runs[run as int];
    &&& after.runs.len() == before.runs.len()
    &&& forall|r: int|
        0 <= r < before.runs.len() && r != run ==> #[trigger] after.runs[r] == before.runs[r]
    &&& after.in_flight == before.in_flight
    &&& after.default_tasks == before.default_tasks
    &&& after.default_edges == before.default_edges
    &&& new_run == RunRecord { tasks: new_run.tasks, ..old_run }
    &&& new_run.tasks.len() == old_run.tasks.len()
}

/// Every task of the run is as it was, or was dealt with as its rule decides
/// in the run as it is now: a task that was skipped has the depth cached
/// that it had in the run as it was, and every upstream of a task that was
/// put into the queue has its depth cached. No task has another depth than
/// it had.
#[verifier::opaque]
pub open spec fn tasks_settling(old_run: RunRecord, new_run: RunRecord) -> bool {
    &&& same_depths(old_run, new_run)
    &&& forall|t: usize|
        t < old_run.tasks.len() ==> {
            &&& task_settling(
                old_run.tasks[t as int],
                #[trigger] new_run.tasks[t as int],
                run_decision(new_run, t),
                settled_depth(old_run.tasks[t as int], new_run, t),
                old_run.depth(t),
            )
            &&& old_run.tasks[t as int].status == TaskStatus::Pending
                && new_run.tasks[t as int].status == TaskStatus::Queued ==> upstreams_cached(
                new_run,
                t,
            )
        }
}

/// The queue holds what it held and one entry for each task of the run that
/// waited and was put in, and nothing else.
#[verifier::opaque]
pub open spec fn queue_settling(
    before: BackendState,
    after: BackendState,
    run: usize,
    dag_name: Seq<char>,
    date: i64,
    now: i64,
) -> bool {
    let old_run = before.runs[run as int];
    let new_run = after.runs[run as int];
    &&& forall|e: OrderedQueuedTaskView| #[trigger]
        before.queue.contains(e) ==> after.queue.contains(e)
    &&& forall|e: OrderedQueuedTaskView| #[trigger]
        after.queue.contains(e) ==> before.queue.contains(e) || newly_queued(
            old_run,
            new_run,
            run,
            e,
            dag_name,
            date,
            now,
        )
    &&& forall|t: usize|
        t < old_run.tasks.len() && old_run.tasks[t as int].status == TaskStatus::Pending && (
        #[trigger] new_run.tasks[t as int]).status == TaskStatus::Queued
            ==> new_run.tasks[t as int].depth is Some && after.queue.contains(
            queue_entry(new_run.tasks[t as int].depth->0, run, t, dag_name, date, 1, now),
        )
}

/// `after` is `before` but for tasks of the run that waited there and have
/// been skipped or put into the queue since, each as its rule decides in
/// `after`. The queue holds what it held and one entry for each task put in.
pub open spec fn settling(
    before: BackendState,
    after: BackendState,
    run: usize,
    dag_name: Seq<char>,
    date: i64,
    now: i64,
) -> bool {
    &&& frame_kept(before, after, run)
    &&& tasks_settling(before.runs[run as int], after.runs[run as int])
    &&& queue_settling(before, after, run, dag_name, date, now)
}

/// `after` is `before` once the end of tasks has been carried on as far as
/// it goes: every task of the run that waited has been dealt with as its rule
/// decides, and those that wait on have rules that have not decided.
pub open spec fn settled(
    before: BackendState,
    after: BackendState,
    run: usize,
    dag_name: Seq<char>,
    date: i64,
    now: i64,
) -> bool {
    &&& settling(before, after, run, dag_name, date, now)
    &&& run_settled(after.runs[run as int])
}

/// Some task of `work` is an upstream of `task`.
pub open spec fn has_upstream_in(run: RunRecord, work: Seq<usize>, task: usize) -> bool {
    exists|i: int| 0 <= i < work.len() && run.is_upstream(#[trigger] work[i], task)
}

/// Every task that waits although its rule has decided has an upstream in
/// `work`.
#[verifier::opaque]
pub open spec fn covered(run: RunRecord, work: Seq<usize>) -> bool {
    forall|t: usize|
        t < run.tasks.len() && (#[trigger] run.tasks[t as int]).status == TaskStatus::Pending
            && run_decision(run, t) != Decision::Wait ==> has_upstream_in(run, work, t)
}

/// Every task that waits although its rule has decided has an upstream in
/// `work` or is one of `rest`.
#[verifier::opaque]
spec fn covered_with(run: RunRecord, work: Seq<usize>, rest: Seq<usize>) -> bool {
    forall|t: usize|
        t < run.tasks.len() && (#[trigger] run.tasks[t as int]).status == TaskStatus::Pending
            && run_decision(run, t) != Decision::Wait ==> has_upstream_in(run, work, t)
            || rest.contains(t)
}

/// How many of the first `k` tasks of the run wait for their upstreams.
spec fn pending_below(run: RunRecord, k: nat) -> nat
    decreases k,
{
    if k == 0 {
        0
    } else {
        pending_below(run, (k - 1) as nat) + if k - 1 < run.tasks.len() && run.tasks[k
            - 1].status == TaskStatus::Pending {
            1nat
        } else {
            0nat
        }
    }
}

proof fn lemma_pending_same(before: RunRecord, after: RunRecord, task: usize, k: nat)
    requires
        after.tasks.len() == before.tasks.len(),
        forall|t: int| 0 <= t < before.tasks.len() && t != task
            ==> after.tasks[t].status == before.tasks[t].status,
        k <= task,
    ensures
        pending_below(after, k) == pending_below(before, k),
    decreases k,
{
    if k > 0 {
        lemma_pending_same(before, after, task, (k - 1) as nat);
    }
}

proof fn lemma_pending_drop(before: RunRecord, after: RunRecord, task: usize, k: nat)
    requires
        after.tasks.len() == before.tasks.len(),
        task < before.tasks.len(),
        forall|t: int| 0 <= t < before.tasks.len() && t != task
            ==> after.tasks[t].status == before.tasks[t].status,
        before.tasks[task as int].status == TaskStatus::Pending,
        after.tasks[task as int].status != TaskStatus::Pending,
        task < k,
    ensures
        pending_below(after, k) + 1 == pending_below(before, k),
    decreases k,
{
    if k - 1 == task {
        lemma_pending_same(before, after, task, (k - 1) as nat);
    } else {
        lemma_pending_drop(before, after, task, (k - 1) as nat);
    }
}

/// The record of a task that still waits is as it was at the start.
proof fn lemma_waiting_unchanged(old_run: RunRecord, cur_run: RunRecord, task: usize)
    requires
        tasks_settling(old_run, cur_run),
        task < old_run.tasks.len(),
        cur_run.tasks[task as int].status == TaskStatus::Pending,
    ensures
        cur_run.tasks[task as int] == old_run.tasks[task as int],
{
    reveal(tasks_settling);
    let o = old_run.tasks[task as int];
    let n = cur_run.tasks[task as int];
    assert(task_settling(
        o,
        n,
        run_decision(cur_run, task),
        settled_depth(o, cur_run, task),
        old_run.depth(task),
    ));
}

/// Between two runs that differ in the record of one task, which did not end
/// in either, every rule decides the same.
proof fn lemma_open_change_keeps_decisions(cur_run: RunRecord, new_run: RunRecord, task: usize)
    requires
        cur_run.wf(),
        task < cur_run.tasks.len(),
        new_run == cur_run.with_task(task, new_run.tasks[task as int]),
        new_run.tasks[task as int].task == cur_run.tasks[task as int].task,
        !is_terminal(cur_run.tasks[task as int].status),
        !is_terminal(new_run.tasks[task as int].status),
    ensures
        forall|t: usize|
            t < cur_run.tasks.len() ==> run_decision(new_run, t) == run_decision(cur_run, t),
{
    assert forall|t: usize| t < cur_run.tasks.len() implies run_decision(new_run, t)
        == run_decision(cur_run, t) by {
        assert forall|up: usize| #[trigger] cur_run.is_upstream(up, t) implies {
            let b = cur_run.tasks[up as int].status;
            let a = new_run.tasks[up as int].status;
            a == b || (!is_terminal(a) && !is_terminal(b))
        } by {
            assert(cur_run.edges.contains((up, t)));
            if up != task {
                assert(new_run.tasks[up as int] == cur_run.tasks[up as int]);
            }
        }
        if t != task {
            assert(new_run.tasks[t as int] == cur_run.tasks[t as int]);
        }
        lemma_decision_kept(cur_run, new_run, t);
    }
}

/// Between two runs that differ in the record of one task, which waited and
/// has ended, every rule that had decided decides the same, and so does
/// every rule of a task that the changed one is no upstream of.
pub proof fn lemma_ended_change_keeps_decisions(cur_run: RunRecord, new_run: RunRecord, task: usize)
    requires
        cur_run.wf(),
        task < cur_run.tasks.len(),
        new_run == cur_run.with_task(task, new_run.tasks[task as int]),
        new_run.tasks[task as int].task == cur_run.tasks[task as int].task,
        !is_terminal(cur_run.tasks[task as int].status),
    ensures
        forall|t: usize|
            t < cur_run.tasks.len() && run_decision(cur_run, t) != Decision::Wait ==> run_decision(
                new_run,
                t,
            ) == run_decision(cur_run, t),
        forall|t: usize|
            t < cur_run.tasks.len() && !cur_run.is_upstream(task, t) ==> run_decision(new_run, t)
                == run_decision(cur_run, t),
{
    assert forall|t: usize|
        t < cur_run.tasks.len() && run_decision(cur_run, t) != Decision::Wait implies run_decision(
            new_run,
            t,
        ) == run_decision(cur_run, t) by {
        assert forall|up: usize| #[trigger]
            cur_run.is_upstream(up, t) && is_terminal(
                cur_run.tasks[up as int].status,
            ) implies new_run.tasks[up as int].status == cur_run.tasks[up as int].status by {
            assert(cur_run.edges.contains((up, t)));
            if up != task {
                assert(new_run.tasks[up as int] == cur_run.tasks[up as int]);
            }
        }
        if t != task {
            assert(new_run.tasks[t as int] == cur_run.tasks[t as int]);
        }
        lemma_decided_stays(cur_run, new_run, t);
    }
    assert forall|t: usize|
        t < cur_run.tasks.len() && !cur_run.is_upstream(task, t) implies run_decision(new_run, t)
            == run_decision(cur_run, t) by {
        assert forall|up: usize| #[trigger] cur_run.is_upstream(up, t) implies {
            let b = cur_run.tasks[up as int].status;
            let a = new_run.tasks[up as int].status;
            a == b || (!is_terminal(a) && !is_terminal(b))
        } by {
            assert(cur_run.edges.contains((up, t)));
            assert(up != task);
            assert(new_run.tasks[up as int] == cur_run.tasks[up as int]);
        }
        if t != task {
            assert(new_run.tasks[t as int] == cur_run.tasks[t as int]);
        }
        lemma_decision_kept(cur_run, new_run, t);
    }
}

/// The tasks go on settling when one that waited is dealt with as its rule
/// decides, given that no rule that had decided decides otherwise now.
proof fn lemma_tasks_settling_step(
    old_run: RunRecord,
    cur_run: RunRecord,
    new_run: RunRecord,
    task: usize,
)
    requires
        cur_run.wf(),
        tasks_settling(old_run, cur_run),
        cur_run.tasks.len() == old_run.tasks.len(),
        task < cur_run.tasks.len(),
        cur_run.tasks[task as int].status == TaskStatus::Pending,
        new_run == cur_run.with_task(task, new_run.tasks[task as int]),
        task_settling(
            cur_run.tasks[task as int],
            new_run.tasks[task as int],
            run_decision(new_run, task),
            settled_depth(cur_run.tasks[task as int], new_run, task),
            cur_run.depth(task),
        ),
        same_depths(cur_run, new_run),
        new_run.tasks[task as int].status == TaskStatus::Queued ==> upstreams_cached(
            new_run,
            task,
        ),
        forall|t: usize|
            t < cur_run.tasks.len() && run_decision(cur_run, t) != Decision::Wait ==> run_decision(
                new_run,
                t,
            ) == run_decision(cur_run, t),
    ensures
        tasks_settling(old_run, new_run),
{
    reveal(tasks_settling);
    lemma_waiting_unchanged(old_run, cur_run, task);
    lemma_same_depth(old_run, cur_run, task);
    lemma_same_depths_chain(old_run, cur_run, new_run);
    assert forall|t: usize| t < old_run.tasks.len() implies {
        &&& task_settling(
            old_run.tasks[t as int],
            #[trigger] new_run.tasks[t as int],
            run_decision(new_run, t),
            settled_depth(old_run.tasks[t as int], new_run, t),
            old_run.depth(t),
        )
        &&& old_run.tasks[t as int].status == TaskStatus::Pending
            && new_run.tasks[t as int].status == TaskStatus::Queued ==> upstreams_cached(
            new_run,
            t,
        )
    } by {
        if t != task {
            let o = old_run.tasks[t as int];
            assert(new_run.tasks[t as int] == cur_run.tasks[t as int]);
            assert(task_settling(
                o,
                cur_run.tasks[t as int],
                run_decision(cur_run, t),
                settled_depth(o, cur_run, t),
                old_run.depth(t),
            ));
            if o.status == TaskStatus::Pending && cur_run.tasks[t as int].status
                == TaskStatus::Queued {
                // the upstreams of a task that was put into the queue have
                // ended, so the task that waited until now is none of them
                assert(run_decision(cur_run, t) == Decision::Fire);
                lemma_fire_means_upstreams_ended(cur_run, t);
                assert(upstreams_cached(cur_run, t));
                assert forall|up: usize| #[trigger] cur_run.is_upstream(up, t) implies up
                    < cur_run.tasks.len() && cur_run.tasks[up as int].depth is Some
                    && new_run.tasks[up as int].depth == cur_run.tasks[up as int].depth by {
                    assert(cur_run.edges.contains((up, t)));
                    assert(is_terminal(cur_run.tasks[up as int].status));
                    assert(up != task);
                    assert(new_run.tasks[up as int] == cur_run.tasks[up as int]);
                }
                lemma_depth_over_kept(
                    cur_run,
                    new_run,
                    t,
                    (cur_run.tasks.len() - 1) as nat,
                    cur_run.tasks.len(),
                );
                assert forall|up: usize| #[trigger] new_run.is_upstream(up, t) implies
                    new_run.tasks[up as int].depth is Some by {
                    assert(cur_run.is_upstream(up, t));
                }
            }
        }
    }
}

/// The greatest depth over the upstreams of a task is the same in two runs
/// with the same edges in which the depth of each of them is cached alike.
proof fn lemma_depth_over_kept(a: RunRecord, b: RunRecord, task: usize, fuel: nat, below: nat)
    requires
        a.tasks.len() == b.tasks.len(),
        a.edges == b.edges,
        forall|up: usize|
            #[trigger] a.is_upstream(up, task) ==> up < a.tasks.len() && a.tasks[up as int].depth
                is Some && b.tasks[up as int].depth == a.tasks[up as int].depth,
    ensures
        a.depth_over(task, fuel, below) == b.depth_over(task, fuel, below),
    decreases below,
{
    if below > 0 {
        lemma_depth_over_kept(a, b, task, fuel, (below - 1) as nat);
        let up = (below - 1) as usize;
        if below - 1 <= usize::MAX && a.is_upstream(up, task) {
            assert(b.is_upstream(up, task));
            assert(a.depth_within(up, fuel) == a.tasks[up as int].depth->0);
            assert(b.depth_within(up, fuel) == b.tasks[up as int].depth->0);
        }
    }
}

/// The queue goes on settling when a task that waited is put in.
proof fn lemma_queue_settling_fire(
    s0: BackendState,
    cur: BackendState,
    next: BackendState,
    run: usize,
    task: usize,
    depth: usize,
    dag_name: Seq<char>,
    date: i64,
    now: i64,
)
    requires
        queue_settling(s0, cur, run, dag_name, date, now),
        s0.runs[run as int].tasks.len() == cur.runs[run as int].tasks.len(),
        task < cur.runs[run as int].tasks.len(),
        cur.runs[run as int].tasks[task as int].status == TaskStatus::Pending,
        s0.runs[run as int].tasks[task as int].status == TaskStatus::Pending,
        next.runs[run as int] == cur.runs[run as int].with_task(
            task,
            next.runs[run as int].tasks[task as int],
        ),
        next.runs[run as int].tasks[task as int].status == TaskStatus::Queued,
        next.runs[run as int].tasks[task as int].depth == Some(depth),
        crate::engine::queue_gained(
            cur.queue,
            next.queue,
            queue_entry(depth, run, task, dag_name, date, 1, now),
        ),
    ensures
        queue_settling(s0, next, run, dag_name, date, now),
{
    reveal(queue_settling);
    reveal(crate::engine::queue_gained);
    let old_run = s0.runs[run as int];
    let cur_run = cur.runs[run as int];
    let new_run = next.runs[run as int];
    let e = queue_entry(depth, run, task, dag_name, date, 1, now);
    let pos = choose|pos: int|
        0 <= pos <= cur.queue.len() && next.queue == #[trigger] cur.queue.insert(pos, e);
    assert forall|x: OrderedQueuedTaskView| #[trigger] cur.queue.contains(x) implies
        next.queue.contains(
        x,
    ) by {
        let i = choose|i: int| 0 <= i < cur.queue.len() && cur.queue[i] == x;
        if i < pos {
            assert(next.queue[i] == x);
        } else {
            assert(next.queue[i + 1] == x);
        }
    }
    assert(next.queue[pos] == e);
    assert forall|x: OrderedQueuedTaskView| #[trigger] s0.queue.contains(x) implies
        next.queue.contains(
        x,
    ) by {
        assert(cur.queue.contains(x));
    }
    assert forall|x: OrderedQueuedTaskView| #[trigger]
        next.queue.contains(x) implies s0.queue.contains(x) || newly_queued(
        old_run,
        new_run,
        run,
        x,
        dag_name,
        date,
        now,
    ) by {
        let i = choose|i: int| 0 <= i < next.queue.len() && next.queue[i] == x;
        if i == pos {
            assert(newly_queued(old_run, new_run, run, x, dag_name, date, now));
        } else {
            let k = if i < pos {
                i
            } else {
                i - 1
            };
            assert(cur.queue[k] == x);
            assert(cur.queue.contains(x));
            if !s0.queue.contains(x) {
                assert(newly_queued(old_run, cur_run, run, x, dag_name, date, now));
                let t = x.queued_task.task_id;
                assert(t != task);
                assert(new_run.tasks[t as int] == cur_run.tasks[t as int]);
            }
        }
    }
    assert forall|t: usize|
        t < old_run.tasks.len() && old_run.tasks[t as int].status == TaskStatus::Pending && (
        #[trigger] new_run.tasks[t as int]).status == TaskStatus::Queued implies
            new_run.tasks[t as int].depth is Some
        && next.queue.contains(
        queue_entry(new_run.tasks[t as int].depth->0, run, t, dag_name, date, 1, now),
    ) by {
        if t != task {
            assert(new_run.tasks[t as int] == cur_run.tasks[t as int]);
            assert(cur.queue.contains(
                queue_entry(cur_run.tasks[t as int].depth->0, run, t, dag_name, date, 1, now),
            ));
        } else {
            assert(next.queue.contains(e));
        }
    }
}

/// The queue goes on settling when a task that waited is skipped, or ends
/// otherwise without the queue being touched.
proof fn lemma_queue_settling_skip(
    s0: BackendState,
    cur: BackendState,
    next: BackendState,
    run: usize,
    task: usize,
    dag_name: Seq<char>,
    date: i64,
    now: i64,
)
    requires
        queue_settling(s0, cur, run, dag_name, date, now),
        s0.runs[run as int].tasks.len() == cur.runs[run as int].tasks.len(),
        task < cur.runs[run as int].tasks.len(),
        cur.runs[run as int].tasks[task as int].status == TaskStatus::Pending,
        next.runs[run as int] == cur.runs[run as int].with_task(
            task,
            next.runs[run as int].tasks[task as int],
        ),
        next.runs[run as int].tasks[task as int].status != TaskStatus::Queued,
        next.queue == cur.queue,
    ensures
        queue_settling(s0, next, run, dag_name, date, now),
{
    reveal(queue_settling);
    let old_run = s0.runs[run as int];
    let cur_run = cur.runs[run as int];
    let new_run = next.runs[run as int];
    assert forall|x: OrderedQueuedTaskView| #[trigger]
        next.queue.contains(x) implies s0.queue.contains(x) || newly_queued(
        old_run,
        new_run,
        run,
        x,
        dag_name,
        date,
        now,
    ) by {
        if !s0.queue.contains(x) {
            assert(newly_queued(old_run, cur_run, run, x, dag_name, date, now));
            let t = x.queued_task.task_id;
            assert(t != task);
            assert(new_run.tasks[t as int] == cur_run.tasks[t as int]);
        }
    }
    assert forall|t: usize|
        t < old_run.tasks.len() && old_run.tasks[t as int].status == TaskStatus::Pending && (
        #[trigger] new_run.tasks[t as int]).status == TaskStatus::Queued implies
            new_run.tasks[t as int].depth is Some
        && next.queue.contains(
        queue_entry(new_run.tasks[t as int].depth->0, run, t, dag_name, date, 1, now),
    ) by {
        assert(t != task);
        assert(new_run.tasks[t as int] == cur_run.tasks[t as int]);
    }
}

/// Putting a waiting task whose rule says so into the queue is a step of
/// settling, and leaves every rule deciding what it decided.
proof fn lemma_settling_fire(
    s0: BackendState,
    cur: BackendState,
    next: BackendState,
    run: usize,
    task: usize,
    dag_name: Seq<char>,
    date: i64,
    now: i64,
)
    requires
        s0.has_run(run),
        settling(s0, cur, run, dag_name, date, now),
        engine_steady(cur),
        cur.has_task(run, task),
        cur.status(run, task) == TaskStatus::Pending,
        run_decision(cur.runs[run as int], task) == Decision::Fire,
        fired(cur, next, run, task, dag_name, date, now),
    ensures
        settling(s0, next, run, dag_name, date, now),
        forall|t: usize|
            t < cur.runs[run as int].tasks.len() ==> run_decision(next.runs[run as int], t)
                == run_decision(cur.runs[run as int], t),
        next.runs[run as int] == cur.runs[run as int].with_task(
            task,
            next.runs[run as int].tasks[task as int],
        ),
        next.runs[run as int].tasks[task as int].status == TaskStatus::Queued,
{
    let old_run = s0.runs[run as int];
    let cur_run = cur.runs[run as int];
    let new_run = next.runs[run as int];
    lemma_waiting_unchanged(old_run, cur_run, task);
    crate::engine::lemma_steady_record(cur, run, task);
    let o = cur_run.tasks[task as int];
    let depth = cur_run.depth(task);
    let n = TaskRecord {
        status: TaskStatus::Queued,
        depth: Some(depth),
        ..with_attempt_count(o, 1)
    };
    assert(attempt_count(o) == 0);
    assert(new_run.tasks[task as int] == n);
    assert(new_run.tasks =~= cur_run.tasks.update(task as int, n));
    assert(new_run == cur_run.with_task(task, n));
    lemma_open_change_keeps_decisions(cur_run, new_run, task);
    // the upstreams of the task have ended and their depth is cached
    lemma_fire_means_upstreams_ended(cur_run, task);
    assert(ended_upstreams_cached(cur_run)) by {
        reveal(run_steady);
        assert(run_steady(cur_run));
    }
    assert forall|up: usize| #[trigger] cur_run.is_upstream(up, task) implies up
        < cur_run.tasks.len() && cur_run.tasks[up as int].depth is Some
        && new_run.tasks[up as int].depth == cur_run.tasks[up as int].depth by {
        assert(cur_run.edges.contains((up, task)));
        assert(is_terminal(cur_run.tasks[up as int].status));
        assert(up != task);
        assert(new_run.tasks[up as int] == cur_run.tasks[up as int]);
    }
    lemma_depth_over_kept(
        cur_run,
        new_run,
        task,
        (cur_run.tasks.len() - 1) as nat,
        cur_run.tasks.len(),
    );
    assert(depth == settled_depth(o, new_run, task));
    assert forall|up: usize| #[trigger] new_run.is_upstream(up, task) implies
        new_run.tasks[up as int].depth is Some by {
        assert(cur_run.is_upstream(up, task));
    }
    assert(task_settling(
        o,
        n,
        Decision::Fire,
        settled_depth(o, new_run, task),
        cur_run.depth(task),
    ));
    assert(acyclic(cur_run.edges)) by {
        reveal(run_steady);
        assert(run_steady(cur_run));
    }
    lemma_depth_cached(cur_run, new_run, task);
    lemma_tasks_settling_step(old_run, cur_run, new_run, task);
    lemma_queue_settling_fire(s0, cur, next, run, task, depth, dag_name, date, now);
    assert forall|r: int| 0 <= r < s0.runs.len() && r != run implies #[trigger] next.runs[r]
        == s0.runs[r] by {
        assert(next.runs[r] == cur.runs[r]);
    }
}

/// Skipping a waiting task whose rule says so is a step of settling, and
/// leaves the rules of the tasks deciding what they decided, but for those of
/// its downstreams that had not decided.
proof fn lemma_settling_skip(
    s0: BackendState,
    cur: BackendState,
    next: BackendState,
    run: usize,
    task: usize,
    dag_name: Seq<char>,
    date: i64,
    now: i64,
)
    requires
        s0.has_run(run),
        settling(s0, cur, run, dag_name, date, now),
        engine_steady(cur),
        cur.has_task(run, task),
        cur.status(run, task) == TaskStatus::Pending,
        run_decision(cur.runs[run as int], task) == Decision::Skip,
        next == cur.with_record(
            run,
            task,
            skipped_record(cur.record(run, task), cur.runs[run as int].depth(task)),
        ),
    ensures
        settling(s0, next, run, dag_name, date, now),
        forall|t: usize|
            t < cur.runs[run as int].tasks.len() && !cur.runs[run as int].is_upstream(task, t)
                ==> run_decision(next.runs[run as int], t) == run_decision(
                cur.runs[run as int],
                t,
            ),
        next.runs[run as int] == cur.runs[run as int].with_task(
            task,
            next.runs[run as int].tasks[task as int],
        ),
        next.runs[run as int].tasks[task as int].status == TaskStatus::Skipped,
{
    let old_run = s0.runs[run as int];
    let cur_run = cur.runs[run as int];
    let new_run = next.runs[run as int];
    crate::engine::lemma_steady_record(cur, run, task);
    let o = cur_run.tasks[task as int];
    let n = skipped_record(o, cur_run.depth(task));
    assert(new_run.tasks[task as int] == n);
    assert(new_run == cur_run.with_task(task, n));
    lemma_ended_change_keeps_decisions(cur_run, new_run, task);
    assert(task_settling(
        o,
        n,
        Decision::Skip,
        settled_depth(o, new_run, task),
        cur_run.depth(task),
    ));
    assert(acyclic(cur_run.edges)) by {
        reveal(run_steady);
        assert(run_steady(cur_run));
    }
    lemma_depth_cached(cur_run, new_run, task);
    lemma_tasks_settling_step(old_run, cur_run, new_run, task);
    lemma_queue_settling_skip(s0, cur, next, run, task, dag_name, date, now);
    assert forall|r: int| 0 <= r < s0.runs.len() && r != run implies #[trigger] next.runs[r]
        == s0.runs[r] by {
        assert(next.runs[r] == cur.runs[r]);
    }
}

/// Nothing has happened yet: a state is settling from itself.
proof fn lemma_settling_start(s0: BackendState, run: usize, dag_name: Seq<char>, date: i64,
    now: i64)
    requires
        s0.has_run(run),
    ensures
        settling(s0, s0, run, dag_name, date, now),
{
    reveal(tasks_settling);
    reveal(queue_settling);
    lemma_depths_read(s0.runs[run as int], s0.runs[run as int]);
}

/// With the last of `full` taken as the seed, what `full` covered is covered
/// by the rest of it and the downstreams of the seed.
proof fn lemma_cover_seed(
    run: RunRecord,
    full: Seq<usize>,
    work: Seq<usize>,
    seed: usize,
    downstream: Seq<usize>,
)
    requires
        covered(run, full),
        full.len() > 0,
        work == full.drop_last(),
        seed == full.last(),
        forall|d: usize| #[trigger] run.is_upstream(seed, d) ==> downstream.contains(d),
    ensures
        covered_with(run, work, downstream),
{
    assert forall|t: usize|
        t < run.tasks.len() && (#[trigger] run.tasks[t as int]).status == TaskStatus::Pending
            && run_decision(run, t) != Decision::Wait implies has_upstream_in(run, work, t)
        || downstream.contains(t) by {
        assert(has_upstream_in(run, full, t)) by {
            reveal(covered);
        }
        let i = choose|i: int| 0 <= i < full.len() && run.is_upstream(#[trigger] full[i], t);
        if i < work.len() {
            assert(work[i] == full[i]);
            assert(run.is_upstream(work[i], t));
            assert(has_upstream_in(run, work, t));
        } else {
            assert(full[i] == seed);
            assert(run.is_upstream(seed, t));
            assert(downstream.contains(t));
        }
    }
    assert(covered_with(run, work, downstream)) by {
        reveal(covered_with);
    }
}

/// One of `rest` has been looked at: it does not wait, or its rule has not
/// decided, and nothing has changed.
proof fn lemma_cover_pass(run: RunRecord, work: Seq<usize>, rest: Seq<usize>)
    requires
        covered_with(run, work, rest),
        rest.len() > 0,
        rest[0] < run.tasks.len() ==> run.tasks[rest[0] as int].status != TaskStatus::Pending
            || run_decision(run, rest[0]) == Decision::Wait,
    ensures
        covered_with(run, work, rest.drop_first()),
{
    reveal(covered_with);
    assert forall|t: usize|
        t < run.tasks.len() && (#[trigger] run.tasks[t as int]).status == TaskStatus::Pending
            && run_decision(run, t) != Decision::Wait implies has_upstream_in(run, work, t)
        || rest.drop_first().contains(t) by {
        if rest.contains(t) {
            let i = choose|i: int| 0 <= i < rest.len() && rest[i] == t;
            assert(i != 0);
            assert(rest.drop_first()[i - 1] == t);
        }
    }
}

/// The first of `rest` has been dealt with, and no rule decides otherwise
/// for it, unless the task was skipped and is now in `work`.
proof fn lemma_cover_step(
    cur_run: RunRecord,
    new_run: RunRecord,
    work: Seq<usize>,
    new_work: Seq<usize>,
    rest: Seq<usize>,
    skipped: bool,
)
    requires
        covered_with(cur_run, work, rest),
        rest.len() > 0,
        rest[0] < cur_run.tasks.len(),
        new_run == cur_run.with_task(rest[0], new_run.tasks[rest[0] as int]),
        new_run.tasks[rest[0] as int].status != TaskStatus::Pending,
        skipped ==> new_work == work.push(rest[0]),
        !skipped ==> new_work == work,
        forall|t: usize|
            t < cur_run.tasks.len() && (!skipped || !cur_run.is_upstream(rest[0], t))
                ==> run_decision(new_run, t) == run_decision(cur_run, t),
    ensures
        covered_with(new_run, new_work, rest.drop_first()),
{
    reveal(covered_with);
    let d = rest[0];
    assert forall|t: usize|
        t < new_run.tasks.len() && (#[trigger] new_run.tasks[t as int]).status
            == TaskStatus::Pending && run_decision(new_run, t) != Decision::Wait implies
                has_upstream_in(
        new_run,
        new_work,
        t,
    ) || rest.drop_first().contains(t) by {
        assert(t != d);
        assert(new_run.tasks[t as int] == cur_run.tasks[t as int]);
        if skipped && cur_run.is_upstream(d, t) {
            assert(new_work[work.len() as int] == d);
            assert(new_run.is_upstream(new_work[work.len() as int], t));
        } else {
            assert(run_decision(new_run, t) == run_decision(cur_run, t));
            assert(has_upstream_in(cur_run, work, t) || rest.contains(t));
            if has_upstream_in(cur_run, work, t) {
                let i = choose|i: int| 0 <= i < work.len()
                    && cur_run.is_upstream(#[trigger] work[i], t);
                assert(new_work[i] == work[i]);
                assert(new_run.is_upstream(new_work[i], t));
            } else {
                let i = choose|i: int| 0 <= i < rest.len() && rest[i] == t;
                assert(i != 0);
                assert(rest.drop_first()[i - 1] == t);
            }
        }
    }
}

/// Once a task that waited has ended and stands in `work`, `work` covers
/// what it covered and what the end of the task has decided.
pub proof fn lemma_cover_ended(cur_run: RunRecord, new_run: RunRecord, work: Seq<usize>,
    task: usize)
    requires
        cur_run.wf(),
        covered(cur_run, work),
        task < cur_run.tasks.len(),
        new_run == cur_run.with_task(task, new_run.tasks[task as int]),
        new_run.tasks[task as int].task == cur_run.tasks[task as int].task,
        !is_terminal(cur_run.tasks[task as int].status),
        new_run.tasks[task as int].status != TaskStatus::Pending,
    ensures
        covered(new_run, work.push(task)),
{
    lemma_ended_change_keeps_decisions(cur_run, new_run, task);
    let grown = work.push(task);
    assert forall|t: usize|
        t < new_run.tasks.len() && (#[trigger] new_run.tasks[t as int]).status
            == TaskStatus::Pending && run_decision(new_run, t) != Decision::Wait implies
                has_upstream_in(
        new_run,
        grown,
        t,
    ) by {
        assert(t != task);
        assert(new_run.tasks[t as int] == cur_run.tasks[t as int]);
        if cur_run.is_upstream(task, t) {
            assert(grown[work.len() as int] == task);
            assert(new_run.is_upstream(grown[work.len() as int], t));
        } else {
            assert(run_decision(new_run, t) == run_decision(cur_run, t));
            assert(has_upstream_in(cur_run, work, t)) by {
                reveal(covered);
            }
            let i = choose|i: int| 0 <= i < work.len()
                && cur_run.is_upstream(#[trigger] work[i], t);
            assert(grown[i] == work[i]);
            assert(new_run.is_upstream(grown[i], t));
        }
    }
    assert(covered(new_run, grown)) by {
        reveal(covered);
    }
}

/// A settled run is covered by nothing.
pub proof fn lemma_settled_covered(run: RunRecord)
    requires
        run_settled(run),
    ensures
        covered(run, Seq::<usize>::empty()),
{
    reveal(covered);
    reveal(run_settled);
}

/// With none of the downstreams left to look at, `work` covers alone.
proof fn lemma_cover_done(run: RunRecord, work: Seq<usize>, rest: Seq<usize>)
    requires
        covered_with(run, work, rest),
        rest.len() == 0,
    ensures
        covered(run, work),
{
    reveal(covered);
    reveal(covered_with);
    assert forall|t: usize|
        t < run.tasks.len() && (#[trigger] run.tasks[t as int]).status == TaskStatus::Pending
            && run_decision(run, t) != Decision::Wait implies has_upstream_in(run, work, t) by {
        assert(!rest.contains(t));
    }
}

/// With nothing left to carry on, the run is settled.
proof fn lemma_cover_empty(s0: BackendState, fin: BackendState, run: usize)
    requires
        covered(fin.runs[run as int], Seq::<usize>::empty()),
        frame_kept(s0, fin, run),
        s0.has_run(run),
        forall|r: int| 0 <= r < s0.runs.len() && r != run ==> run_settled(#[trigger] s0.runs[r]),
    ensures
        forall|r: int| 0 <= r < fin.runs.len() ==> run_settled(#[trigger] fin.runs[r]),
{
    reveal(covered);
    reveal(run_settled);
    let r0 = fin.runs[run as int];
    assert forall|t: usize|
        t < r0.tasks.len() && (#[trigger] r0.tasks[t as int]).status
            == TaskStatus::Pending implies run_decision(r0, t) == Decision::Wait by {
        if run_decision(r0, t) != Decision::Wait {
            assert(has_upstream_in(r0, Seq::<usize>::empty(), t));
        }
    }
    assert forall|r: int| 0 <= r < fin.runs.len() implies run_settled(#[trigger] fin.runs[r]) by {
        if r != run {
            assert(fin.runs[r] == s0.runs[r]);
        }
    }
}

/// A downstream of a task of the run is a task of the run.
proof fn lemma_downstream_exists(state: BackendState, run: usize, up: usize, down: usize)
    requires
        state.wf(),
        state.has_run(run),
        state.runs[run as int].is_upstream(up, down),
    ensures
        state.has_task(run, down),
{
    assert(state.runs[run as int].wf());
    assert(state.runs[run as int].edges.contains((up, down)));
}

/// Carries the end of the tasks in `seeds` on to the tasks of the run that
/// wait: each downstream that waits is put into the queue or skipped as its
/// rule decides, and what is skipped is carried on in turn.
pub fn settle<B: Backend>(
    backend: &mut B,
    run_id: usize,
    seeds: Vec<usize>,
    dag_name: &str,
    date: i64,
    now: i64,
)
    requires
        old(backend).inv(),
        engine_steady(old(backend).state()),
        old(backend).state().has_run(run_id),
        forall|r: int|
            0 <= r < old(backend).state().runs.len() && r != run_id ==> run_settled(
                #[trigger] old(backend).state().runs[r],
            ),
        covered(old(backend).state().runs[run_id as int], seeds@),
    ensures
        final(backend).inv(),
        engine_inv(final(backend).state()),
        settled(old(backend).state(), final(backend).state(), run_id, dag_name@, date, now),
{
    let ghost s0 = backend.state();
    let mut work = seeds;
    proof {
        lemma_settling_start(s0, run_id, dag_name@, date, now);
    }
    while work.len() > 0
        invariant
            backend.inv(),
            engine_steady(backend.state()),
            s0.has_run(run_id),
            settling(s0, backend.state(), run_id, dag_name@, date, now),
            covered(backend.state().runs[run_id as int], work@),
        decreases
                2 * pending_below(
                    backend.state().runs[run_id as int],
                    backend.state().runs[run_id as int].tasks.len(),
                ) + work.len(),
    {
        let ghost at_start = 2 * pending_below(
            backend.state().runs[run_id as int],
            backend.state().runs[run_id as int].tasks.len(),
        ) + work.len();
        let ghost full = work@;
        let seed = work.pop().unwrap();
        let downstream = backend.get_downstream(run_id, seed);
        proof {
            assert(work@ =~= full.drop_last());
            lemma_cover_seed(backend.state().runs[run_id as int], full, work@, seed, downstream@);
            assert(downstream@.subrange(0, downstream@.len() as int) =~= downstream@);
        }
        let mut j: usize = 0;
        while j < downstream.len()
            invariant
                j <= downstream.len(),
                backend.inv(),
                engine_steady(backend.state()),
                s0.has_run(run_id),
                settling(s0, backend.state(), run_id, dag_name@, date, now),
                forall|d: usize|
                    downstream@.contains(d) ==> backend.state().runs[run_id as int].is_upstream(
                        seed,
                        d,
                    ),
                covered_with(
                    backend.state().runs[run_id as int],
                    work@,
                    downstream@.subrange(j as int, downstream@.len() as int),
                ),
                2 * pending_below(
                    backend.state().runs[run_id as int],
                    backend.state().runs[run_id as int].tasks.len(),
                ) + work.len() < at_start,
            decreases downstream.len() - j,
        {
            let d = downstream[j];
            let ghost cur = backend.state();
            let ghost cur_run = cur.runs[run_id as int];
            let ghost rest = downstream@.subrange(j as int, downstream@.len() as int);
            let ghost before_push = work@;
            proof {
                assert(downstream@.contains(d));
                assert(rest[0] == d);
                assert(rest.drop_first() =~= downstream@.subrange(
                    j + 1,
                    downstream@.len() as int,
                ));
                assert(cur.has_task(run_id, d)) by {
                    backend.lemma_inv_gives_wf();
                    lemma_downstream_exists(cur, run_id, seed, d);
                }
            }
            let status = backend.get_task_status(run_id, d);
            let mut decision = Decision::Wait;
            if status == TaskStatus::Pending {
                decision = trigger_decision(backend, run_id, d);
            }
            match decision {
                Decision::Fire => {
                    proof {
                        lemma_fire_means_upstreams_ended(cur_run, d);
                    }
                    fire(backend, run_id, d, dag_name, date, now);
                    proof {
                        let next = backend.state();
                        let new_run = next.runs[run_id as int];
                        lemma_settling_fire(s0, cur, next, run_id, d, dag_name@, date, now);
                        lemma_pending_drop(cur_run, new_run, d, cur_run.tasks.len());
                        lemma_cover_step(cur_run, new_run, before_push, work@, rest, false);
                    }
                },
                Decision::Skip => {
                    skip(backend, run_id, d);
                    work.push(d);
                    proof {
                        let next = backend.state();
                        let new_run = next.runs[run_id as int];
                        lemma_settling_skip(s0, cur, next, run_id, d, dag_name@, date, now);
                        lemma_pending_drop(cur_run, new_run, d, cur_run.tasks.len());
                        lemma_cover_step(cur_run, new_run, before_push, work@, rest, true);
                    }
                },
                Decision::Wait => {
                    proof {
                        lemma_cover_pass(cur_run, work@, rest);
                    }
                },
            }
            j += 1;
        }
        proof {
            lemma_cover_done(
                backend.state().runs[run_id as int],
                work@,
                downstream@.subrange(j as int, downstream@.len() as int),
            );
        }
    }
    proof {
        assert(work@ =~= Seq::<usize>::empty());
        lemma_cover_empty(s0, backend.state(), run_id);
    }
}

} // verus!
