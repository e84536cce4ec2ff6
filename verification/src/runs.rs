//! Starting a run: its tasks and edges are made from the defaults of the
//! pipeline, and the tasks without upstreams are put into the queue.

use crate::backend::{Backend, BackendState, RunRecord, TaskRecord};
use crate::engine::{
    attempt_count, engine_inv, engine_steady, fire, fired, queue_entry, queue_gained, queues_ok,
    record_ok, run_settled, run_steady, started, with_attempt_count,
};
use crate::graph::{acyclic, has_no_cycle, ranked};
use crate::json::{Json, JsonValue};
use crate::rules::{run_decision, run_satisfied, run_unsatisfiable, upstreams_all_terminal};
use crate::settle::frame_kept;
use crate::status::{is_terminal, Decision, TaskStatus};
use crate::task::{tasks_view, OrderedQueuedTaskView, QueuedTaskView, Task, TaskView};
use vstd::prelude::*;

verus! {

/// Why a run could not be started.
#[derive(Clone, Copy, Debug, PartialEq, Eq, Structural)]
pub enum RunError {
    /// The run has tasks already.
    NotEmpty,
    /// A default task does not carry its place as id or has no attempt, or a
    /// default edge names a task that is not there.
    InvalidDag,
}

/// The default tasks carry their place as id and have at least one attempt,
/// and the default edges join default tasks and have no cycle.
pub open spec fn defaults_ok(tasks: Seq<TaskView>, edges: Set<(usize, usize)>) -> bool {
    &&& forall|i: int|
        0 <= i < tasks.len() ==> (#[trigger] tasks[i]).id == i && tasks[i].options.max_attempts >= 1
    &&& forall|e: (usize, usize)| #[trigger] edges.contains(e) ==> e.0 < tasks.len()
        && e.1 < tasks.len()
    &&& acyclic(edges)
}

/// The task has no upstream.
pub open spec fn is_source(edges: Set<(usize, usize)>, task: usize) -> bool {
    forall|up: usize| !edges.contains((up, task))
}

/// The run with the first `made` of the default tasks, `edges`, and the
/// given trigger parameters.
pub open spec fn populating(
    run: RunRecord,
    tasks: Seq<TaskView>,
    made: nat,
    edges: Set<(usize, usize)>,
    params: Option<JsonValue>,
) -> RunRecord {
    RunRecord {
        tasks: Seq::new(made, |t: int| TaskRecord::fresh(tasks[t])),
        edges,
        trigger_params: params,
        ..run
    }
}

/// The record of a task without upstreams once it is in the queue for its
/// first attempt.
pub open spec fn queued_source(rec: TaskRecord) -> TaskRecord {
    TaskRecord { status: TaskStatus::Queued, depth: Some(0), ..with_attempt_count(rec, 1) }
}

/// The queue holds what it held and one entry for each task without
/// upstreams among the first `upto` of the run, and nothing else.
#[verifier::opaque]
pub open spec fn queue_sourced(
    before: BackendState,
    after: BackendState,
    run: usize,
    upto: nat,
    dag_name: Seq<char>,
    date: i64,
    now: i64,
) -> bool {
    let edges = before.runs[run as int].edges;
    &&& forall|e: OrderedQueuedTaskView| #[trigger]
        before.queue.contains(e) ==> after.queue.contains(e)
    &&& forall|e: OrderedQueuedTaskView| #[trigger]
        after.queue.contains(e) ==> before.queue.contains(e) || (e.queued_task.task_id < upto
            && is_source(edges, e.queued_task.task_id) && e == queue_entry(
            0,
            run,
            e.queued_task.task_id,
            dag_name,
            date,
            1,
            now,
        ))
    &&& forall|t: usize|
        t < upto && is_source(edges, t) ==> after.queue.contains(
            #[trigger] queue_entry(0, run, t, dag_name, date, 1, now),
        )
}

/// The tasks of the run are as they were, but that those without upstreams
/// among the first `upto` are in the queue.
#[verifier::opaque]
pub open spec fn tasks_sourced(old_run: RunRecord, new_run: RunRecord, upto: nat) -> bool {
    forall|t: int|
        0 <= t < old_run.tasks.len() ==> #[trigger] new_run.tasks[t] == if t < upto && is_source(
            old_run.edges,
            t as usize,
        ) {
            queued_source(old_run.tasks[t])
        } else {
            old_run.tasks[t]
        }
}

/// `after` is `before` once the run, which had no tasks, has been started:
/// it has the default tasks and edges and the trigger parameters, and its
/// tasks without upstreams are in the queue, each for its first attempt and
/// under depth 0.
pub open spec fn run_started(
    before: BackendState,
    after: BackendState,
    run: usize,
    dag_name: Seq<char>,
    date: i64,
    params: Option<JsonValue>,
    now: i64,
) -> bool {
    let made = before.with_run(
        run,
        populating(
            before.runs[run as int],
            before.default_tasks,
            before.default_tasks.len(),
            before.default_edges,
            params,
        ),
    );
    &&& frame_kept(made, after, run)
    &&& tasks_sourced(made.runs[run as int], after.runs[run as int],
        made.runs[run as int].tasks.len())
    &&& queue_sourced(made, after, run, made.runs[run as int].tasks.len(), dag_name, date, now)
}

/// A task without upstreams and without a cached depth has depth 0.
proof fn lemma_source_depth(run: RunRecord, task: usize)
    requires
        run.has_task(task),
        run.tasks[task as int].depth is None,
        is_source(run.edges, task),
    ensures
        run.depth(task) == 0,
{
    lemma_source_depth_over(run, task, (run.tasks.len() - 1) as nat, run.tasks.len());
}

proof fn lemma_source_depth_over(run: RunRecord, task: usize, fuel: nat, below: nat)
    requires
        is_source(run.edges, task),
    ensures
        run.depth_over(task, fuel, below) == 0,
    decreases below,
{
    if below > 0 {
        lemma_source_depth_over(run, task, fuel, (below - 1) as nat);
        assert(!run.edges.contains(((below - 1) as usize, task)));
    }
}

/// A task that waits for an upstream, in a run in which none of its
/// upstreams has ended, has a rule that has not decided.
proof fn lemma_open_upstreams_wait(run: RunRecord, task: usize, up: usize)
    requires
        run.is_upstream(up, task),
        forall|u: usize| #[trigger] run.is_upstream(u, task)
            ==> !is_terminal(run.tasks[u as int].status),
    ensures
        run_decision(run, task) == Decision::Wait,
{
    reveal(run_satisfied);
    reveal(run_unsatisfiable);
    assert(!is_terminal(run.tasks[up as int].status));
}

/// A run that was made from well-formed defaults is steady next to the
/// other runs.
proof fn lemma_populated_steady(before: BackendState, after: BackendState, run: usize,
    params: Option<JsonValue>)
    requires
        engine_inv(before),
        after.wf(),
        before.has_run(run),
        before.runs[run as int].tasks.len() == 0,
        defaults_ok(before.default_tasks, before.default_edges),
        after == before.with_run(
            run,
            populating(
                before.runs[run as int],
                before.default_tasks,
                before.default_tasks.len(),
                before.default_edges,
                params,
            ),
        ),
    ensures
        engine_steady(after),
        forall|r: int| 0 <= r < after.runs.len() && r != run
            ==> run_settled(#[trigger] after.runs[r]),
{
    let new_run = after.runs[run as int];
    assert forall|r: int| 0 <= r < after.runs.len() implies
        run_steady(#[trigger] after.runs[r]) by {
        reveal(run_steady);
        if r != run {
            assert(after.runs[r] == before.runs[r]);
        } else {
            assert(new_run.wf());
            assert forall|t: int| 0 <= t < new_run.tasks.len() implies
                record_ok(#[trigger] new_run.tasks[t]) by {}
            assert forall|t: usize| t < new_run.tasks.len()
                && started(#[trigger] new_run.tasks[t as int]) implies
                upstreams_all_terminal(new_run, t) by {}
        }
    }
    assert forall|r: int| 0 <= r < after.runs.len() && r != run implies
        run_settled(#[trigger] after.runs[r]) by {
        assert(after.runs[r] == before.runs[r]);
    }
    assert(queues_ok(after)) by {
        reveal(queues_ok);
        assert forall|i: int| 0 <= i < after.queue.len() implies {
            let e = (#[trigger] after.queue[i]).queued_task;
            let rec = after.record(e.run_id, e.task_id);
            &&& rec.status == TaskStatus::Queued || rec.status == TaskStatus::Retrying || rec.status
                == TaskStatus::Skipped
            &&& rec.status != TaskStatus::Skipped ==> e.attempt == attempt_count(rec)
        } by {
            let e = before.queue[i].queued_task;
            assert(before.has_task(e.run_id, e.task_id));
            assert(e.run_id != run);
            assert(after.runs[e.run_id as int] == before.runs[e.run_id as int]);
        }
        assert forall|p: QueuedTaskView| #[trigger] after.in_flight.contains(p) implies {
            let rec = after.record(p.run_id, p.task_id);
            rec.status == TaskStatus::Running && p.attempt == attempt_count(rec)
        } by {
            assert(before.in_flight.contains(p));
            assert(before.has_task(p.run_id, p.task_id));
            assert(p.run_id != run);
            assert(after.runs[p.run_id as int] == before.runs[p.run_id as int]);
        }
    }
}

/// Nothing has been put into the queue yet.
proof fn lemma_sourcing_start(made: BackendState, run: usize, dag_name: Seq<char>, date: i64,
    now: i64)
    requires
        made.has_run(run),
    ensures
        tasks_sourced(made.runs[run as int], made.runs[run as int], 0),
        queue_sourced(made, made, run, 0, dag_name, date, now),
        frame_kept(made, made, run),
{
    reveal(tasks_sourced);
    reveal(queue_sourced);
}

/// One more task has been looked at and, having upstreams, left as it is.
proof fn lemma_sourcing_pass(
    made: BackendState,
    cur: BackendState,
    run: usize,
    task: usize,
    dag_name: Seq<char>,
    date: i64,
    now: i64,
)
    requires
        tasks_sourced(made.runs[run as int], cur.runs[run as int], task as nat),
        queue_sourced(made, cur, run, task as nat, dag_name, date, now),
        !is_source(made.runs[run as int].edges, task),
    ensures
        tasks_sourced(made.runs[run as int], cur.runs[run as int], (task + 1) as nat),
        queue_sourced(made, cur, run, (task + 1) as nat, dag_name, date, now),
{
    reveal(tasks_sourced);
    reveal(queue_sourced);
}

/// One more task has been looked at and, having no upstreams, put into the
/// queue.
proof fn lemma_sourcing_fire(
    made: BackendState,
    cur: BackendState,
    next: BackendState,
    run: usize,
    task: usize,
    dag_name: Seq<char>,
    date: i64,
    now: i64,
)
    requires
        made.has_task(run, task),
        made.runs[run as int].wf(),
        frame_kept(made, cur, run),
        tasks_sourced(made.runs[run as int], cur.runs[run as int], task as nat),
        queue_sourced(made, cur, run, task as nat, dag_name, date, now),
        is_source(made.runs[run as int].edges, task),
        made.record(run, task).status == TaskStatus::Pending,
        made.record(run, task).depth is None,
        attempt_count(made.record(run, task)) == 0,
        fired(cur, next, run, task, dag_name, date, now),
    ensures
        frame_kept(made, next, run),
        tasks_sourced(made.runs[run as int], next.runs[run as int], (task + 1) as nat),
        queue_sourced(made, next, run, (task + 1) as nat, dag_name, date, now),
{
    reveal(tasks_sourced);
    reveal(queue_sourced);
    reveal(queue_gained);
    let made_run = made.runs[run as int];
    let cur_run = cur.runs[run as int];
    let new_run = next.runs[run as int];
    assert(cur_run.tasks[task as int] == made_run.tasks[task as int]);
    lemma_source_depth(cur_run, task);
    let e = queue_entry(0, run, task, dag_name, date, 1, now);
    let pos = choose|pos: int| 0 <= pos <= cur.queue.len()
        && next.queue == #[trigger] cur.queue.insert(pos, e);
    assert(new_run.tasks[task as int] == queued_source(made_run.tasks[task as int]));
    assert forall|t: int| 0 <= t < made_run.tasks.len() implies
        #[trigger] new_run.tasks[t] == if t < task + 1 && is_source(made_run.edges, t as usize) {
        queued_source(made_run.tasks[t])
    } else {
        made_run.tasks[t]
    } by {
        if t != task {
            assert(new_run.tasks[t] == cur_run.tasks[t]);
        }
    }
    assert forall|x: OrderedQueuedTaskView| #[trigger] cur.queue.contains(x) implies
        next.queue.contains(x) by {
        let i = choose|i: int| 0 <= i < cur.queue.len() && cur.queue[i] == x;
        if i < pos {
            assert(next.queue[i] == x);
        } else {
            assert(next.queue[i + 1] == x);
        }
    }
    assert(next.queue[pos] == e);
    assert forall|x: OrderedQueuedTaskView| #[trigger] made.queue.contains(x) implies
        next.queue.contains(x) by {
        assert(cur.queue.contains(x));
    }
    assert forall|x: OrderedQueuedTaskView| #[trigger] next.queue.contains(x) implies
        made.queue.contains(x) || (x.queued_task.task_id < task + 1
        && is_source(made_run.edges, x.queued_task.task_id)
            && x == queue_entry(0, run, x.queued_task.task_id, dag_name, date, 1, now)) by {
        let i = choose|i: int| 0 <= i < next.queue.len() && next.queue[i] == x;
        if i != pos {
            let k = if i < pos { i } else { i - 1 };
            assert(cur.queue[k] == x);
            assert(cur.queue.contains(x));
        }
    }
    assert forall|t: usize| t < task + 1 && is_source(made_run.edges, t) implies
        next.queue.contains(#[trigger] queue_entry(0, run, t, dag_name, date, 1, now)) by {
        if t != task {
            assert(cur.queue.contains(queue_entry(0, run, t, dag_name, date, 1, now)));
        }
    }
    assert forall|r: int| 0 <= r < made.runs.len() && r != run implies
        #[trigger] next.runs[r] == made.runs[r] by {
        assert(next.runs[r] == cur.runs[r]);
    }
    assert(new_run.tasks.len() == made_run.tasks.len());
}

/// With its tasks without upstreams in the queue and all others waiting, a
/// run is settled.
proof fn lemma_sourced_settled(made_run: RunRecord, new_run: RunRecord)
    requires
        made_run.wf(),
        new_run == (RunRecord { tasks: new_run.tasks, ..made_run }),
        new_run.tasks.len() == made_run.tasks.len(),
        forall|t: int| 0 <= t < made_run.tasks.len()
            ==> (#[trigger] made_run.tasks[t]).status == TaskStatus::Pending,
        tasks_sourced(made_run, new_run, made_run.tasks.len()),
    ensures
        run_settled(new_run),
{
    reveal(tasks_sourced);
    reveal(run_settled);
    assert forall|t: usize| t < new_run.tasks.len()
        && (#[trigger] new_run.tasks[t as int]).status == TaskStatus::Pending implies
        run_decision(new_run, t) == Decision::Wait by {
        assert(!is_source(made_run.edges, t));
        let up = choose|up: usize| made_run.edges.contains((up, t));
        assert forall|u: usize| #[trigger] new_run.is_upstream(u, t) implies
            !is_terminal(new_run.tasks[u as int].status) by {
            assert(made_run.edges.contains((u, t)));
            assert(made_run.tasks[u as int].status == TaskStatus::Pending);
        }
        lemma_open_upstreams_wait(new_run, t, up);
    }
}

/// Whether the defaults are fit to make a run from.
fn check_defaults(tasks: &Vec<Task>, edges: &Vec<(usize, usize)>) -> (r: bool)
    ensures
        r == defaults_ok(tasks_view(tasks@), edges@.to_set()),
{
    let n = tasks.len();
    let mut i: usize = 0;
    while i < n
        invariant
            i <= n,
            n == tasks@.len(),
            forall|k: int| 0 <= k < i ==> (#[trigger] tasks_view(tasks@)[k]).id == k
                && tasks_view(tasks@)[k].options.max_attempts >= 1,
        decreases n - i,
    {
        if tasks[i].id != i || tasks[i].options.max_attempts < 1 {
            proof {
                let bad = tasks_view(tasks@)[i as int];
                assert(!(bad.id == i && bad.options.max_attempts >= 1));
            }
            return false;
        }
        i += 1;
    }
    let mut j: usize = 0;
    while j < edges.len()
        invariant
            j <= edges.len(),
            n == tasks@.len(),
            forall|k: int| 0 <= k < j ==> (#[trigger] edges@[k]).0 < n && edges@[k].1 < n,
        decreases edges.len() - j,
    {
        if edges[j].0 >= n || edges[j].1 >= n {
            proof {
                assert(edges@.contains(edges@[j as int]));
                assert(edges@.to_set().contains(edges@[j as int]));
            }
            return false;
        }
        j += 1;
    }
    proof {
        assert forall|e: (usize, usize)| #[trigger] edges@.to_set().contains(e) implies e.0 < n
            && e.1 < n by {
            let k = choose|k: int| 0 <= k < edges@.len() && edges@[k] == e;
            assert(edges@[k].0 < n);
        }
    }
    has_no_cycle(edges, n)
}

/// Starts a run that has no tasks yet: gives it the default tasks and edges
/// of the pipeline and the trigger parameters, and puts its tasks without
/// upstreams into the queue.
pub fn enqueue_run<B: Backend>(
    backend: &mut B,
    run_id: usize,
    dag_name: &str,
    scheduled_date_for_dag_run: i64,
    trigger_params: Option<&Json>,
    now: i64,
) -> (r: Result<(), RunError>)
    requires
        old(backend).inv(),
        engine_inv(old(backend).state()),
        old(backend).state().has_run(run_id),
    ensures
        final(backend).inv(),
        engine_inv(final(backend).state()),
        match r {
            Ok(()) => {
                &&& old(backend).state().runs[run_id as int].tasks.len() == 0
                &&& defaults_ok(old(backend).state().default_tasks,
                    old(backend).state().default_edges)
                &&& run_started(
                    old(backend).state(),
                    final(backend).state(),
                    run_id,
                    dag_name@,
                    scheduled_date_for_dag_run,
                    match trigger_params {
                        Some(p) => Some(p@),
                        None => old(backend).state().runs[run_id as int].trigger_params,
                    },
                    now,
                )
            },
            Err(RunError::NotEmpty) => old(backend).state().runs[run_id as int].tasks.len() > 0
                && final(backend).state() == old(backend).state(),
            Err(RunError::InvalidDag) => {
                &&& old(backend).state().runs[run_id as int].tasks.len() == 0
                &&& !defaults_ok(old(backend).state().default_tasks,
                    old(backend).state().default_edges)
                &&& final(backend).state() == old(backend).state()
            },
        },
{
    let ghost s0 = backend.state();
    let ghost run0 = s0.runs[run_id as int];
    proof {
        backend.lemma_inv_gives_wf();
        assert(run0.wf());
    }
    let existing = backend.get_all_tasks(run_id);
    if existing.len() > 0 {
        return Err(RunError::NotEmpty);
    }
    let tasks = backend.get_default_tasks();
    let edges = backend.get_default_edges();
    if !check_defaults(&tasks, &edges) {
        return Err(RunError::InvalidDag);
    }
    let n = tasks.len();
    let ghost dt = s0.default_tasks;
    let ghost none = Set::<(usize, usize)>::empty();
    proof {
        assert(run0.edges =~= none) by {
            assert forall|e: (usize, usize)| !run0.edges.contains(e) by {
                if run0.edges.contains(e) {
                    assert(run0.has_task(e.0));
                }
            }
        }
        let target = populating(run0, dt, 0, none, run0.trigger_params);
        assert(target.tasks =~= run0.tasks);
        assert(target == run0);
        assert(s0.with_run(run_id, target).runs =~= s0.runs);
    }
    let mut i: usize = 0;
    while i < n
        invariant
            i <= n,
            n == tasks@.len(),
            dt == tasks_view(tasks@),
            dt == s0.default_tasks,
            none == Set::<(usize, usize)>::empty(),
            defaults_ok(dt, s0.default_edges),
            backend.inv(),
            s0.has_run(run_id),
            run0 == s0.runs[run_id as int],
            backend.state() == s0.with_run(
                run_id,
                populating(run0, dt, i as nat, none, run0.trigger_params),
            ),
        decreases n - i,
    {
        let t = &tasks[i];
        proof {
            assert(dt[i as int] == t@);
            assert(t.options.wf());
        }
        let id = backend.append_new_task_and_set_status_to_pending(
            run_id,
            t.name.as_str(),
            t.function.as_str(),
            &t.template_args,
            &t.options,
            t.lazy_expand,
            t.is_dynamic,
            t.is_branch,
            t.use_trigger_params,
        );
        proof {
            let next = backend.state();
            let target = populating(run0, dt, (i + 1) as nat, none, run0.trigger_params);
            assert(id == i);
            assert(next.runs[run_id as int].tasks =~= target.tasks);
            assert(next.runs[run_id as int] == target);
            assert(next.runs =~= s0.with_run(run_id, target).runs);
        }
        i += 1;
    }
    let mut j: usize = 0;
    proof {
        assert(edges@.subrange(0, 0).to_set() =~= none);
    }
    while j < edges.len()
        invariant
            j <= edges.len(),
            n == tasks@.len(),
            dt == tasks_view(tasks@),
            dt == s0.default_tasks,
            edges@.to_set() == s0.default_edges,
            defaults_ok(dt, s0.default_edges),
            backend.inv(),
            s0.has_run(run_id),
            run0 == s0.runs[run_id as int],
            backend.state() == s0.with_run(
                run_id,
                populating(run0, dt, n as nat, edges@.subrange(0, j as int).to_set(),
                    run0.trigger_params),
            ),
        decreases edges.len() - j,
    {
        let e = edges[j];
        proof {
            assert(edges@.contains(e));
            assert(s0.default_edges.contains(e));
        }
        backend.insert_edge(run_id, e);
        proof {
            let next = backend.state();
            let seen = edges@.subrange(0, j as int);
            let seen_next = edges@.subrange(0, j + 1);
            assert(seen_next =~= seen.push(e));
            assert(seen_next.to_set() =~= seen.to_set().insert(e)) by {
                assert forall|x: (usize, usize)| seen_next.to_set().contains(x)
                    == seen.to_set().insert(e).contains(x) by {
                    if seen.contains(x) {
                        let k = choose|k: int| 0 <= k < seen.len() && seen[k] == x;
                        assert(seen_next[k] == x);
                    }
                    if x == e {
                        assert(seen_next[j as int] == x);
                    }
                    if seen_next.contains(x) {
                        let k = choose|k: int| 0 <= k < seen_next.len() && seen_next[k] == x;
                        if k < j {
                            assert(seen[k] == x);
                        }
                    }
                }
            }
            let target = populating(run0, dt, n as nat, seen_next.to_set(), run0.trigger_params);
            assert(next.runs[run_id as int].tasks =~= target.tasks);
            assert(next.runs[run_id as int] == target);
            assert(next.runs =~= s0.with_run(run_id, target).runs);
        }
        j += 1;
    }
    proof {
        assert(edges@.subrange(0, j as int) =~= edges@);
    }
    if let Some(p) = trigger_params {
        backend.set_trigger_params(run_id, p);
        proof {
            let next = backend.state();
            let target = populating(run0, dt, n as nat, s0.default_edges, Some(p@));
            assert(next.runs[run_id as int].tasks =~= target.tasks);
            assert(next.runs[run_id as int] == target);
            assert(next.runs =~= s0.with_run(run_id, target).runs);
        }
    }
    let ghost params = match trigger_params {
        Some(p) => Some(p@),
        None => run0.trigger_params,
    };
    let ghost made = backend.state();
    let ghost made_run = made.runs[run_id as int];
    proof {
        assert(made == s0.with_run(run_id, populating(run0, dt, n as nat, s0.default_edges,
            params)));
        backend.lemma_inv_gives_wf();
        lemma_populated_steady(s0, made, run_id, params);
        lemma_sourcing_start(made, run_id, dag_name@, scheduled_date_for_dag_run, now);
    }
    let mut t: usize = 0;
    while t < n
        invariant
            t <= n,
            n == made_run.tasks.len(),
            backend.inv(),
            engine_steady(backend.state()),
            made.has_run(run_id),
            made_run == made.runs[run_id as int],
            made_run.wf(),
            forall|k: int| 0 <= k < n
                ==> (#[trigger] made_run.tasks[k]) == TaskRecord::fresh(made_run.tasks[k].task),
            frame_kept(made, backend.state(), run_id),
            tasks_sourced(made_run, backend.state().runs[run_id as int], t as nat),
            queue_sourced(made, backend.state(), run_id, t as nat, dag_name@,
                scheduled_date_for_dag_run, now),
        decreases n - t,
    {
        let ghost cur = backend.state();
        let ups = backend.get_upstream(run_id, t);
        if ups.len() == 0 {
            proof {
                let cur_run = cur.runs[run_id as int];
                assert(is_source(made_run.edges, t)) by {
                    assert forall|up: usize| !made_run.edges.contains((up, t)) by {
                        if made_run.edges.contains((up, t)) {
                            assert(cur_run.is_upstream(up, t));
                            assert(ups@.contains(up));
                        }
                    }
                }
                assert(cur_run.tasks[t as int] == made_run.tasks[t as int]) by {
                    reveal(tasks_sourced);
                }
                assert(made_run.tasks[t as int]
                    == TaskRecord::fresh(made_run.tasks[t as int].task));
                assert(upstreams_all_terminal(cur_run, t));
            }
            fire(backend, run_id, t, dag_name, scheduled_date_for_dag_run, now);
            proof {
                lemma_sourcing_fire(made, cur, backend.state(), run_id, t, dag_name@,
                    scheduled_date_for_dag_run, now);
            }
        } else {
            proof {
                let cur_run = cur.runs[run_id as int];
                assert(ups@.contains(ups@[0]));
                assert(cur_run.is_upstream(ups@[0], t));
                assert(made_run.edges.contains((ups@[0], t)));
                lemma_sourcing_pass(made, cur, run_id, t, dag_name@, scheduled_date_for_dag_run,
                    now);
            }
        }
        t += 1;
    }
    proof {
        let fin = backend.state();
        lemma_sourced_settled(made_run, fin.runs[run_id as int]);
        assert forall|r: int| 0 <= r < fin.runs.len() implies
            run_settled(#[trigger] fin.runs[r]) by {
            if r != run_id {
                assert(fin.runs[r] == made.runs[r]);
            }
        }
    }
    Ok(())
}

/// Creates the run of the pipeline, version and date and starts it, unless
/// there is one already: then nothing is changed. Gives the id of the run
/// where it was started.
pub fn trigger_run<B: Backend>(
    backend: &mut B,
    dag_name: &str,
    dag_hash: &str,
    scheduled_date_for_dag_run: i64,
    trigger_params: Option<&Json>,
    now: i64,
) -> (r: Result<Option<usize>, RunError>)
    requires
        old(backend).inv(),
        engine_inv(old(backend).state()),
    ensures
        final(backend).inv(),
        engine_inv(final(backend).state()),
        match r {
            Ok(None) => old(backend).state().is_scheduled(
                dag_name@,
                dag_hash@,
                scheduled_date_for_dag_run,
            ) && final(backend).state() == old(backend).state(),
            Ok(Some(run_id)) => {
                &&& !old(backend).state().is_scheduled(dag_name@, dag_hash@,
                    scheduled_date_for_dag_run)
                &&& run_id == old(backend).state().runs.len()
                &&& defaults_ok(old(backend).state().default_tasks,
                    old(backend).state().default_edges)
                &&& run_started(
                    created_state(old(backend).state(), dag_name@, dag_hash@,
                        scheduled_date_for_dag_run),
                    final(backend).state(),
                    run_id,
                    dag_name@,
                    scheduled_date_for_dag_run,
                    match trigger_params {
                        Some(p) => Some(p@),
                        None => None,
                    },
                    now,
                )
            },
            Err(e) => {
                &&& e == RunError::InvalidDag
                &&& !old(backend).state().is_scheduled(dag_name@, dag_hash@,
                    scheduled_date_for_dag_run)
                &&& !defaults_ok(old(backend).state().default_tasks,
                    old(backend).state().default_edges)
                &&& final(backend).state() == old(backend).state()
            },
        },
{
    let ghost s0 = backend.state();
    if backend.contains_logical_date(dag_name, dag_hash, scheduled_date_for_dag_run) {
        return Ok(None);
    }
    let tasks = backend.get_default_tasks();
    let edges = backend.get_default_edges();
    if !check_defaults(&tasks, &edges) {
        return Err(RunError::InvalidDag);
    }
    let run_id = backend.create_new_run(dag_name, dag_hash, scheduled_date_for_dag_run);
    proof {
        let created = backend.state();
        backend.lemma_inv_gives_wf();
        lemma_created_inv(s0, created, dag_name@, dag_hash@, scheduled_date_for_dag_run);
    }
    match enqueue_run(backend, run_id, dag_name, scheduled_date_for_dag_run, trigger_params, now) {
        Ok(()) => Ok(Some(run_id)),
        Err(e) => {
            // the run is new and the defaults were found fit
            proof {
                assert(false);
            }
            Err(e)
        },
    }
}

/// The state with one more run, of the given pipeline, version and date,
/// and without tasks.
pub open spec fn created_state(
    before: BackendState,
    dag_name: Seq<char>,
    dag_hash: Seq<char>,
    date: i64,
) -> BackendState {
    BackendState { runs: before.runs.push(RunRecord::fresh(dag_name, dag_hash, date)), ..before }
}

/// A new run without tasks keeps what holds between the steps of the engine.
pub proof fn lemma_created_inv(
    before: BackendState,
    after: BackendState,
    dag_name: Seq<char>,
    dag_hash: Seq<char>,
    date: i64,
)
    requires
        engine_inv(before),
        after.wf(),
        after == created_state(before, dag_name, dag_hash, date),
    ensures
        engine_inv(after),
{
    let n = before.runs.len() as int;
    assert forall|r: int| 0 <= r < after.runs.len() implies run_steady(#[trigger] after.runs[r])
        && run_settled(after.runs[r]) by {
        reveal(run_steady);
        reveal(run_settled);
        if r < n {
            assert(after.runs[r] == before.runs[r]);
        } else {
            assert(ranked(after.runs[r].edges, |x: usize| 0nat));
        }
    }
    assert(queues_ok(after)) by {
        reveal(queues_ok);
        assert forall|i: int| 0 <= i < after.queue.len() implies {
            let e = (#[trigger] after.queue[i]).queued_task;
            let rec = after.record(e.run_id, e.task_id);
            &&& rec.status == TaskStatus::Queued || rec.status == TaskStatus::Retrying || rec.status
                == TaskStatus::Skipped
            &&& rec.status != TaskStatus::Skipped ==> e.attempt == attempt_count(rec)
        } by {
            let e = before.queue[i].queued_task;
            assert(before.has_task(e.run_id, e.task_id));
            assert(after.runs[e.run_id as int] == before.runs[e.run_id as int]);
        }
        assert forall|p: QueuedTaskView| #[trigger] after.in_flight.contains(p) implies {
            let rec = after.record(p.run_id, p.task_id);
            rec.status == TaskStatus::Running && p.attempt == attempt_count(rec)
        } by {
            assert(before.in_flight.contains(p));
            assert(before.has_task(p.run_id, p.task_id));
            assert(after.runs[p.run_id as int] == before.runs[p.run_id as int]);
        }
    }
}

} // verus!
