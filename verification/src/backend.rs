//! What a backend holds, as a mathematical state, and the operations every
//! backend offers on it.

use crate::json::{Json, JsonValue};
use crate::status::TaskStatus;
use crate::task::{
    OrderedQueuedTask, OrderedQueuedTaskView, QueuedTask, QueuedTaskView, Run, Task, TaskOptions,
    TaskResult, TaskResultView, TaskView,
};
use vstd::prelude::*;

verus! {

/// All that is held of one task of one run.
pub struct TaskRecord {
    pub task: TaskView,
    pub status: TaskStatus,
    /// One result per recorded attempt, oldest first.
    pub results: Seq<TaskResultView>,
    /// The depth, once it has been computed and until it is deleted.
    pub depth: Option<usize>,
    /// How many attempt numbers have been handed out.
    pub attempts: usize,
    /// The log lines, oldest first, each with the attempt that wrote it.
    pub log: Seq<(usize, Seq<char>)>,
}

/// All that is held of one run.
pub struct RunRecord {
    pub dag_name: Seq<char>,
    pub dag_hash: Seq<char>,
    pub scheduled_date: i64,
    pub trigger_params: Option<JsonValue>,
    /// The tasks by id.
    pub tasks: Seq<TaskRecord>,
    /// The pairs (upstream, downstream).
    pub edges: Set<(usize, usize)>,
}

/// All that a backend holds.
pub struct BackendState {
    pub default_tasks: Seq<TaskView>,
    pub default_edges: Set<(usize, usize)>,
    /// The runs by id.
    pub runs: Seq<RunRecord>,
    /// The priority queue, lowest depth first.
    pub queue: Seq<OrderedQueuedTaskView>,
    /// The attempts that were handed to a worker and have not come back.
    pub in_flight: Set<QueuedTaskView>,
}

/// One more than `d`, as far as a `usize` goes.
pub open spec fn next_depth(d: usize) -> usize {
    if d < usize::MAX {
        (d + 1) as usize
    } else {
        d
    }
}

pub open spec fn larger(a: usize, b: usize) -> usize {
    if a >= b {
        a
    } else {
        b
    }
}

impl TaskRecord {
    /// A task as it stands right after it was appended.
    pub open spec fn fresh(task: TaskView) -> TaskRecord {
        TaskRecord {
            task,
            status: TaskStatus::Pending,
            results: Seq::empty(),
            depth: None,
            attempts: 0,
            log: Seq::empty(),
        }
    }

    /// The lines that the given attempt wrote, oldest first.
    pub open spec fn lines_of(self, attempt: usize) -> Seq<Seq<char>> {
        attempt_lines(self.log, attempt)
    }
}

/// The lines of the log that the given attempt wrote, oldest first.
pub open spec fn attempt_lines(log: Seq<(usize, Seq<char>)>, attempt: usize) -> Seq<Seq<char>>
    decreases log.len(),
{
    if log.len() == 0 {
        Seq::empty()
    } else if log.last().0 == attempt {
        attempt_lines(log.drop_last(), attempt).push(log.last().1)
    } else {
        attempt_lines(log.drop_last(), attempt)
    }
}

/// The lines, each but the first behind a line feed.
pub open spec fn joined_lines(lines: Seq<Seq<char>>) -> Seq<char>
    decreases lines.len(),
{
    if lines.len() == 0 {
        Seq::empty()
    } else if lines.len() == 1 {
        lines[0]
    } else {
        joined_lines(lines.drop_last()) + "\n"@ + lines.last()
    }
}

/// `k` is where the last line of the attempt stands in the log, or -1 if the
/// attempt has written none.
pub open spec fn is_last_line_of(log: Seq<(usize, Seq<char>)>, attempt: usize, k: int) -> bool {
    &&& -1 <= k < log.len()
    &&& k >= 0 ==> log[k].0 == attempt
    &&& forall|j: int| k < j < log.len() ==> (#[trigger] log[j]).0 != attempt
}

impl RunRecord {
    /// A run as it stands right after it was created.
    pub open spec fn fresh(dag_name: Seq<char>, dag_hash: Seq<char>,
        scheduled_date: i64) -> RunRecord {
        RunRecord {
            dag_name,
            dag_hash,
            scheduled_date,
            trigger_params: None,
            tasks: Seq::empty(),
            edges: Set::empty(),
        }
    }

    pub open spec fn has_task(self, task: usize) -> bool {
        task < self.tasks.len()
    }

    /// The tasks carry their index as id and are attempted at least once, and
    /// every edge joins two tasks of the run.
    pub open spec fn wf(self) -> bool {
        &&& self.edges.finite()
        &&& forall|i: int|
            0 <= i < self.tasks.len() ==> (#[trigger] self.tasks[i]).task.id == i
                && self.tasks[i].task.options.max_attempts >= 1
        &&& forall|e: (usize, usize)| #[trigger]
            self.edges.contains(e) ==> self.has_task(e.0) && self.has_task(e.1)
    }

    pub open spec fn with_task(self, task: usize, record: TaskRecord) -> RunRecord {
        RunRecord { tasks: self.tasks.update(task as int, record), ..self }
    }

    pub open spec fn with_edges(self, edges: Set<(usize, usize)>) -> RunRecord {
        RunRecord { edges, ..self }
    }

    pub open spec fn is_upstream(self, up: usize, down: usize) -> bool {
        self.edges.contains((up, down))
    }

    /// The depth of a task: what is cached for it, else one more than the
    /// greatest depth among its upstreams, and 0 where it has none. `fuel`
    /// bounds how far the search climbs.
    pub open spec fn depth_within(self, task: usize, fuel: nat) -> usize
        decreases fuel, 0nat,
    {
        if !self.has_task(task) {
            0
        } else if let Some(d) = self.tasks[task as int].depth {
            d
        } else if fuel == 0 {
            0
        } else {
            self.depth_over(task, (fuel - 1) as nat, self.tasks.len())
        }
    }

    /// The greatest of `depth + 1` over the upstreams of `task` with an id
    /// below `below`, and 0 where there is none.
    pub open spec fn depth_over(self, task: usize, fuel: nat, below: nat) -> usize
        decreases fuel, below + 1,
    {
        if below == 0 {
            0
        } else {
            let rest = self.depth_over(task, fuel, (below - 1) as nat);
            let up = (below - 1) as usize;
            if below - 1 <= usize::MAX && self.is_upstream(up, task) {
                larger(rest, next_depth(self.depth_within(up, fuel)))
            } else {
                rest
            }
        }
    }

    /// The depth of a task, climbing at most as many edges as the run has
    /// tasks.
    pub open spec fn depth(self, task: usize) -> usize {
        self.depth_within(task, self.tasks.len())
    }
}

/// The entry is of the given task of the given run.
pub open spec fn entry_of(e: OrderedQueuedTaskView, run: usize, task: usize) -> bool {
    e.queued_task.run_id == run && e.queued_task.task_id == task
}

pub open spec fn sorted_by_score(q: Seq<OrderedQueuedTaskView>) -> bool {
    forall|i: int, j: int| 0 <= i < j < q.len()
        ==> (#[trigger] q[i]).score <= (#[trigger] q[j]).score
}

/// The test that every entry passes but those of the given task.
pub open spec fn of_another_task(run: usize,
    task: usize) -> spec_fn(OrderedQueuedTaskView) -> bool {
    |e: OrderedQueuedTaskView| !entry_of(e, run, task)
}

/// The queue without the entries of the given task.
pub open spec fn without_task(q: Seq<OrderedQueuedTaskView>, run: usize, task: usize) -> Seq<
    OrderedQueuedTaskView,
> {
    q.filter(of_another_task(run, task))
}

/// `after` is `before` with `entry` put in at a place that keeps the scores
/// in order. Which place among entries of one score is left open.
pub open spec fn put_in_order(
    before: Seq<OrderedQueuedTaskView>,
    entry: OrderedQueuedTaskView,
    after: Seq<OrderedQueuedTaskView>,
) -> bool {
    &&& sorted_by_score(after)
    &&& exists|pos: int| 0 <= pos <= before.len() && after == #[trigger] before.insert(pos, entry)
}

/// With no entry of the task in the queue, the queue without the task is the
/// queue.
pub proof fn lemma_without_task_absent(q: Seq<OrderedQueuedTaskView>, run: usize, task: usize)
    requires
        forall|k: int| 0 <= k < q.len() ==> !entry_of(#[trigger] q[k], run, task),
    ensures
        without_task(q, run, task) == q,
    decreases q.len(),
{
    reveal(Seq::filter);
    if q.len() > 0 {
        lemma_without_task_absent(q.drop_last(), run, task);
        assert(q.drop_last().push(q.last()) =~= q);
    }
}

impl BackendState {
    pub open spec fn has_run(self, run: usize) -> bool {
        run < self.runs.len()
    }

    pub open spec fn has_task(self, run: usize, task: usize) -> bool {
        self.has_run(run) && self.runs[run as int].has_task(task)
    }

    pub open spec fn record(self, run: usize, task: usize) -> TaskRecord {
        self.runs[run as int].tasks[task as int]
    }

    pub open spec fn status(self, run: usize, task: usize) -> TaskStatus {
        self.record(run, task).status
    }

    /// The run is one of the given pipeline in the given version at the
    /// given date.
    pub open spec fn run_is(self, run: int, dag_name: Seq<char>, dag_hash: Seq<char>,
        date: i64) -> bool {
        &&& 0 <= run < self.runs.len()
        &&& self.runs[run].dag_name == dag_name
        &&& self.runs[run].dag_hash == dag_hash
        &&& self.runs[run].scheduled_date == date
    }

    pub open spec fn is_scheduled(self, dag_name: Seq<char>, dag_hash: Seq<char>,
        date: i64) -> bool {
        exists|run: int| self.run_is(run, dag_name, dag_hash, date)
    }

    /// The runs are well formed and no two of them are of one pipeline,
    /// version and date; the queue is in order, holds each task at most once
    /// and only tasks that exist, as does the set of attempts in flight.
    pub open spec fn wf(self) -> bool {
        &&& forall|r: int| 0 <= r < self.runs.len() ==> (#[trigger] self.runs[r]).wf()
        &&& forall|r: int, s: int|
            0 <= r < self.runs.len() && #[trigger] self.run_is(
                s,
                self.runs[r].dag_name,
                self.runs[r].dag_hash,
                self.runs[r].scheduled_date,
            ) ==> r == s
        &&& sorted_by_score(self.queue)
        &&& forall|i: int|
            0 <= i < self.queue.len() ==> self.has_task(
                (#[trigger] self.queue[i]).queued_task.run_id,
                self.queue[i].queued_task.task_id,
            )
        &&& forall|i: int, j: int|
            0 <= i < self.queue.len() && 0 <= j < self.queue.len() && entry_of(
                #[trigger] self.queue[i],
                (#[trigger] self.queue[j]).queued_task.run_id,
                self.queue[j].queued_task.task_id,
            ) ==> i == j
        &&& self.in_flight.finite()
        &&& forall|q: QueuedTaskView| #[trigger]
            self.in_flight.contains(q) ==> self.has_task(q.run_id, q.task_id)
    }

    pub open spec fn with_run(self, run: usize, record: RunRecord) -> BackendState {
        BackendState { runs: self.runs.update(run as int, record), ..self }
    }

    pub open spec fn with_record(self, run: usize, task: usize,
        record: TaskRecord) -> BackendState {
        self.with_run(run, self.runs[run as int].with_task(task, record))
    }

    pub open spec fn with_status(self, run: usize, task: usize,
        status: TaskStatus) -> BackendState {
        self.with_record(run, task, TaskRecord { status, ..self.record(run, task) })
    }

    pub open spec fn with_depth(self, run: usize, task: usize,
        depth: Option<usize>) -> BackendState {
        self.with_record(run, task, TaskRecord { depth, ..self.record(run, task) })
    }

    pub open spec fn with_queue(self, queue: Seq<OrderedQueuedTaskView>) -> BackendState {
        BackendState { queue, ..self }
    }

    pub open spec fn with_in_flight(self, in_flight: Set<QueuedTaskView>) -> BackendState {
        BackendState { in_flight, ..self }
    }

    /// One of the first `below` runs is of the pipeline.
    pub open spec fn has_pipeline_below(self, dag_name: Seq<char>, below: int) -> bool {
        exists|k: int| 0 <= k < below && k < self.runs.len()
            && (#[trigger] self.runs[k]).dag_name == dag_name
    }

    /// Some run is of the pipeline.
    pub open spec fn has_pipeline(self, dag_name: Seq<char>) -> bool {
        self.has_pipeline_below(dag_name, self.runs.len() as int)
    }

    /// `listed` holds the runs of the pipeline, each once, oldest first.
    pub open spec fn lists_runs(self, dag_name: Seq<char>, listed: Seq<Run>) -> bool {
        &&& forall|i: int, j: int|
            0 <= i < j < listed.len()
                ==> (#[trigger] listed[i]).run_id < (#[trigger] listed[j]).run_id
        &&& forall|i: int|
            0 <= i < listed.len() ==> {
                &&& self.has_run((#[trigger] listed[i]).run_id)
                &&& self.runs[listed[i].run_id as int].dag_name == dag_name
                &&& self.runs[listed[i].run_id as int].scheduled_date
                    == listed[i].scheduled_date_for_dag_run
            }
        &&& forall|r: int|
            0 <= r < self.runs.len() && (#[trigger] self.runs[r]).dag_name == dag_name ==> exists|
                i: int,
            |
                0 <= i < listed.len() && (#[trigger] listed[i]).run_id == r
    }
}

/// The operations of a backend. Each is stated over the state that the
/// backend holds; an operation changes nothing but what its contract names.
///
/// The engine is proved against these contracts alone, so what it promises
/// holds for a backend as far as that backend keeps them. The backend in
/// memory of this crate is proved to keep them; for one that talks to a store
/// over the network they are what its author answers for.
pub trait Backend {
    /// What the backend holds.
    spec fn state(&self) -> BackendState;

    /// What the backend needs to hold of itself between calls.
    spec fn inv(&self) -> bool;

    proof fn lemma_inv_gives_wf(&self)
        requires
            self.inv(),
        ensures
            self.state().wf(),
    ;

    /// The tasks from which every run starts.
    fn get_default_tasks(&self) -> (r: Vec<Task>)
        requires
            self.inv(),
        ensures
            crate::task::tasks_view(r@) == self.state().default_tasks,
    ;

    /// The edges from which every run starts, each once, in no stated order.
    fn get_default_edges(&self) -> (r: Vec<(usize, usize)>)
        requires
            self.inv(),
        ensures
            r@.no_duplicates(),
            r@.to_set() == self.state().default_edges,
    ;

    /// The run of this pipeline, version and date: the one that is held
    /// already, with nothing changed, or else a new one with no tasks.
    fn create_new_run(&mut self, dag_name: &str, dag_hash: &str,
        scheduled_date_for_dag_run: i64) -> (run_id: usize)
        requires
            old(self).inv(),
        ensures
            final(self).inv(),
            old(self).state().is_scheduled(dag_name@, dag_hash@, scheduled_date_for_dag_run) ==> {
                &&& old(self).state().run_is(
                    run_id as int,
                    dag_name@,
                    dag_hash@,
                    scheduled_date_for_dag_run,
                )
                &&& final(self).state() == old(self).state()
            },
            !old(self).state().is_scheduled(dag_name@, dag_hash@, scheduled_date_for_dag_run) ==> {
                &&& run_id == old(self).state().runs.len()
                &&& final(self).state() == BackendState {
                    runs: old(self).state().runs.push(
                        RunRecord::fresh(dag_name@, dag_hash@, scheduled_date_for_dag_run),
                    ),
                    ..old(self).state()
                }
            },
    ;

    /// Whether a run of this pipeline, version and date is held.
    fn contains_logical_date(&self, dag_name: &str, dag_hash: &str,
        scheduled_date_for_dag_run: i64) -> (r: bool)
        requires
            self.inv(),
        ensures
            r == self.state().is_scheduled(dag_name@, dag_hash@, scheduled_date_for_dag_run),
    ;

    /// The parameters that the run was triggered with.
    fn get_trigger_params(&self, run_id: usize) -> (r: Option<Json>)
        requires
            self.inv(),
            self.state().has_run(run_id),
        ensures
            match r {
                Some(p) => self.state().runs[run_id as int].trigger_params == Some(p@),
                None => self.state().runs[run_id as int].trigger_params is None,
            },
    ;

    fn set_trigger_params(&mut self, run_id: usize, params: &Json)
        requires
            old(self).inv(),
            old(self).state().has_run(run_id),
        ensures
            final(self).inv(),
            final(self).state() == old(self).state().with_run(
                run_id,
                RunRecord { trigger_params: Some(params@),
                    ..old(self).state().runs[run_id as int] },
            ),
    ;

    /// Adds a task to the run, Pending, under the next free id.
    fn append_new_task_and_set_status_to_pending(
        &mut self,
        run_id: usize,
        name: &str,
        function_name: &str,
        template_args: &Json,
        options: &TaskOptions,
        lazy_expand: bool,
        is_dynamic: bool,
        is_branch: bool,
        use_trigger_params: bool,
    ) -> (task_id: usize)
        requires
            old(self).inv(),
            old(self).state().has_run(run_id),
            options.wf(),
        ensures
            final(self).inv(),
            task_id == old(self).state().runs[run_id as int].tasks.len(),
            final(self).state() == old(self).state().with_run(
                run_id,
                RunRecord {
                    tasks: old(self).state().runs[run_id as int].tasks.push(
                        TaskRecord::fresh(
                            TaskView {
                                id: task_id,
                                name: name@,
                                function: function_name@,
                                template_args: template_args@,
                                options: options@,
                                lazy_expand,
                                is_dynamic,
                                is_branch,
                                use_trigger_params,
                            },
                        ),
                    ),
                    ..old(self).state().runs[run_id as int]
                },
            ),
    ;

    fn get_task_by_id(&self, run_id: usize, task_id: usize) -> (r: Task)
        requires
            self.inv(),
            self.state().has_task(run_id, task_id),
        ensures
            r@ == self.state().record(run_id, task_id).task,
    ;

    /// The tasks of the run, by id.
    fn get_all_tasks(&self, run_id: usize) -> (r: Vec<Task>)
        requires
            self.inv(),
            self.state().has_run(run_id),
        ensures
            r@.len() == self.state().runs[run_id as int].tasks.len(),
            forall|i: int| 0 <= i < r@.len()
                ==> (#[trigger] r@[i])@ == self.state().runs[run_id as int].tasks[i].task,
    ;

    fn get_template_args(&self, run_id: usize, task_id: usize) -> (r: Json)
        requires
            self.inv(),
            self.state().has_task(run_id, task_id),
        ensures
            r@ == self.state().record(run_id, task_id).task.template_args,
    ;

    fn set_template_args(&mut self, run_id: usize, task_id: usize, template_args: &Json)
        requires
            old(self).inv(),
            old(self).state().has_task(run_id, task_id),
        ensures
            final(self).inv(),
            final(self).state() == old(self).state().with_record(
                run_id,
                task_id,
                TaskRecord {
                    task: TaskView {
                        template_args: template_args@,
                        ..old(self).state().record(run_id, task_id).task
                    },
                    ..old(self).state().record(run_id, task_id)
                },
            ),
    ;

    fn get_task_status(&self, run_id: usize, task_id: usize) -> (r: TaskStatus)
        requires
            self.inv(),
            self.state().has_task(run_id, task_id),
        ensures
            r == self.state().status(run_id, task_id),
    ;

    fn set_task_status(&mut self, run_id: usize, task_id: usize, task_status: TaskStatus)
        requires
            old(self).inv(),
            old(self).state().has_task(run_id, task_id),
        ensures
            final(self).inv(),
            final(self).state() == old(self).state().with_status(run_id, task_id, task_status),
    ;

    /// Records a result as the latest of its task.
    fn insert_task_results(&mut self, run_id: usize, result: &TaskResult)
        requires
            old(self).inv(),
            old(self).state().has_task(run_id, result.task_id),
        ensures
            final(self).inv(),
            final(self).state() == old(self).state().with_record(
                run_id,
                result.task_id,
                TaskRecord {
                    results: old(self).state().record(run_id, result.task_id).results.push(result@),
                    ..old(self).state().record(run_id, result.task_id)
                },
            ),
    ;

    /// The latest result of the task.
    fn get_task_result(&self, run_id: usize, task_id: usize) -> (r: TaskResult)
        requires
            self.inv(),
            self.state().has_task(run_id, task_id),
            self.state().record(run_id, task_id).results.len() > 0,
        ensures
            r@ == self.state().record(run_id, task_id).results.last(),
    ;

    /// The results of the task, oldest first.
    fn get_all_results(&self, run_id: usize, task_id: usize) -> (r: Vec<TaskResult>)
        requires
            self.inv(),
            self.state().has_task(run_id, task_id),
        ensures
            crate::task::results_view(r@) == self.state().record(run_id, task_id).results,
    ;

    fn insert_edge(&mut self, run_id: usize, edge: (usize, usize))
        requires
            old(self).inv(),
            old(self).state().has_task(run_id, edge.0),
            old(self).state().has_task(run_id, edge.1),
        ensures
            final(self).inv(),
            final(self).state() == old(self).state().with_run(
                run_id,
                old(self).state().runs[run_id as int].with_edges(
                    old(self).state().runs[run_id as int].edges.insert(edge),
                ),
            ),
    ;

    fn remove_edge(&mut self, run_id: usize, edge: (usize, usize))
        requires
            old(self).inv(),
            old(self).state().has_run(run_id),
        ensures
            final(self).inv(),
            final(self).state() == old(self).state().with_run(
                run_id,
                old(self).state().runs[run_id as int].with_edges(
                    old(self).state().runs[run_id as int].edges.remove(edge),
                ),
            ),
    ;

    /// The tasks that the given one waits for, each once, in no stated order.
    fn get_upstream(&self, run_id: usize, task_id: usize) -> (r: Vec<usize>)
        requires
            self.inv(),
            self.state().has_run(run_id),
        ensures
            r@.no_duplicates(),
            forall|up: usize| r@.contains(up)
                <==> self.state().runs[run_id as int].is_upstream(up, task_id),
    ;

    /// The tasks that wait for the given one, each once, in no stated order.
    fn get_downstream(&self, run_id: usize, task_id: usize) -> (r: Vec<usize>)
        requires
            self.inv(),
            self.state().has_run(run_id),
        ensures
            r@.no_duplicates(),
            forall|down: usize| r@.contains(down)
                <==> self.state().runs[run_id as int].is_upstream(task_id, down),
    ;

    /// The depth of the task, which is cached from then on.
    fn get_task_depth(&mut self, run_id: usize, task_id: usize) -> (depth: usize)
        requires
            old(self).inv(),
            old(self).state().has_task(run_id, task_id),
        ensures
            final(self).inv(),
            depth == old(self).state().runs[run_id as int].depth(task_id),
            final(self).state() == old(self).state().with_depth(run_id, task_id, Some(depth)),
    ;

    fn set_task_depth(&mut self, run_id: usize, task_id: usize, depth: usize)
        requires
            old(self).inv(),
            old(self).state().has_task(run_id, task_id),
        ensures
            final(self).inv(),
            final(self).state() == old(self).state().with_depth(run_id, task_id, Some(depth)),
    ;

    fn delete_task_depth(&mut self, run_id: usize, task_id: usize)
        requires
            old(self).inv(),
            old(self).state().has_task(run_id, task_id),
        ensures
            final(self).inv(),
            final(self).state() == old(self).state().with_depth(run_id, task_id, None),
    ;

    /// Hands out the next attempt number of the task: one more than the last
    /// one, starting at 1.
    fn get_attempt_by_task_id(&mut self, run_id: usize, task_id: usize) -> (attempt: usize)
        requires
            old(self).inv(),
            old(self).state().has_task(run_id, task_id),
            old(self).state().record(run_id, task_id).attempts < usize::MAX,
        ensures
            final(self).inv(),
            attempt == old(self).state().record(run_id, task_id).attempts + 1,
            final(self).state() == old(self).state().with_record(
                run_id,
                task_id,
                TaskRecord { attempts: attempt, ..old(self).state().record(run_id, task_id) },
            ),
    ;

    /// Puts an attempt of the task into the priority queue under the task's
    /// depth, in place of any entry that the queue holds of the task.
    fn enqueue_task(
        &mut self,
        run_id: usize,
        task_id: usize,
        scheduled_date_for_dag_run: i64,
        dag_name: &str,
        attempt: usize,
        queued_date: i64,
    )
        requires
            old(self).inv(),
            old(self).state().has_task(run_id, task_id),
        ensures
            final(self).inv(),
            ({
                let depth = old(self).state().runs[run_id as int].depth(task_id);
                let cached = old(self).state().with_depth(run_id, task_id, Some(depth));
                let entry = OrderedQueuedTaskView {
                    score: depth,
                    queued_task: QueuedTaskView {
                        run_id,
                        task_id,
                        dag_name: dag_name@,
                        scheduled_date_for_dag_run,
                        attempt,
                        queued_date,
                    },
                };
                &&& final(self).state() == cached.with_queue(final(self).state().queue)
                &&& put_in_order(
                    without_task(old(self).state().queue, run_id, task_id),
                    entry,
                    final(self).state().queue,
                )
            }),
    ;

    /// Takes the first entry of the priority queue, one of lowest depth, and
    /// holds it as in flight. `None` where the queue is empty.
    fn pop_priority_queue(&mut self) -> (r: Option<OrderedQueuedTask>)
        requires
            old(self).inv(),
        ensures
            final(self).inv(),
            match r {
                Some(e) => {
                    &&& old(self).state().queue.len() > 0
                    &&& e@ == old(self).state().queue[0]
                    &&& final(self).state() == old(self).state().with_queue(
                        old(self).state().queue.drop_first(),
                    ).with_in_flight(old(self).state().in_flight.insert(e@.queued_task))
                },
                None => old(self).state().queue.len() == 0
                    && final(self).state() == old(self).state(),
            },
    ;

    fn remove_from_temp_queue(&mut self, queued_task: &QueuedTask)
        requires
            old(self).inv(),
        ensures
            final(self).inv(),
            final(self).state() == old(self).state().with_in_flight(
                old(self).state().in_flight.remove(queued_task@),
            ),
    ;

    /// Adds a line to the log of the attempt.
    fn append_log_line(&mut self, run_id: usize, task_id: usize, attempt: usize, line: &str)
        requires
            old(self).inv(),
            old(self).state().has_task(run_id, task_id),
        ensures
            final(self).inv(),
            final(self).state() == old(self).state().with_record(
                run_id,
                task_id,
                TaskRecord {
                    log: old(self).state().record(run_id, task_id).log.push((attempt, line@)),
                    ..old(self).state().record(run_id, task_id)
                },
            ),
    ;

    /// The log of the attempt: its lines, joined by line feeds.
    fn get_log(&self, run_id: usize, task_id: usize, attempt: usize) -> (r: String)
        requires
            self.inv(),
            self.state().has_task(run_id, task_id),
        ensures
            r@ == joined_lines(self.state().record(run_id, task_id).lines_of(attempt)),
    ;

    /// Takes the last line out of the log of the attempt and gives it;
    /// gives `null` where the attempt has no line.
    fn take_last_stdout_line(&mut self, run_id: usize, task_id: usize,
        attempt: usize) -> (r: String)
        requires
            old(self).inv(),
            old(self).state().has_task(run_id, task_id),
        ensures
            final(self).inv(),
            exists|k: int|
                {
                    &&& #[trigger] is_last_line_of(
                        old(self).state().record(run_id, task_id).log,
                        attempt,
                        k,
                    )
                    &&& k < 0 ==> r@ == "null"@ && final(self).state() == old(self).state()
                    &&& k >= 0 ==> r@ == old(self).state().record(run_id, task_id).log[k].1
                        && final(self).state() == old(self).state().with_record(
                        run_id,
                        task_id,
                        TaskRecord {
                            log: old(self).state().record(run_id, task_id).log.remove(k),
                            ..old(self).state().record(run_id, task_id)
                        },
                    )
                },
    ;

    fn get_queue_length(&self) -> (r: usize)
        requires
            self.inv(),
        ensures
            r == self.state().queue.len(),
    ;

    /// The attempts in flight, each once, in no stated order.
    fn get_temp_queue(&self) -> (r: Vec<QueuedTask>)
        requires
            self.inv(),
        ensures
            forall|i: int, j: int| 0 <= i < j < r@.len()
                ==> (#[trigger] r@[i])@ != (#[trigger] r@[j])@,
            forall|i: int| 0 <= i < r@.len()
                ==> self.state().in_flight.contains((#[trigger] r@[i])@),
            forall|q: QueuedTaskView| self.state().in_flight.contains(q)
                ==> exists|i: int| 0 <= i < r@.len() && (#[trigger] r@[i])@ == q,
    ;

    fn get_running_tasks_count(&self) -> (r: usize)
        requires
            self.inv(),
        ensures
            r == self.state().in_flight.len(),
    ;
}

} // verus!
