//! The backend of a single process, which holds everything in memory.

use crate::backend::{
    attempt_lines, entry_of, is_last_line_of, joined_lines, lemma_without_task_absent,
    of_another_task, sorted_by_score, without_task, Backend, BackendState, RunRecord, TaskRecord,
};
use crate::engine::{engine_inv, queues_ok};
use crate::json::Json;
use crate::status::TaskStatus;
use crate::task::{
    results_view, tasks_view, OrderedQueuedTask, OrderedQueuedTaskView, QueuedTask, QueuedTaskView,
    Run, Task, TaskOptions, TaskResult, TaskView,
};
use vstd::prelude::*;

verus! {

struct TaskEntry {
    task: Task,
    status: TaskStatus,
    results: Vec<TaskResult>,
    depth: Option<usize>,
    attempts: usize,
    log: Vec<(usize, String)>,
}

struct RunEntry {
    dag_name: String,
    dag_hash: String,
    scheduled_date: i64,
    trigger_params: Option<Json>,
    tasks: Vec<TaskEntry>,
    edges: Vec<(usize, usize)>,
}

/// A backend that holds all runs, the queue and the attempts in flight in
/// the memory of the process.
pub struct InMemoryBackend {
    default_tasks: Vec<Task>,
    default_edges: Vec<(usize, usize)>,
    runs: Vec<RunEntry>,
    queue: Vec<OrderedQueuedTask>,
    in_flight: Vec<QueuedTask>,
}

spec fn log_view(log: Seq<(usize, String)>) -> Seq<(usize, Seq<char>)> {
    Seq::new(log.len(), |i: int| (log[i].0, log[i].1@))
}

impl View for TaskEntry {
    type V = TaskRecord;

    closed spec fn view(&self) -> TaskRecord {
        TaskRecord {
            task: self.task@,
            status: self.status,
            results: results_view(self.results@),
            depth: self.depth,
            attempts: self.attempts,
            log: log_view(self.log@),
        }
    }
}

spec fn records_view(tasks: Seq<TaskEntry>) -> Seq<TaskRecord> {
    Seq::new(tasks.len(), |i: int| tasks[i]@)
}

impl View for RunEntry {
    type V = RunRecord;

    closed spec fn view(&self) -> RunRecord {
        RunRecord {
            dag_name: self.dag_name@,
            dag_hash: self.dag_hash@,
            scheduled_date: self.scheduled_date,
            trigger_params: match self.trigger_params {
                Some(p) => Some(p@),
                None => None,
            },
            tasks: records_view(self.tasks@),
            edges: self.edges@.to_set(),
        }
    }
}

spec fn runs_view(runs: Seq<RunEntry>) -> Seq<RunRecord> {
    Seq::new(runs.len(), |i: int| runs[i]@)
}

spec fn queue_view(queue: Seq<OrderedQueuedTask>) -> Seq<OrderedQueuedTaskView> {
    Seq::new(queue.len(), |i: int| queue[i]@)
}

spec fn queued_view(entries: Seq<QueuedTask>) -> Seq<QueuedTaskView> {
    Seq::new(entries.len(), |i: int| entries[i]@)
}

/// Where the edge stands among `edges`.
fn edge_position(edges: &Vec<(usize, usize)>, edge: (usize, usize)) -> (r: Option<usize>)
    ensures
        match r {
            Some(i) => i < edges@.len() && edges@[i as int] == edge,
            None => !edges@.contains(edge),
        },
{
    let mut i: usize = 0;
    while i < edges.len()
        invariant
            i <= edges.len(),
            forall|k: int| 0 <= k < i ==> edges@[k] != edge,
        decreases edges.len() - i,
    {
        let e = edges[i];
        if e.0 == edge.0 && e.1 == edge.1 {
            return Some(i);
        }
        i += 1;
    }
    None
}

/// Where the entry of the task stands in the queue.
fn queue_position(queue: &Vec<OrderedQueuedTask>, run_id: usize,
    task_id: usize) -> (r: Option<usize>)
    ensures
        match r {
            Some(i) => i < queue@.len() && entry_of(queue@[i as int]@, run_id, task_id),
            None => forall|k: int| 0 <= k < queue@.len()
                ==> !entry_of((#[trigger] queue@[k])@, run_id, task_id),
        },
{
    let mut i: usize = 0;
    while i < queue.len()
        invariant
            i <= queue.len(),
            forall|k: int| 0 <= k < i ==> !entry_of((#[trigger] queue@[k])@, run_id, task_id),
        decreases queue.len() - i,
    {
        if queue[i].queued_task.run_id == run_id && queue[i].queued_task.task_id == task_id {
            return Some(i);
        }
        i += 1;
    }
    None
}

/// Where the attempt stands among those in flight.
fn flight_position(entries: &Vec<QueuedTask>, wanted: &QueuedTask) -> (r: Option<usize>)
    ensures
        match r {
            Some(i) => i < entries@.len() && entries@[i as int]@ == wanted@,
            None => forall|k: int| 0 <= k < entries@.len() ==> (#[trigger] entries@[k])@ != wanted@,
        },
{
    let mut i: usize = 0;
    while i < entries.len()
        invariant
            i <= entries.len(),
            forall|k: int| 0 <= k < i ==> (#[trigger] entries@[k])@ != wanted@,
        decreases entries.len() - i,
    {
        if entries[i].same_as(wanted) {
            return Some(i);
        }
        i += 1;
    }
    None
}

impl RunEntry {
    fn has_edge(&self, edge: (usize, usize)) -> (r: bool)
        ensures
            r == self@.edges.contains(edge),
    {
        edge_position(&self.edges, edge).is_some()
    }

    fn depth_within(&self, task: usize, fuel: usize) -> (d: usize)
        requires
            task < self.tasks.len(),
        ensures
            d == self@.depth_within(task, fuel as nat),
        decreases fuel,
    {
        let cached = self.tasks[task].depth;
        if let Some(d) = cached {
            return d;
        }
        if fuel == 0 {
            return 0;
        }
        let n = self.tasks.len();
        let mut acc: usize = 0;
        let mut up: usize = 0;
        while up < n
            invariant
                up <= n,
                n == self.tasks.len(),
                fuel > 0,
                task < n,
                acc == self@.depth_over(task, (fuel - 1) as nat, up as nat),
            decreases n - up,
        {
            if self.has_edge((up, task)) {
                let d = self.depth_within(up, fuel - 1);
                let next = if d < usize::MAX {
                    d + 1
                } else {
                    d
                };
                if next > acc {
                    acc = next;
                }
            }
            up += 1;
        }
        acc
    }
}

impl InMemoryBackend {
    /// What the backend holds.
    pub closed spec fn model(&self) -> BackendState {
        BackendState {
            default_tasks: tasks_view(self.default_tasks@),
            default_edges: self.default_edges@.to_set(),
            runs: runs_view(self.runs@),
            queue: queue_view(self.queue@),
            in_flight: queued_view(self.in_flight@).to_set(),
        }
    }

    /// The state is well formed, and nothing is held twice where the state
    /// holds a set.
    pub closed spec fn valid(&self) -> bool {
        &&& self.model().wf()
        &&& self.default_edges@.no_duplicates()
        &&& forall|r: int| 0 <= r < self.runs@.len()
            ==> (#[trigger] self.runs@[r]).edges@.no_duplicates()
        &&& queued_view(self.in_flight@).no_duplicates()
    }

    /// A backend with the given default tasks and edges and nothing else.
    /// An edge that is given twice is held once. What holds between the
    /// steps of the engine holds of it.
    pub fn new(nodes: Vec<Task>, edges: Vec<(usize, usize)>) -> (r: InMemoryBackend)
        ensures
            r.inv(),
            engine_inv(r.state()),
            r.state().default_tasks == tasks_view(nodes@),
            r.state().default_edges == edges@.to_set(),
            r.state().runs.len() == 0,
            r.state().queue.len() == 0,
            r.state().in_flight == Set::<QueuedTaskView>::empty(),
    {
        let mut unique: Vec<(usize, usize)> = Vec::new();
        let mut i: usize = 0;
        while i < edges.len()
            invariant
                i <= edges.len(),
                unique@.no_duplicates(),
                unique@.to_set() == edges@.subrange(0, i as int).to_set(),
            decreases edges.len() - i,
        {
            let e = edges[i];
            let mut seen = false;
            let mut k: usize = 0;
            while k < unique.len()
                invariant
                    k <= unique.len(),
                    seen == exists|m: int| 0 <= m < k && unique@[m] == e,
                decreases unique.len() - k,
            {
                let u = unique[k];
                if u.0 == e.0 && u.1 == e.1 {
                    seen = true;
                }
                k += 1;
            }
            proof {
                let before = edges@.subrange(0, i as int);
                let after = edges@.subrange(0, i + 1);
                assert(after =~= before.push(e));
                assert(after.to_set() =~= before.to_set().insert(e)) by {
                    assert forall|x: (usize, usize)| after.to_set().contains(x)
                        == before.to_set().insert(e).contains(x) by {
                        if before.contains(x) {
                            let m = choose|m: int| 0 <= m < before.len() && before[m] == x;
                            assert(after[m] == x);
                        }
                        if x == e {
                            assert(after[i as int] == e);
                        }
                    }
                }
                if seen {
                    assert(unique@.contains(e));
                    assert(unique@.to_set().insert(e) =~= unique@.to_set());
                } else {
                    assert(!unique@.contains(e));
                    assert(unique@.push(e).to_set() =~= unique@.to_set().insert(e)) by {
                        assert forall|x: (usize, usize)| unique@.push(e).to_set().contains(x)
                            == unique@.to_set().insert(e).contains(x) by {
                            if unique@.contains(x) {
                                let m = choose|m: int| 0 <= m < unique@.len() && unique@[m] == x;
                                assert(unique@.push(e)[m] == x);
                            }
                            if x == e {
                                assert(unique@.push(e)[unique@.len() as int] == e);
                            }
                        }
                    }
                }
            }
            if !seen {
                unique.push(e);
            }
            i += 1;
        }
        proof {
            assert(edges@.subrange(0, i as int) =~= edges@);
        }
        let r = InMemoryBackend {
            default_tasks: nodes,
            default_edges: unique,
            runs: Vec::new(),
            queue: Vec::new(),
            in_flight: Vec::new(),
        };
        proof {
            assert(r.model().runs =~= Seq::empty());
            assert(r.model().queue =~= Seq::empty());
            assert(queued_view(r.in_flight@) =~= Seq::empty());
            assert(r.model().in_flight =~= Set::empty());
            assert(queues_ok(r.model())) by {
                reveal(queues_ok);
            }
        }
        r
    }
}

impl InMemoryBackend {
    /// The runs of the pipeline, oldest first.
    pub fn get_runs(&self, dag_name: &str) -> (r: Vec<Run>)
        requires
            self.inv(),
        ensures
            self.state().lists_runs(dag_name@, r@),
    {
        let name = dag_name.to_owned();
        let mut out: Vec<Run> = Vec::new();
        let mut i: usize = 0;
        while i < self.runs.len()
            invariant
                i <= self.runs.len(),
                name@ == dag_name@,
                forall|a: int, b: int| 0 <= a < b < out@.len()
                    ==> (#[trigger] out@[a]).run_id < (#[trigger] out@[b]).run_id,
                forall|a: int|
                    0 <= a < out@.len() ==> {
                        &&& (#[trigger] out@[a]).run_id < i
                        &&& self.model().runs[out@[a].run_id as int].dag_name == dag_name@
                        &&& self.model().runs[out@[a].run_id as int].scheduled_date
                            == out@[a].scheduled_date_for_dag_run
                    },
                forall|r: int|
                    0 <= r < i && (#[trigger] self.model().runs[r]).dag_name == dag_name@
                        ==> exists|
                        a: int,
                    |
                        0 <= a < out@.len() && (#[trigger] out@[a]).run_id == r,
            decreases self.runs.len() - i,
        {
            if self.runs[i].dag_name == name {
                let ghost before = out@;
                out.push(Run { run_id: i,
                    scheduled_date_for_dag_run: self.runs[i].scheduled_date });
                proof {
                    assert(out@[before.len() as int].run_id == i);
                    assert forall|r: int|
                        0 <= r < i + 1
                            && (#[trigger] self.model().runs[r]).dag_name == dag_name@ implies
                            exists|
                            a: int,
                        |
                            0 <= a < out@.len() && (#[trigger] out@[a]).run_id == r by {
                        if r < i {
                            let a = choose|a: int| 0 <= a < before.len()
                                && (#[trigger] before[a]).run_id == r;
                            assert(out@[a].run_id == r);
                        }
                    }
                }
            }
            i += 1;
        }
        out
    }

    /// The newest run of the pipeline.
    pub fn get_last_run(&self, dag_name: &str) -> (r: Option<Run>)
        requires
            self.inv(),
        ensures
            match r {
                Some(run) => exists|all: Seq<Run>|
                    #[trigger] self.state().lists_runs(dag_name@, all) && all.len() > 0
                        && all.last()
                        == run,
                None => self.state().lists_runs(dag_name@, Seq::<Run>::empty()),
            },
    {
        let all = self.get_runs(dag_name);
        if all.len() == 0 {
            proof {
                assert(all@ =~= Seq::<Run>::empty());
            }
            None
        } else {
            Some(all[all.len() - 1])
        }
    }

    /// The newest runs of the pipeline, at most ten, oldest first.
    pub fn get_recent_runs(&self, dag_name: &str) -> (r: Vec<Run>)
        requires
            self.inv(),
        ensures
            exists|all: Seq<Run>|
                #[trigger] self.state().lists_runs(dag_name@, all) && r@ == all.subrange(
                    if all.len() > 10 {
                        all.len() - 10
                    } else {
                        0
                    },
                    all.len() as int,
                ),
    {
        let all = self.get_runs(dag_name);
        let from = crate::keys::recent_from(all.len(), 10);
        let mut out: Vec<Run> = Vec::new();
        let mut i: usize = from;
        while i < all.len()
            invariant
                from <= i <= all.len(),
                out@ == all@.subrange(from as int, i as int),
            decreases all.len() - i,
        {
            out.push(all[i]);
            proof {
                assert(out@ =~= all@.subrange(from as int, i + 1));
            }
            i += 1;
        }
        out
    }

    /// The names of the pipelines that have runs, each once, in the order of
    /// their first run.
    pub fn get_pipelines(&self) -> (r: Vec<String>)
        requires
            self.inv(),
        ensures
            crate::command::words_view(r@).no_duplicates(),
            forall|name: Seq<char>| #[trigger] crate::command::words_view(r@).contains(name)
                <==> self.state().has_pipeline(name),
    {
        let mut out: Vec<String> = Vec::new();
        let mut i: usize = 0;
        proof {
            assert(crate::command::words_view(out@) =~= Seq::empty());
        }
        while i < self.runs.len()
            invariant
                i <= self.runs.len(),
                crate::command::words_view(out@).no_duplicates(),
                forall|name: Seq<char>| #[trigger] crate::command::words_view(out@).contains(name) <==> self.model().has_pipeline_below(name, i as int),
            decreases self.runs.len() - i,
        {
            let ghost name = self.model().runs[i as int].dag_name;
            let ghost before = crate::command::words_view(out@);
            let mut seen = false;
            let mut j: usize = 0;
            while j < out.len()
                invariant
                    j <= out.len(),
                    i < self.runs.len(),
                    name == self.runs@[i as int].dag_name@,
                    before == crate::command::words_view(out@),
                    seen == exists|a: int| 0 <= a < j && #[trigger] before[a] == name,
                decreases out.len() - j,
            {
                if out[j] == self.runs[i].dag_name {
                    seen = true;
                    proof {
                        assert(before[j as int] == name);
                    }
                }
                j += 1;
            }
            if !seen {
                out.push(self.runs[i].dag_name.clone());
            }
            proof {
                let after = crate::command::words_view(out@);
                if seen {
                    let a = choose|a: int| 0 <= a < before.len() && #[trigger] before[a] == name;
                    assert(before.contains(name));
                    assert(after =~= before);
                } else {
                    assert(after =~= before.push(name));
                    assert(!before.contains(name)) by {
                        if before.contains(name) {
                            let a = choose|a: int| 0 <= a < before.len() && before[a] == name;
                            assert(before[a] == name);
                        }
                    }
                    assert(after[before.len() as int] == name);
                }
                assert forall|x: Seq<char>| #[trigger] after.contains(x)
                    <==> self.model().has_pipeline_below(x, i + 1) by {
                    lemma_below_step(self.model(), x, i as int);
                    if before.contains(x) {
                        let a = choose|a: int| 0 <= a < before.len() && before[a] == x;
                        assert(after[a] == x);
                    }
                    if after.contains(x) {
                        let a = choose|a: int| 0 <= a < after.len() && after[a] == x;
                        if a < before.len() {
                            assert(before[a] == x);
                        }
                    }
                }
            }
            i += 1;
        }
        out
    }
}

proof fn lemma_below_step(state: BackendState, name: Seq<char>, i: int)
    requires
        0 <= i < state.runs.len(),
    ensures
        state.has_pipeline_below(name, i + 1) <==> state.has_pipeline_below(name, i)
            || state.runs[i].dag_name == name,
{
    if state.has_pipeline_below(name, i + 1) {
        let k = choose|k: int| 0 <= k < i + 1 && k < state.runs.len()
            && (#[trigger] state.runs[k]).dag_name == name;
        if k < i {
            assert(state.has_pipeline_below(name, i));
        }
    }
    if state.has_pipeline_below(name, i) {
        let k = choose|k: int| 0 <= k < i && k < state.runs.len()
            && (#[trigger] state.runs[k]).dag_name == name;
        assert(0 <= k < i + 1 && state.runs[k].dag_name == name);
    }
    if state.runs[i].dag_name == name {
        assert(state.has_pipeline_below(name, i + 1));
    }
}

impl Backend for InMemoryBackend {
    open spec fn state(&self) -> BackendState {
        self.model()
    }

    open spec fn inv(&self) -> bool {
        self.valid()
    }

    proof fn lemma_inv_gives_wf(&self) {
    }

    fn get_default_tasks(&self) -> (r: Vec<Task>) {
        let mut out: Vec<Task> = Vec::new();
        let mut i: usize = 0;
        while i < self.default_tasks.len()
            invariant
                i <= self.default_tasks.len(),
                out@.len() == i,
                forall|k: int| 0 <= k < i ==> out@[k]@ == self.default_tasks@[k]@,
            decreases self.default_tasks.len() - i,
        {
            out.push(self.default_tasks[i].duplicate());
            i += 1;
        }
        proof {
            assert(tasks_view(out@) =~= self.state().default_tasks);
        }
        out
    }

    fn get_default_edges(&self) -> (r: Vec<(usize, usize)>) {
        let mut out: Vec<(usize, usize)> = Vec::new();
        let mut i: usize = 0;
        while i < self.default_edges.len()
            invariant
                i <= self.default_edges.len(),
                out@ == self.default_edges@.subrange(0, i as int),
            decreases self.default_edges.len() - i,
        {
            out.push(self.default_edges[i]);
            proof {
                assert(out@ =~= self.default_edges@.subrange(0, i + 1));
            }
            i += 1;
        }
        proof {
            assert(out@ =~= self.default_edges@);
        }
        out
    }

    fn create_new_run(&mut self, dag_name: &str, dag_hash: &str,
        scheduled_date_for_dag_run: i64) -> (run_id: usize) {
        let name = dag_name.to_owned();
        let hash = dag_hash.to_owned();
        let mut i: usize = 0;
        while i < self.runs.len()
            invariant
                i <= self.runs.len(),
                name@ == dag_name@,
                hash@ == dag_hash@,
                *self == *old(self),
                self.valid(),
                forall|k: int| 0 <= k < i
                    ==> !#[trigger] self.model().run_is(k, dag_name@, dag_hash@,
                    scheduled_date_for_dag_run),
            decreases self.runs.len() - i,
        {
            if self.runs[i].dag_name == name && self.runs[i].dag_hash == hash
                && self.runs[i].scheduled_date == scheduled_date_for_dag_run {
                assert(self.state().run_is(i as int, dag_name@, dag_hash@,
                    scheduled_date_for_dag_run));
                return i;
            }
            i += 1;
        }
        let run_id = self.runs.len();
        let ghost before = self.model();
        self.runs.push(
            RunEntry {
                dag_name: name,
                dag_hash: hash,
                scheduled_date: scheduled_date_for_dag_run,
                trigger_params: None,
                tasks: Vec::new(),
                edges: Vec::new(),
            },
        );
        proof {
            let fresh = RunRecord::fresh(dag_name@, dag_hash@, scheduled_date_for_dag_run);
            let last = self.runs@[run_id as int];
            assert(last@.tasks =~= Seq::empty());
            assert(last@.edges =~= Set::empty());
            assert(last@ == fresh);
            assert(self.model().runs =~= before.runs.push(fresh));
            assert(self.model() == BackendState { runs: before.runs.push(fresh), ..before });
            assert(fresh.wf());
            let now = self.model();
            assert(before.wf());
            assert(now.runs.len() == run_id + 1);
            assert(now.runs[run_id as int] == fresh);
            assert forall|k: int| 0 <= k < run_id implies
                #[trigger] now.runs[k] == before.runs[k] by {}
            assert forall|k: int| 0 <= k < run_id implies
                !before.run_is(k, dag_name@, dag_hash@, scheduled_date_for_dag_run) by {}
            assert forall|r: int, s: int|
                0 <= r < now.runs.len() && #[trigger] now.run_is(
                    s,
                    now.runs[r].dag_name,
                    now.runs[r].dag_hash,
                    now.runs[r].scheduled_date,
                ) implies r == s by {
                if r < run_id && s < run_id {
                    assert(now.runs[r] == before.runs[r]);
                    assert(now.runs[s] == before.runs[s]);
                    assert(before.run_is(
                        s,
                        before.runs[r].dag_name,
                        before.runs[r].dag_hash,
                        before.runs[r].scheduled_date,
                    ));
                } else if r < run_id {
                    assert(now.runs[r] == before.runs[r]);
                    assert(before.run_is(r, dag_name@, dag_hash@, scheduled_date_for_dag_run));
                } else if s < run_id {
                    assert(now.runs[s] == before.runs[s]);
                    assert(before.run_is(s, dag_name@, dag_hash@, scheduled_date_for_dag_run));
                }
            }
            assert forall|r: int| 0 <= r < now.runs.len() implies (#[trigger] now.runs[r]).wf() by {
                if r < run_id {
                    assert(now.runs[r] == before.runs[r]);
                    assert(before.runs[r].wf());
                }
            }
            assert forall|r: int| 0 <= r < self.runs@.len() implies
                (#[trigger] self.runs@[r]).edges@.no_duplicates() by {
                if r < run_id {
                    assert(self.runs@[r] == old(self).runs@[r]);
                }
            }
            assert forall|k: int| 0 <= k < now.queue.len() implies now.has_task(
                (#[trigger] now.queue[k]).queued_task.run_id,
                now.queue[k].queued_task.task_id,
            ) by {
                assert(before.has_task(before.queue[k].queued_task.run_id,
                    before.queue[k].queued_task.task_id));
            }
            assert forall|q: QueuedTaskView| #[trigger] now.in_flight.contains(q) implies
                now.has_task(
                q.run_id,
                q.task_id,
            ) by {
                assert(before.in_flight.contains(q));
            }
        }
        run_id
    }

    fn contains_logical_date(&self, dag_name: &str, dag_hash: &str,
        scheduled_date_for_dag_run: i64) -> (r: bool) {
        let name = dag_name.to_owned();
        let hash = dag_hash.to_owned();
        let mut i: usize = 0;
        while i < self.runs.len()
            invariant
                i <= self.runs.len(),
                name@ == dag_name@,
                hash@ == dag_hash@,
                forall|k: int| 0 <= k < i
                    ==> !#[trigger] self.model().run_is(k, dag_name@, dag_hash@,
                    scheduled_date_for_dag_run),
            decreases self.runs.len() - i,
        {
            if self.runs[i].dag_name == name && self.runs[i].dag_hash == hash
                && self.runs[i].scheduled_date == scheduled_date_for_dag_run {
                assert(self.state().run_is(i as int, dag_name@, dag_hash@,
                    scheduled_date_for_dag_run));
                return true;
            }
            i += 1;
        }
        false
    }

    fn get_trigger_params(&self, run_id: usize) -> (r: Option<Json>) {
        match &self.runs[run_id].trigger_params {
            Some(p) => Some(p.duplicate()),
            None => None,
        }
    }

    fn set_trigger_params(&mut self, run_id: usize, params: &Json) {
        let ghost before = self.model();
        self.runs[run_id].trigger_params = Some(params.duplicate());
        proof {
            let target = before.with_run(
                run_id,
                RunRecord { trigger_params: Some(params@), ..before.runs[run_id as int] },
            );
            assert(self.model().runs =~= target.runs);
            self.lemma_same_shape(before);
        }
    }

    fn append_new_task_and_set_status_to_pending(
        &mut self,
        run_id: usize,
        name: &str,
        function_name: &str,
        template_args: &Json,
        options: &TaskOptions,
        lazy_expand: bool,
        is_dynamic: bool,
        is_branch: bool,
        use_trigger_params: bool,
    ) -> (task_id: usize) {
        let ghost before = self.model();
        let task_id = self.runs[run_id].tasks.len();
        let task = Task {
            id: task_id,
            name: name.to_owned(),
            function: function_name.to_owned(),
            template_args: template_args.duplicate(),
            options: options.duplicate(),
            lazy_expand,
            is_dynamic,
            is_branch,
            use_trigger_params,
        };
        let entry = TaskEntry {
            task,
            status: TaskStatus::Pending,
            results: Vec::new(),
            depth: None,
            attempts: 0,
            log: Vec::new(),
        };
        proof {
            assert(entry@.results =~= Seq::empty());
            assert(entry@.log =~= Seq::empty());
        }
        let ghost record = entry@;
        self.runs[run_id].tasks.push(entry);
        proof {
            let old_run = before.runs[run_id as int];
            let new_run = RunRecord { tasks: old_run.tasks.push(record), ..old_run };
            assert(self.runs@[run_id as int]@.tasks =~= new_run.tasks);
            assert(self.model().runs =~= before.with_run(run_id, new_run).runs);
            assert(new_run.wf()) by {
                assert forall|i: int| 0 <= i < new_run.tasks.len() implies
                    (#[trigger] new_run.tasks[i]).task.id == i
                    && new_run.tasks[i].task.options.max_attempts >= 1 by {
                    if i < old_run.tasks.len() {
                        assert(old_run.tasks[i].task.id == i);
                    }
                }
                assert forall|e: (usize, usize)| #[trigger] new_run.edges.contains(e) implies
                    new_run.has_task(e.0) && new_run.has_task(e.1) by {
                    assert(old_run.edges.contains(e));
                }
            }
            self.lemma_grown_shape(before, run_id);
        }
        task_id
    }

    fn get_task_by_id(&self, run_id: usize, task_id: usize) -> (r: Task) {
        self.runs[run_id].tasks[task_id].task.duplicate()
    }

    fn get_all_tasks(&self, run_id: usize) -> (r: Vec<Task>) {
        let mut out: Vec<Task> = Vec::new();
        let mut i: usize = 0;
        while i < self.runs[run_id].tasks.len()
            invariant
                run_id < self.runs.len(),
                i <= self.runs@[run_id as int].tasks.len(),
                out@.len() == i,
                forall|k: int| 0 <= k < i
                    ==> (#[trigger] out@[k])@ == self.runs@[run_id as int].tasks@[k].task@,
            decreases self.runs@[run_id as int].tasks.len() - i,
        {
            out.push(self.runs[run_id].tasks[i].task.duplicate());
            i += 1;
        }
        out
    }

    fn get_template_args(&self, run_id: usize, task_id: usize) -> (r: Json) {
        self.runs[run_id].tasks[task_id].task.template_args.duplicate()
    }

    fn set_template_args(&mut self, run_id: usize, task_id: usize, template_args: &Json) {
        let ghost before = self.model();
        self.runs[run_id].tasks[task_id].task.template_args = template_args.duplicate();
        proof {
            let rec = before.record(run_id, task_id);
            let target = before.with_record(
                run_id,
                task_id,
                TaskRecord { task: TaskView { template_args: template_args@, ..rec.task }, ..rec },
            );
            self.lemma_record_changed(before, run_id, task_id, target);
        }
    }

    fn get_task_status(&self, run_id: usize, task_id: usize) -> (r: TaskStatus) {
        self.runs[run_id].tasks[task_id].status
    }

    fn set_task_status(&mut self, run_id: usize, task_id: usize, task_status: TaskStatus) {
        let ghost before = self.model();
        self.runs[run_id].tasks[task_id].status = task_status;
        proof {
            self.lemma_record_changed(before, run_id, task_id, before.with_status(run_id, task_id,
                task_status));
        }
    }

    fn insert_task_results(&mut self, run_id: usize, result: &TaskResult) {
        let ghost before = self.model();
        let task_id = result.task_id;
        self.runs[run_id].tasks[task_id].results.push(result.duplicate());
        proof {
            let rec = before.record(run_id, task_id);
            let target = before.with_record(
                run_id,
                task_id,
                TaskRecord { results: rec.results.push(result@), ..rec },
            );
            assert(self.runs@[run_id as int].tasks@[task_id as int]@.results =~= rec.results.push(result@));
            self.lemma_record_changed(before, run_id, task_id, target);
        }
    }

    fn get_task_result(&self, run_id: usize, task_id: usize) -> (r: TaskResult) {
        let results = &self.runs[run_id].tasks[task_id].results;
        results[results.len() - 1].duplicate()
    }

    fn get_all_results(&self, run_id: usize, task_id: usize) -> (r: Vec<TaskResult>) {
        let results = &self.runs[run_id].tasks[task_id].results;
        let mut out: Vec<TaskResult> = Vec::new();
        let mut i: usize = 0;
        while i < results.len()
            invariant
                i <= results.len(),
                out@.len() == i,
                forall|k: int| 0 <= k < i ==> out@[k]@ == results@[k]@,
            decreases results.len() - i,
        {
            out.push(results[i].duplicate());
            i += 1;
        }
        proof {
            assert(results_view(out@) =~= self.state().record(run_id, task_id).results);
        }
        out
    }

    fn insert_edge(&mut self, run_id: usize, edge: (usize, usize)) {
        let ghost before = self.model();
        let present = self.runs[run_id].has_edge(edge);
        let ghost old_edges = self.runs@[run_id as int].edges@;
        if !present {
            self.runs[run_id].edges.push(edge);
        }
        proof {
            let old_run = before.runs[run_id as int];
            let new_run = old_run.with_edges(old_run.edges.insert(edge));
            let edges = self.runs@[run_id as int].edges@;
            assert(edges.to_set() =~= old_edges.to_set().insert(edge)) by {
                assert forall|x: (usize, usize)| edges.to_set().contains(x)
                    == old_edges.to_set().insert(edge).contains(x) by {
                    if present {
                        assert(old_edges.contains(edge));
                    } else {
                        if old_edges.contains(x) {
                            let m = choose|m: int| 0 <= m < old_edges.len() && old_edges[m] == x;
                            assert(edges[m] == x);
                        }
                        if x == edge {
                            assert(edges[old_edges.len() as int] == x);
                        }
                    }
                }
            }
            assert(edges.no_duplicates());
            assert(self.runs@[run_id as int]@ == new_run);
            assert(self.model().runs =~= before.with_run(run_id, new_run).runs);
            assert(new_run.wf()) by {
                assert forall|e: (usize, usize)| #[trigger] new_run.edges.contains(e) implies
                    new_run.has_task(e.0) && new_run.has_task(e.1) by {
                    if e != edge {
                        assert(old_run.edges.contains(e));
                    }
                }
            }
            self.lemma_run_changed(before, run_id);
        }
    }

    fn remove_edge(&mut self, run_id: usize, edge: (usize, usize)) {
        let ghost before = self.model();
        let ghost old_edges = self.runs@[run_id as int].edges@;
        let found = edge_position(&self.runs[run_id].edges, edge);
        if let Some(at) = found {
            self.runs[run_id].edges.remove(at);
        }
        proof {
            let old_run = before.runs[run_id as int];
            let new_run = old_run.with_edges(old_run.edges.remove(edge));
            let edges = self.runs@[run_id as int].edges@;
            assert(edges.to_set() =~= old_edges.to_set().remove(edge)) by {
                assert forall|x: (usize, usize)| edges.to_set().contains(x)
                    == old_edges.to_set().remove(edge).contains(x) by {
                    match found {
                        Some(at) => {
                            if edges.contains(x) {
                                let m = choose|m: int| 0 <= m < edges.len() && edges[m] == x;
                                if m < at {
                                    assert(old_edges[m] == x);
                                } else {
                                    assert(old_edges[m + 1] == x);
                                }
                            }
                            if old_edges.contains(x) && x != edge {
                                let m = choose|m: int| 0 <= m < old_edges.len()
                                    && old_edges[m] == x;
                                if m < at {
                                    assert(edges[m] == x);
                                } else {
                                    assert(edges[m - 1] == x);
                                }
                            }
                        },
                        None => {
                            assert(edges == old_edges);
                        },
                    }
                }
            }
            assert(edges.no_duplicates());
            assert(self.runs@[run_id as int]@ == new_run);
            assert(self.model().runs =~= before.with_run(run_id, new_run).runs);
            assert(new_run.wf()) by {
                assert forall|e: (usize, usize)| #[trigger] new_run.edges.contains(e) implies
                    new_run.has_task(e.0) && new_run.has_task(e.1) by {
                    assert(old_run.edges.contains(e));
                }
            }
            self.lemma_run_changed(before, run_id);
        }
    }

    fn get_upstream(&self, run_id: usize, task_id: usize) -> (r: Vec<usize>) {
        let edges = &self.runs[run_id].edges;
        let mut out: Vec<usize> = Vec::new();
        let mut i: usize = 0;
        while i < edges.len()
            invariant
                i <= edges.len(),
                edges@.no_duplicates(),
                out@.no_duplicates(),
                forall|up: usize| out@.contains(up) <==> exists|k: int| 0 <= k < i
                    && edges@[k] == (up, task_id),
            decreases edges.len() - i,
        {
            let e = edges[i];
            if e.1 == task_id {
                proof {
                    if out@.contains(e.0) {
                        let k = choose|k: int| 0 <= k < i && edges@[k] == (e.0, task_id);
                        assert(edges@[k] == edges@[i as int]);
                    }
                    let grown = out@.push(e.0);
                    assert forall|up: usize| grown.contains(up)
                        <==> exists|k: int| 0 <= k < i + 1 && edges@[k] == (up, task_id) by {
                        if grown.contains(up) {
                            let m = choose|m: int| 0 <= m < grown.len() && grown[m] == up;
                            if m < out@.len() {
                                assert(out@.contains(up));
                                let k = choose|k: int| 0 <= k < i && edges@[k] == (up, task_id);
                                assert(0 <= k < i + 1 && edges@[k] == (up, task_id));
                            } else {
                                assert(edges@[i as int] == (up, task_id));
                            }
                        }
                        if exists|k: int| 0 <= k < i + 1 && edges@[k] == (up, task_id) {
                            let k = choose|k: int| 0 <= k < i + 1 && edges@[k] == (up, task_id);
                            if k < i {
                                assert(out@.contains(up));
                                let m = choose|m: int| 0 <= m < out@.len() && out@[m] == up;
                                assert(grown[m] == up);
                            } else {
                                assert(grown[out@.len() as int] == up);
                            }
                        }
                    }
                }
                out.push(e.0);
            } else {
                proof {
                    assert forall|up: usize| out@.contains(up)
                        <==> exists|k: int| 0 <= k < i + 1 && edges@[k] == (up, task_id) by {
                        if exists|k: int| 0 <= k < i + 1 && edges@[k] == (up, task_id) {
                            let k = choose|k: int| 0 <= k < i + 1 && edges@[k] == (up, task_id);
                            assert(k < i);
                        }
                    }
                }
            }
            i += 1;
        }
        proof {
            assert forall|up: usize| out@.contains(up)
                <==> self.state().runs[run_id as int].is_upstream(up, task_id) by {
                if edges@.contains((up, task_id)) {
                    let k = choose|k: int| 0 <= k < edges@.len() && edges@[k] == (up, task_id);
                    assert(0 <= k < i && edges@[k] == (up, task_id));
                }
            }
        }
        out
    }

    fn get_downstream(&self, run_id: usize, task_id: usize) -> (r: Vec<usize>) {
        let edges = &self.runs[run_id].edges;
        let mut out: Vec<usize> = Vec::new();
        let mut i: usize = 0;
        while i < edges.len()
            invariant
                i <= edges.len(),
                edges@.no_duplicates(),
                out@.no_duplicates(),
                forall|down: usize| out@.contains(down) <==> exists|k: int| 0 <= k < i
                    && edges@[k] == (task_id, down),
            decreases edges.len() - i,
        {
            let e = edges[i];
            if e.0 == task_id {
                proof {
                    if out@.contains(e.1) {
                        let k = choose|k: int| 0 <= k < i && edges@[k] == (task_id, e.1);
                        assert(edges@[k] == edges@[i as int]);
                    }
                    let grown = out@.push(e.1);
                    assert forall|down: usize| grown.contains(down)
                        <==> exists|k: int| 0 <= k < i + 1 && edges@[k] == (task_id, down) by {
                        if grown.contains(down) {
                            let m = choose|m: int| 0 <= m < grown.len() && grown[m] == down;
                            if m < out@.len() {
                                assert(out@.contains(down));
                                let k = choose|k: int| 0 <= k < i && edges@[k] == (task_id, down);
                                assert(0 <= k < i + 1 && edges@[k] == (task_id, down));
                            } else {
                                assert(edges@[i as int] == (task_id, down));
                            }
                        }
                        if exists|k: int| 0 <= k < i + 1 && edges@[k] == (task_id, down) {
                            let k = choose|k: int| 0 <= k < i + 1 && edges@[k] == (task_id, down);
                            if k < i {
                                assert(out@.contains(down));
                                let m = choose|m: int| 0 <= m < out@.len() && out@[m] == down;
                                assert(grown[m] == down);
                            } else {
                                assert(grown[out@.len() as int] == down);
                            }
                        }
                    }
                }
                out.push(e.1);
            } else {
                proof {
                    assert forall|down: usize| out@.contains(down)
                        <==> exists|k: int| 0 <= k < i + 1 && edges@[k] == (task_id, down) by {
                        if exists|k: int| 0 <= k < i + 1 && edges@[k] == (task_id, down) {
                            let k = choose|k: int| 0 <= k < i + 1 && edges@[k] == (task_id, down);
                            assert(k < i);
                        }
                    }
                }
            }
            i += 1;
        }
        proof {
            assert forall|down: usize| out@.contains(down)
                <==> self.state().runs[run_id as int].is_upstream(task_id, down) by {
                if edges@.contains((task_id, down)) {
                    let k = choose|k: int| 0 <= k < edges@.len() && edges@[k] == (task_id, down);
                    assert(0 <= k < i && edges@[k] == (task_id, down));
                }
            }
        }
        out
    }

    fn get_task_depth(&mut self, run_id: usize, task_id: usize) -> (depth: usize) {
        let ghost before = self.model();
        let fuel = self.runs[run_id].tasks.len();
        let depth = self.runs[run_id].depth_within(task_id, fuel);
        self.runs[run_id].tasks[task_id].depth = Some(depth);
        proof {
            self.lemma_record_changed(before, run_id, task_id, before.with_depth(run_id, task_id,
                Some(depth)));
        }
        depth
    }

    fn set_task_depth(&mut self, run_id: usize, task_id: usize, depth: usize) {
        let ghost before = self.model();
        self.runs[run_id].tasks[task_id].depth = Some(depth);
        proof {
            self.lemma_record_changed(before, run_id, task_id, before.with_depth(run_id, task_id,
                Some(depth)));
        }
    }

    fn delete_task_depth(&mut self, run_id: usize, task_id: usize) {
        let ghost before = self.model();
        self.runs[run_id].tasks[task_id].depth = None;
        proof {
            self.lemma_record_changed(before, run_id, task_id, before.with_depth(run_id, task_id,
                None));
        }
    }

    fn get_attempt_by_task_id(&mut self, run_id: usize, task_id: usize) -> (attempt: usize) {
        let ghost before = self.model();
        let attempt = self.runs[run_id].tasks[task_id].attempts + 1;
        self.runs[run_id].tasks[task_id].attempts = attempt;
        proof {
            let rec = before.record(run_id, task_id);
            self.lemma_record_changed(before, run_id, task_id, before.with_record(run_id,
                task_id, TaskRecord { attempts: attempt, ..rec }));
        }
        attempt
    }

    fn enqueue_task(
        &mut self,
        run_id: usize,
        task_id: usize,
        scheduled_date_for_dag_run: i64,
        dag_name: &str,
        attempt: usize,
        queued_date: i64,
    ) {
        let ghost before = self.model();
        let depth = self.get_task_depth(run_id, task_id);
        let ghost cached = self.model();
        // take out the entry that the queue holds of the task
        let found = queue_position(&self.queue, run_id, task_id);
        if let Some(at) = found {
            self.queue.remove(at);
        }
        let ghost base = queue_view(self.queue@);
        proof {
            match found {
                Some(at) => {
                    assert(base =~= cached.queue.remove(at as int));
                    assert forall|k: int| 0 <= k < cached.queue.len() && k != at implies
                        !entry_of(#[trigger] cached.queue[k], run_id, task_id) by {
                        assert(entry_of(cached.queue[at as int],
                            cached.queue[k].queued_task.run_id,
                            cached.queue[k].queued_task.task_id) ==> at == k);
                    }
                    lemma_without_one(cached.queue, run_id, task_id, at as int);
                },
                None => {
                    assert(base =~= cached.queue);
                    lemma_without_task_absent(cached.queue, run_id, task_id);
                },
            }
            assert(base == without_task(before.queue, run_id, task_id));
            lemma_without_sorted(cached.queue, run_id, task_id);
        }
        // the first place behind every entry of no greater score
        let mut pos: usize = 0;
        while pos < self.queue.len() && self.queue[pos].score <= depth
            invariant
                pos <= self.queue.len(),
                queue_view(self.queue@) == base,
                forall|k: int| 0 <= k < pos ==> (#[trigger] base[k]).score <= depth,
            decreases self.queue.len() - pos,
        {
            pos += 1;
        }
        proof {
            assert forall|k: int| pos <= k < base.len() implies
                (#[trigger] base[k]).score > depth by {
                assert(base[pos as int].score > depth);
                if k > pos {
                    assert(base[pos as int].score <= base[k].score);
                }
            }
        }
        let entry = OrderedQueuedTask {
            score: depth,
            queued_task: QueuedTask {
                run_id,
                task_id,
                dag_name: dag_name.to_owned(),
                scheduled_date_for_dag_run,
                attempt,
                queued_date,
            },
        };
        let ghost e = entry@;
        self.queue.insert(pos, entry);
        proof {
            let after = queue_view(self.queue@);
            assert(after =~= base.insert(pos as int, e));
            assert(self.model() == cached.with_queue(after));
            lemma_enqueued_in_order(cached, run_id, task_id, e, pos as int, after);
        }
    }

    fn pop_priority_queue(&mut self) -> (r: Option<OrderedQueuedTask>) {
        if self.queue.len() == 0 {
            return None;
        }
        let ghost before = self.model();
        let ghost old_flight = queued_view(self.in_flight@);
        let first = self.queue.remove(0);
        let present = flight_position(&self.in_flight, &first.queued_task).is_some();
        if !present {
            self.in_flight.push(first.queued_task.duplicate());
        }
        proof {
            let q = first.queued_task@;
            let flight = queued_view(self.in_flight@);
            assert(queue_view(self.queue@) =~= before.queue.drop_first());
            assert(flight.to_set() =~= old_flight.to_set().insert(q)) by {
                assert forall|x: QueuedTaskView| flight.to_set().contains(x)
                    == old_flight.to_set().insert(q).contains(x) by {
                    if present {
                        let k = choose|k: int| 0 <= k < old_flight.len()
                            && old(self).in_flight@[k]@ == q;
                        assert(old_flight[k] == q);
                    } else {
                        assert forall|k: int| 0 <= k < old_flight.len() implies
                            old_flight[k] != q by {
                            assert(old(self).in_flight@[k]@ != q);
                        }
                        if old_flight.contains(x) {
                            let m = choose|m: int| 0 <= m < old_flight.len() && old_flight[m] == x;
                            assert(flight[m] == x);
                        }
                        if x == q {
                            assert(flight[old_flight.len() as int] == x);
                        }
                        if flight.contains(x) {
                            let m = choose|m: int| 0 <= m < flight.len() && flight[m] == x;
                            if m < old_flight.len() {
                                assert(old_flight[m] == x);
                            }
                        }
                    }
                }
            }
            assert(flight.no_duplicates()) by {
                if !present {
                    assert forall|a: int, b: int| 0 <= a < flight.len() && 0 <= b < flight.len()
                        && a != b implies flight[a] != flight[b] by {
                        if a < old_flight.len() && b < old_flight.len() {
                            assert(old_flight[a] != old_flight[b]);
                        } else if a < old_flight.len() {
                            assert(old_flight[a] == flight[a]);
                        } else {
                            assert(old_flight[b] == flight[b]);
                        }
                    }
                } else {
                    assert(flight =~= old_flight);
                }
            }
            let now = self.model();
            assert(now
                == before.with_queue(before.queue.drop_first()).with_in_flight(before.in_flight.insert(q)));
            assert(before.has_task(before.queue[0].queued_task.run_id,
                before.queue[0].queued_task.task_id));
            assert(q == before.queue[0].queued_task);
            lemma_runs_kept(before, now);
            assert forall|x: QueuedTaskView| #[trigger] now.in_flight.contains(x) implies
                now.has_task(x.run_id, x.task_id) by {
                if x != q {
                    assert(before.in_flight.contains(x));
                }
            }
            assert forall|k: int| 0 <= k < now.queue.len() implies now.has_task(
                (#[trigger] now.queue[k]).queued_task.run_id,
                now.queue[k].queued_task.task_id,
            ) by {
                assert(now.queue[k] == before.queue[k + 1]);
            }
            assert forall|a: int, b: int|
                0 <= a < now.queue.len() && 0 <= b < now.queue.len() && entry_of(
                    #[trigger] now.queue[a],
                    (#[trigger] now.queue[b]).queued_task.run_id,
                    now.queue[b].queued_task.task_id,
                ) implies a == b by {
                assert(now.queue[a] == before.queue[a + 1]);
                assert(now.queue[b] == before.queue[b + 1]);
            }
            assert(sorted_by_score(now.queue)) by {
                assert forall|a: int, b: int| 0 <= a < b < now.queue.len() implies
                    (#[trigger] now.queue[a]).score <= (#[trigger] now.queue[b]).score by {
                    assert(before.queue[a + 1].score <= before.queue[b + 1].score);
                }
            }
        }
        Some(first)
    }

    fn remove_from_temp_queue(&mut self, queued_task: &QueuedTask) {
        let ghost before = self.model();
        let ghost old_flight = queued_view(self.in_flight@);
        let found = flight_position(&self.in_flight, queued_task);
        if let Some(at) = found {
            self.in_flight.remove(at);
        }
        proof {
            let q = queued_task@;
            let flight = queued_view(self.in_flight@);
            match found {
                Some(at) => {
                    assert(flight =~= old_flight.remove(at as int));
                },
                None => {
                    assert(flight =~= old_flight);
                },
            }
            assert(flight.to_set() =~= old_flight.to_set().remove(q)) by {
                assert forall|x: QueuedTaskView| flight.to_set().contains(x)
                    == old_flight.to_set().remove(q).contains(x) by {
                    match found {
                        Some(at) => {
                            assert(old_flight[at as int] == q);
                            if flight.contains(x) {
                                let m = choose|m: int| 0 <= m < flight.len() && flight[m] == x;
                                if m < at {
                                    assert(old_flight[m] == x);
                                } else {
                                    assert(old_flight[m + 1] == x);
                                }
                            }
                            if old_flight.contains(x) && x != q {
                                let m = choose|m: int| 0 <= m < old_flight.len()
                                    && old_flight[m] == x;
                                if m < at {
                                    assert(flight[m] == x);
                                } else {
                                    assert(flight[m - 1] == x);
                                }
                            }
                        },
                        None => {
                            if old_flight.contains(q) {
                                let m = choose|m: int| 0 <= m < old_flight.len()
                                    && old_flight[m] == q;
                                assert(old(self).in_flight@[m]@ != q);
                            }
                        },
                    }
                }
            }
            assert(flight.no_duplicates());
            let now = self.model();
            assert(now == before.with_in_flight(before.in_flight.remove(q)));
            lemma_runs_kept(before, now);
            assert forall|x: QueuedTaskView| #[trigger] now.in_flight.contains(x) implies
                now.has_task(x.run_id, x.task_id) by {
                assert(before.in_flight.contains(x));
            }
        }
    }

    fn append_log_line(&mut self, run_id: usize, task_id: usize, attempt: usize, line: &str) {
        let ghost before = self.model();
        self.runs[run_id].tasks[task_id].log.push((attempt, line.to_owned()));
        proof {
            let rec = before.record(run_id, task_id);
            let target = before.with_record(
                run_id,
                task_id,
                TaskRecord { log: rec.log.push((attempt, line@)), ..rec },
            );
            assert(self.runs@[run_id as int].tasks@[task_id as int]@.log =~= rec.log.push((attempt,
                line@)));
            self.lemma_record_changed(before, run_id, task_id, target);
        }
    }

    fn get_log(&self, run_id: usize, task_id: usize, attempt: usize) -> (r: String) {
        let log = &self.runs[run_id].tasks[task_id].log;
        let ghost all = log_view(log@);
        let mut out = String::new();
        let mut first = true;
        let mut i: usize = 0;
        proof {
            assert(all.subrange(0, 0) =~= Seq::empty());
        }
        while i < log.len()
            invariant
                i <= log.len(),
                all == log_view(log@),
                first == (attempt_lines(all.subrange(0, i as int), attempt).len() == 0),
                out@ == joined_lines(attempt_lines(all.subrange(0, i as int), attempt)),
            decreases log.len() - i,
        {
            proof {
                let prefix = all.subrange(0, i + 1);
                assert(prefix.drop_last() =~= all.subrange(0, i as int));
                assert(prefix.last() == (log@[i as int].0, log@[i as int].1@));
                let lines = attempt_lines(all.subrange(0, i as int), attempt);
                let more = lines.push(log@[i as int].1@);
                assert(more.drop_last() =~= lines);
                assert(more.last() == log@[i as int].1@);
                if lines.len() == 0 {
                    assert(more[0] == log@[i as int].1@);
                    assert(Seq::<char>::empty() + log@[i as int].1@ =~= log@[i as int].1@);
                }
            }
            if log[i].0 == attempt {
                if !first {
                    out.append("\n");
                }
                out.append(log[i].1.as_str());
                first = false;
            }
            i += 1;
        }
        proof {
            assert(all.subrange(0, i as int) =~= all);
        }
        out
    }

    fn take_last_stdout_line(&mut self, run_id: usize, task_id: usize,
        attempt: usize) -> (r: String) {
        let ghost before = self.model();
        let ghost log0 = before.record(run_id, task_id).log;
        let mut k: usize = self.runs[run_id].tasks[task_id].log.len();
        while k > 0 && self.runs[run_id].tasks[task_id].log[k - 1].0 != attempt
            invariant
                *self == *old(self),
                run_id < self.runs.len(),
                task_id < self.runs@[run_id as int].tasks.len(),
                k <= self.runs@[run_id as int].tasks@[task_id as int].log.len(),
                forall|j: int| k <= j < self.runs@[run_id as int].tasks@[task_id as int].log.len() ==> (#[trigger] self.runs@[run_id as int].tasks@[task_id as int].log@[j]).0 != attempt,
            decreases k,
        {
            k -= 1;
        }
        if k == 0 {
            proof {
                assert(is_last_line_of(log0, attempt, -1)) by {
                    assert forall|j: int| -1 < j < log0.len() implies
                        (#[trigger] log0[j]).0 != attempt by {
                        assert(self.runs@[run_id as int].tasks@[task_id as int].log@[j].0 != attempt);
                    }
                }
            }
            return "null".to_owned();
        }
        let line = self.runs[run_id].tasks[task_id].log.remove(k - 1);
        proof {
            let at = k - 1;
            assert(is_last_line_of(log0, attempt, at)) by {
                assert(log0[at].0 == attempt);
                assert forall|j: int| at < j < log0.len() implies
                    (#[trigger] log0[j]).0 != attempt by {
                    assert(old(self).runs@[run_id as int].tasks@[task_id as int].log@[j].0 != attempt);
                }
            }
            let rec = before.record(run_id, task_id);
            let target = before.with_record(run_id, task_id, TaskRecord { log: log0.remove(at),
                ..rec });
            assert(self.runs@[run_id as int].tasks@[task_id as int]@.log =~= log0.remove(at));
            self.lemma_record_changed(before, run_id, task_id, target);
        }
        line.1
    }

    fn get_queue_length(&self) -> (r: usize) {
        self.queue.len()
    }

    fn get_temp_queue(&self) -> (r: Vec<QueuedTask>) {
        let mut out: Vec<QueuedTask> = Vec::new();
        let mut i: usize = 0;
        while i < self.in_flight.len()
            invariant
                i <= self.in_flight.len(),
                out@.len() == i,
                forall|k: int| 0 <= k < i ==> (#[trigger] out@[k])@ == self.in_flight@[k]@,
            decreases self.in_flight.len() - i,
        {
            out.push(self.in_flight[i].duplicate());
            i += 1;
        }
        proof {
            let flight = queued_view(self.in_flight@);
            assert forall|a: int, b: int| 0 <= a < b < out@.len() implies
                (#[trigger] out@[a])@ != (#[trigger] out@[b])@ by {
                assert(flight[a] != flight[b]);
            }
            assert forall|k: int| 0 <= k < out@.len() implies
                self.state().in_flight.contains((#[trigger] out@[k])@) by {
                assert(flight[k] == out@[k]@);
                assert(flight.contains(flight[k]));
            }
            assert forall|q: QueuedTaskView| self.state().in_flight.contains(q) implies
                exists|k: int| 0 <= k < out@.len() && (#[trigger] out@[k])@ == q by {
                let m = choose|m: int| 0 <= m < flight.len() && flight[m] == q;
                assert(out@[m]@ == q);
            }
        }
        out
    }

    fn get_running_tasks_count(&self) -> (r: usize) {
        proof {
            queued_view(self.in_flight@).unique_seq_to_set();
        }
        self.in_flight.len()
    }
}

/// A state with the runs of a well-formed one has well-formed runs, no two
/// of one pipeline, version and date.
proof fn lemma_runs_kept(before: BackendState, now: BackendState)
    requires
        before.wf(),
        now.runs == before.runs,
    ensures
        forall|r: int| 0 <= r < now.runs.len() ==> (#[trigger] now.runs[r]).wf(),
        forall|r: int, s: int|
            0 <= r < now.runs.len() && #[trigger] now.run_is(
                s,
                now.runs[r].dag_name,
                now.runs[r].dag_hash,
                now.runs[r].scheduled_date,
            ) ==> r == s,
{
    assert forall|r: int, s: int|
        0 <= r < now.runs.len() && #[trigger] now.run_is(
            s,
            now.runs[r].dag_name,
            now.runs[r].dag_hash,
            now.runs[r].scheduled_date,
        ) implies r == s by {
        assert(before.run_is(
            s,
            before.runs[r].dag_name,
            before.runs[r].dag_hash,
            before.runs[r].scheduled_date,
        ));
    }
}

/// What is left of a queue in order is in order.
proof fn lemma_without_sorted(q: Seq<OrderedQueuedTaskView>, run: usize, task: usize)
    requires
        sorted_by_score(q),
    ensures
        sorted_by_score(without_task(q, run, task)),
    decreases q.len(),
{
    reveal(Seq::filter);
    if q.len() > 0 {
        let front = q.drop_last();
        assert(sorted_by_score(front)) by {
            assert forall|i: int, j: int| 0 <= i < j < front.len() implies
                (#[trigger] front[i]).score <= (#[trigger] front[j]).score by {
                assert(q[i].score <= q[j].score);
            }
        }
        lemma_without_sorted(front, run, task);
        let kept_front = without_task(front, run, task);
        let kept = without_task(q, run, task);
        if !entry_of(q.last(), run, task) {
            assert(kept == kept_front.push(q.last()));
            lemma_without_entries(front, run, task);
            assert forall|i: int, j: int| 0 <= i < j < kept.len() implies
                (#[trigger] kept[i]).score <= (#[trigger] kept[j]).score by {
                if j < kept_front.len() {
                    assert(kept_front[i].score <= kept_front[j].score);
                } else {
                    assert(kept_front.contains(kept_front[i]));
                    let m = choose|m: int| 0 <= m < front.len() && front[m] == kept_front[i];
                    assert(q[m].score <= q[q.len() - 1].score);
                }
            }
        } else {
            assert(kept == kept_front);
        }
    }
}

/// Putting the entry of a task in at `pos`, in place of what the queue held
/// of the task, leaves a well-formed state with the queue in order.
proof fn lemma_enqueued_in_order(
    cached: BackendState,
    run: usize,
    task: usize,
    e: OrderedQueuedTaskView,
    pos: int,
    after: Seq<OrderedQueuedTaskView>,
)
    requires
        cached.wf(),
        cached.has_task(run, task),
        entry_of(e, run, task),
        0 <= pos <= without_task(cached.queue, run, task).len(),
        after == without_task(cached.queue, run, task).insert(pos, e),
        sorted_by_score(without_task(cached.queue, run, task)),
        forall|k: int| 0 <= k < pos
            ==> (#[trigger] without_task(cached.queue, run, task)[k]).score <= e.score,
        forall|k: int|
            pos <= k < without_task(cached.queue, run, task).len() ==> (#[trigger] without_task(
                cached.queue,
                run,
                task,
            )[k]).score > e.score,
    ensures
        sorted_by_score(after),
        cached.with_queue(after).wf(),
{
    let base = without_task(cached.queue, run, task);
    let now = cached.with_queue(after);
    assert forall|a: int, b: int| 0 <= a < b < after.len() implies
        (#[trigger] after[a]).score <= (#[trigger] after[b]).score by {
        let a0 = if a < pos { a } else { a - 1 };
        let b0 = if b < pos { b } else { b - 1 };
        if a != pos && b != pos {
            assert(after[a] == base[a0]);
            assert(after[b] == base[b0]);
            assert(base[a0].score <= base[b0].score);
        } else if a == pos {
            assert(after[b] == base[b0]);
            assert(base[b0].score > e.score);
        } else {
            assert(after[a] == base[a0]);
            assert(base[a0].score <= e.score);
        }
    }
    lemma_runs_kept(cached, now);
    lemma_without_entries(cached.queue, run, task);
    assert forall|k: int| 0 <= k < now.queue.len() implies now.has_task(
        (#[trigger] now.queue[k]).queued_task.run_id,
        now.queue[k].queued_task.task_id,
    ) by {
        if k != pos {
            let k0 = if k < pos { k } else { k - 1 };
            assert(after[k] == base[k0]);
            assert(base.contains(base[k0]));
            let m = choose|m: int| 0 <= m < cached.queue.len() && cached.queue[m] == base[k0];
            assert(cached.has_task(cached.queue[m].queued_task.run_id,
                cached.queue[m].queued_task.task_id));
        }
    }
    assert forall|a: int, b: int|
        0 <= a < now.queue.len() && 0 <= b < now.queue.len() && entry_of(
            #[trigger] now.queue[a],
            (#[trigger] now.queue[b]).queued_task.run_id,
            now.queue[b].queued_task.task_id,
        ) implies a == b by {
        let a0 = if a < pos { a } else { a - 1 };
        let b0 = if b < pos { b } else { b - 1 };
        if a != pos {
            assert(after[a] == base[a0]);
            assert(base.contains(base[a0]));
        }
        if b != pos {
            assert(after[b] == base[b0]);
            assert(base.contains(base[b0]));
        }
        if a != pos && b != pos && a0 != b0 {
            lemma_without_keeps_order(cached.queue, run, task, a0, b0);
        }
    }
}

/// With one entry of the task in the queue, the queue without the task is
/// the queue without that entry.
proof fn lemma_without_one(q: Seq<OrderedQueuedTaskView>, run: usize, task: usize, at: int)
    requires
        0 <= at < q.len(),
        entry_of(q[at], run, task),
        forall|k: int| 0 <= k < q.len() && k != at ==> !entry_of(#[trigger] q[k], run, task),
    ensures
        without_task(q, run, task) == q.remove(at),
    decreases q.len(),
{
    reveal(Seq::filter);
    let front = q.drop_last();
    if at == q.len() - 1 {
        lemma_without_task_absent(front, run, task);
        assert(q.remove(at) =~= front);
    } else {
        lemma_without_one(front, run, task, at);
        assert(q.remove(at) =~= front.remove(at).push(q.last()));
    }
}

/// What is left of a queue without a task are entries of the queue, none of
/// them of the task.
proof fn lemma_without_entries(q: Seq<OrderedQueuedTaskView>, run: usize, task: usize)
    ensures
        forall|e: OrderedQueuedTaskView| #[trigger]
            without_task(q, run, task).contains(e) ==> q.contains(e) && !entry_of(e, run, task),
{
    let keep = of_another_task(run, task);
    assert forall|e: OrderedQueuedTaskView| #[trigger]
        without_task(q, run, task).contains(e) implies q.contains(e) && !entry_of(e, run, task) by {
        let kept = q.filter(keep);
        let i = choose|i: int| 0 <= i < kept.len() && kept[i] == e;
        q.lemma_filter_pred(keep, i);
        q.lemma_filter_contains_rev(keep, e);
    }
}

/// Two different places of what is left hold entries of two different places
/// of the queue.
proof fn lemma_without_keeps_order(
    q: Seq<OrderedQueuedTaskView>,
    run: usize,
    task: usize,
    a: int,
    b: int,
)
    requires
        0 <= a < without_task(q, run, task).len(),
        0 <= b < without_task(q, run, task).len(),
        a != b,
        forall|i: int, j: int|
            0 <= i < q.len() && 0 <= j < q.len() && entry_of(
                #[trigger] q[i],
                (#[trigger] q[j]).queued_task.run_id,
                q[j].queued_task.task_id,
            ) ==> i == j,
    ensures
        !entry_of(
            without_task(q, run, task)[a],
            without_task(q, run, task)[b].queued_task.run_id,
            without_task(q, run, task)[b].queued_task.task_id,
        ),
    decreases q.len(),
{
    reveal(Seq::filter);
    let kept = without_task(q, run, task);
    if q.len() > 0 {
        let front = q.drop_last();
        let kept_front = without_task(front, run, task);
        lemma_without_entries(front, run, task);
        if !entry_of(q.last(), run, task) {
            assert(kept == kept_front.push(q.last()));
            if a < kept_front.len() && b < kept_front.len() {
                lemma_without_keeps_order(front, run, task, a, b);
            } else {
                let other = if a < kept_front.len() { a } else { b };
                assert(kept_front.contains(kept_front[other]));
                let i = choose|i: int| 0 <= i < front.len() && front[i] == kept_front[other];
                assert(q[i] == kept_front[other]);
                assert(q[q.len() - 1] == q.last());
            }
        } else {
            assert(kept == kept_front);
            lemma_without_keeps_order(front, run, task, a, b);
        }
    }
}

impl InMemoryBackend {
    /// A change inside the runs that keeps what tasks there are keeps the
    /// queue and the attempts in flight well formed.
    proof fn lemma_same_shape(&self, before: BackendState)
        requires
            before.wf(),
            self.model().runs.len() == before.runs.len(),
            forall|r: int| 0 <= r < before.runs.len() ==> {
                &&& (#[trigger] self.model().runs[r]).tasks.len() == before.runs[r].tasks.len()
                &&& self.model().runs[r].dag_name == before.runs[r].dag_name
                &&& self.model().runs[r].dag_hash == before.runs[r].dag_hash
                &&& self.model().runs[r].scheduled_date == before.runs[r].scheduled_date
                &&& self.model().runs[r].wf()
            },
            self.model().queue == before.queue,
            self.model().in_flight == before.in_flight,
        ensures
            self.model().wf(),
    {
        let now = self.model();
        assert forall|r: int, s: int|
            0 <= r < now.runs.len() && #[trigger] now.run_is(
                s,
                now.runs[r].dag_name,
                now.runs[r].dag_hash,
                now.runs[r].scheduled_date,
            ) implies r == s by {
            assert(before.run_is(
                s,
                before.runs[r].dag_name,
                before.runs[r].dag_hash,
                before.runs[r].scheduled_date,
            ));
        }
        assert forall|k: int| 0 <= k < now.queue.len() implies now.has_task(
            (#[trigger] now.queue[k]).queued_task.run_id,
            now.queue[k].queued_task.task_id,
        ) by {
            assert(before.has_task(before.queue[k].queued_task.run_id,
                before.queue[k].queued_task.task_id));
        }
        assert forall|q: QueuedTaskView| #[trigger] now.in_flight.contains(q) implies now.has_task(
            q.run_id,
            q.task_id,
        ) by {
            assert(before.in_flight.contains(q));
        }
    }

    /// A run that gained a task leaves the state well formed.
    proof fn lemma_grown_shape(&self, before: BackendState, run_id: usize)
        requires
            before.wf(),
            before.has_run(run_id),
            self.model().runs.len() == before.runs.len(),
            forall|r: int| 0 <= r < before.runs.len() && r != run_id
                ==> #[trigger] self.model().runs[r] == before.runs[r],
            self.model().runs[run_id as int].tasks.len() >= before.runs[run_id as int].tasks.len(),
            self.model().runs[run_id as int].dag_name == before.runs[run_id as int].dag_name,
            self.model().runs[run_id as int].dag_hash == before.runs[run_id as int].dag_hash,
            self.model().runs[run_id as int].scheduled_date
                == before.runs[run_id as int].scheduled_date,
            self.model().runs[run_id as int].wf(),
            self.model().queue == before.queue,
            self.model().in_flight == before.in_flight,
            self.model().default_tasks == before.default_tasks,
            self.model().default_edges == before.default_edges,
        ensures
            self.model().wf(),
    {
        let now = self.model();
        assert forall|r: int| 0 <= r < now.runs.len() implies (#[trigger] now.runs[r]).wf() by {
            if r != run_id {
                assert(before.runs[r].wf());
            }
        }
        assert forall|r: int, s: int|
            0 <= r < now.runs.len() && #[trigger] now.run_is(
                s,
                now.runs[r].dag_name,
                now.runs[r].dag_hash,
                now.runs[r].scheduled_date,
            ) implies r == s by {
            assert(before.run_is(
                s,
                before.runs[r].dag_name,
                before.runs[r].dag_hash,
                before.runs[r].scheduled_date,
            ));
        }
        assert forall|k: int| 0 <= k < now.queue.len() implies now.has_task(
            (#[trigger] now.queue[k]).queued_task.run_id,
            now.queue[k].queued_task.task_id,
        ) by {
            assert(before.has_task(before.queue[k].queued_task.run_id,
                before.queue[k].queued_task.task_id));
        }
        assert forall|q: QueuedTaskView| #[trigger] now.in_flight.contains(q) implies now.has_task(
            q.run_id,
            q.task_id,
        ) by {
            assert(before.in_flight.contains(q));
        }
    }

    /// The run `run_id` was replaced by one that is well formed and has the
    /// same tasks.
    proof fn lemma_run_changed(&self, before: BackendState, run_id: usize)
        requires
            before.wf(),
            before.has_run(run_id),
            self.model().runs.len() == before.runs.len(),
            forall|r: int| 0 <= r < before.runs.len() && r != run_id
                ==> #[trigger] self.model().runs[r] == before.runs[r],
            self.model().runs[run_id as int].tasks == before.runs[run_id as int].tasks,
            self.model().runs[run_id as int].dag_name == before.runs[run_id as int].dag_name,
            self.model().runs[run_id as int].dag_hash == before.runs[run_id as int].dag_hash,
            self.model().runs[run_id as int].scheduled_date
                == before.runs[run_id as int].scheduled_date,
            self.model().runs[run_id as int].wf(),
            self.model().queue == before.queue,
            self.model().in_flight == before.in_flight,
            self.model().default_tasks == before.default_tasks,
            self.model().default_edges == before.default_edges,
        ensures
            self.model().wf(),
    {
        self.lemma_grown_shape(before, run_id);
    }

    /// One record of one run was replaced, and the task in it kept its id and
    /// its number of attempts.
    proof fn lemma_record_changed(&self, before: BackendState, run_id: usize, task_id: usize,
        target: BackendState)
        requires
            before.wf(),
            before.has_task(run_id, task_id),
            target == before.with_record(run_id, task_id, target.record(run_id, task_id)),
            target.record(run_id, task_id).task.id == task_id,
            target.record(run_id, task_id).task.options.max_attempts >= 1,
            self.runs@.len() == before.runs.len(),
            forall|r: int| 0 <= r < before.runs.len() && r != run_id
                ==> (#[trigger] self.runs@[r])@ == before.runs[r],
            self.runs@[run_id as int].dag_name@ == before.runs[run_id as int].dag_name,
            self.runs@[run_id as int].dag_hash@ == before.runs[run_id as int].dag_hash,
            self.runs@[run_id as int].scheduled_date == before.runs[run_id as int].scheduled_date,
            self.runs@[run_id as int]@.trigger_params == before.runs[run_id as int].trigger_params,
            self.runs@[run_id as int]@.edges == before.runs[run_id as int].edges,
            self.runs@[run_id as int].tasks@.len() == before.runs[run_id as int].tasks.len(),
            forall|t: int| 0 <= t < before.runs[run_id as int].tasks.len() && t != task_id
                ==> (#[trigger] self.runs@[run_id as int].tasks@[t])@
                == before.runs[run_id as int].tasks[t],
            self.runs@[run_id as int].tasks@[task_id as int]@ == target.record(run_id, task_id),
            self.model().queue == before.queue,
            self.model().in_flight == before.in_flight,
            self.model().default_tasks == before.default_tasks,
            self.model().default_edges == before.default_edges,
        ensures
            self.model() == target,
            self.model().wf(),
    {
        let now = self.model();
        let old_run = before.runs[run_id as int];
        let new_run = target.runs[run_id as int];
        assert(now.runs[run_id as int].tasks =~= new_run.tasks);
        assert(now.runs[run_id as int] == new_run);
        assert(now.runs =~= target.runs);
        assert(new_run.wf()) by {
            assert forall|i: int| 0 <= i < new_run.tasks.len() implies
                (#[trigger] new_run.tasks[i]).task.id == i
                && new_run.tasks[i].task.options.max_attempts >= 1 by {
                if i != task_id {
                    assert(old_run.tasks[i].task.id == i);
                }
            }
            assert forall|e: (usize, usize)| #[trigger] new_run.edges.contains(e) implies
                new_run.has_task(e.0) && new_run.has_task(e.1) by {
                assert(old_run.edges.contains(e));
            }
        }
        self.lemma_grown_shape(before, run_id);
    }
}

} // verus!
