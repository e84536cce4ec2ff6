//! Tasks, their options and results, and the entries of the queues.
//!
//! Times are milliseconds since the Unix epoch; durations are milliseconds.

use crate::json::{field_of, Json, JsonValue};
use crate::status::TriggerRule;
use vstd::prelude::*;

verus! {

/// Where a task's work is carried out.
#[derive(Clone, Copy, Debug, PartialEq, Eq, Structural)]
pub enum Executor {
    Local,
    Docker,
    Kubernetes,
}

/// The name that stands in a task's `function` when the task is a command.
pub open spec fn command_function() -> Seq<char> {
    "command"@
}

/// How a task is run: how often, after which delay, within which time, and on
/// which outcome of its upstreams.
#[derive(Clone, Debug, PartialEq, Eq)]
pub struct TaskOptions {
    pub max_attempts: usize,
    pub retry_delay: u64,
    pub timeout: Option<u64>,
    pub trigger_rule: TriggerRule,
    pub is_sensor: bool,
    pub label: Option<String>,
    pub executor: Executor,
}

pub struct TaskOptionsView {
    pub max_attempts: usize,
    pub retry_delay: u64,
    pub timeout: Option<u64>,
    pub trigger_rule: TriggerRule,
    pub is_sensor: bool,
    pub label: Option<Seq<char>>,
    pub executor: Executor,
}

impl View for TaskOptions {
    type V = TaskOptionsView;

    open spec fn view(&self) -> TaskOptionsView {
        TaskOptionsView {
            max_attempts: self.max_attempts,
            retry_delay: self.retry_delay,
            timeout: self.timeout,
            trigger_rule: self.trigger_rule,
            is_sensor: self.is_sensor,
            label: match self.label {
                Some(l) => Some(l@),
                None => None,
            },
            executor: self.executor,
        }
    }
}

impl TaskOptionsView {
    /// One attempt, no delay, no timeout, all upstreams to succeed.
    pub open spec fn standard() -> TaskOptionsView {
        TaskOptionsView {
            max_attempts: 1,
            retry_delay: 0,
            timeout: None,
            trigger_rule: TriggerRule::AllSuccess,
            is_sensor: false,
            label: None,
            executor: Executor::Local,
        }
    }
}

impl TaskOptions {
    /// A task is attempted at least once.
    pub open spec fn wf(&self) -> bool {
        self.max_attempts >= 1
    }

    /// One attempt, no delay, no timeout, all upstreams to succeed.
    pub fn new() -> (r: TaskOptions)
        ensures
            r@ == TaskOptionsView::standard(),
            r.wf(),
    {
        TaskOptions {
            max_attempts: 1,
            retry_delay: 0,
            timeout: None,
            trigger_rule: TriggerRule::AllSuccess,
            is_sensor: false,
            label: None,
            executor: Executor::Local,
        }
    }

    pub fn duplicate(&self) -> (r: TaskOptions)
        ensures
            r@ == self@,
    {
        TaskOptions {
            max_attempts: self.max_attempts,
            retry_delay: self.retry_delay,
            timeout: self.timeout,
            trigger_rule: self.trigger_rule,
            is_sensor: self.is_sensor,
            label: match &self.label {
                Some(l) => Some(l.clone()),
                None => None,
            },
            executor: self.executor,
        }
    }
}

/// A node of the graph.
#[derive(Debug, PartialEq, Eq)]
pub struct Task {
    pub id: usize,
    pub name: String,
    /// The key of the function in the registry, or `command`.
    pub function: String,
    pub template_args: Json,
    pub options: TaskOptions,
    pub lazy_expand: bool,
    pub is_dynamic: bool,
    pub is_branch: bool,
    pub use_trigger_params: bool,
}

pub struct TaskView {
    pub id: usize,
    pub name: Seq<char>,
    pub function: Seq<char>,
    pub template_args: JsonValue,
    pub options: TaskOptionsView,
    pub lazy_expand: bool,
    pub is_dynamic: bool,
    pub is_branch: bool,
    pub use_trigger_params: bool,
}

impl View for Task {
    type V = TaskView;

    open spec fn view(&self) -> TaskView {
        TaskView {
            id: self.id,
            name: self.name@,
            function: self.function@,
            template_args: self.template_args@,
            options: self.options@,
            lazy_expand: self.lazy_expand,
            is_dynamic: self.is_dynamic,
            is_branch: self.is_branch,
            use_trigger_params: self.use_trigger_params,
        }
    }
}

impl Task {
    pub fn duplicate(&self) -> (r: Task)
        ensures
            r@ == self@,
    {
        Task {
            id: self.id,
            name: self.name.clone(),
            function: self.function.clone(),
            template_args: self.template_args.duplicate(),
            options: self.options.duplicate(),
            lazy_expand: self.lazy_expand,
            is_dynamic: self.is_dynamic,
            is_branch: self.is_branch,
            use_trigger_params: self.use_trigger_params,
        }
    }

    /// Whether the task runs an external command and no registered function.
    pub fn is_command(&self) -> (r: bool)
        ensures
            r == (self@.function == command_function()),
    {
        let c = "command".to_owned();
        self.function == c
    }
}

pub open spec fn tasks_view(tasks: Seq<Task>) -> Seq<TaskView> {
    Seq::new(tasks.len(), |i: int| tasks[i]@)
}

/// What one attempt of a task came to.
#[derive(Debug, PartialEq, Eq)]
pub struct TaskResult {
    pub task_id: usize,
    pub attempt: usize,
    pub max_attempts: usize,
    pub name: String,
    pub function: String,
    pub success: bool,
    pub result: Json,
    pub resolved_args: Json,
    pub stdout: String,
    pub stderr: String,
    pub started: i64,
    pub ended: i64,
    /// The attempt was ended from outside: by a timeout, or because the task
    /// could not be dispatched.
    pub premature_failure: bool,
    pub is_skipped: bool,
    /// The downstream that a branch task chose.
    pub branch_chosen: Option<usize>,
    pub is_sensor: bool,
    pub is_branch: bool,
}

pub struct TaskResultView {
    pub task_id: usize,
    pub attempt: usize,
    pub max_attempts: usize,
    pub name: Seq<char>,
    pub function: Seq<char>,
    pub success: bool,
    pub result: JsonValue,
    pub resolved_args: JsonValue,
    pub stdout: Seq<char>,
    pub stderr: Seq<char>,
    pub started: i64,
    pub ended: i64,
    pub premature_failure: bool,
    pub is_skipped: bool,
    pub branch_chosen: Option<usize>,
    pub is_sensor: bool,
    pub is_branch: bool,
}

impl View for TaskResult {
    type V = TaskResultView;

    open spec fn view(&self) -> TaskResultView {
        TaskResultView {
            task_id: self.task_id,
            attempt: self.attempt,
            max_attempts: self.max_attempts,
            name: self.name@,
            function: self.function@,
            success: self.success,
            result: self.result@,
            resolved_args: self.resolved_args@,
            stdout: self.stdout@,
            stderr: self.stderr@,
            started: self.started,
            ended: self.ended,
            premature_failure: self.premature_failure,
            is_skipped: self.is_skipped,
            branch_chosen: self.branch_chosen,
            is_sensor: self.is_sensor,
            is_branch: self.is_branch,
        }
    }
}

impl TaskResultView {
    /// A failed attempt is followed by another while attempts remain.
    pub open spec fn needs_retry(self) -> bool {
        !self.success && self.attempt < self.max_attempts
    }

    /// The time the attempt took; zero where it ended before it started.
    pub open spec fn duration(self) -> int {
        if self.ended >= self.started {
            self.ended - self.started
        } else {
            0
        }
    }

    /// The failure that stands for an attempt that was ended from outside.
    pub open spec fn premature_error(
        task_id: usize,
        attempt: usize,
        max_attempts: usize,
        name: Seq<char>,
        function: Seq<char>,
        message: Seq<char>,
        is_branch: bool,
        is_sensor: bool,
        at: i64,
    ) -> TaskResultView {
        TaskResultView {
            task_id,
            attempt,
            max_attempts,
            name,
            function,
            success: false,
            result: JsonValue::Null,
            resolved_args: JsonValue::Null,
            stdout: Seq::empty(),
            stderr: message,
            started: at,
            ended: at,
            premature_failure: true,
            is_skipped: false,
            branch_chosen: None,
            is_sensor,
            is_branch,
        }
    }
}

impl TaskResult {
    pub fn duplicate(&self) -> (r: TaskResult)
        ensures
            r@ == self@,
    {
        TaskResult {
            task_id: self.task_id,
            attempt: self.attempt,
            max_attempts: self.max_attempts,
            name: self.name.clone(),
            function: self.function.clone(),
            success: self.success,
            result: self.result.duplicate(),
            resolved_args: self.resolved_args.duplicate(),
            stdout: self.stdout.clone(),
            stderr: self.stderr.clone(),
            started: self.started,
            ended: self.ended,
            premature_failure: self.premature_failure,
            is_skipped: self.is_skipped,
            branch_chosen: self.branch_chosen,
            is_sensor: self.is_sensor,
            is_branch: self.is_branch,
        }
    }

    /// What an attempt of the task came to, as a worker reports it.
    pub fn of_attempt(
        task: &Task,
        queued_task: &QueuedTask,
        success: bool,
        result: Json,
        resolved_args: Json,
        stdout: String,
        stderr: String,
        started: i64,
        ended: i64,
        branch_chosen: Option<usize>,
    ) -> (r: TaskResult)
        ensures
            r@ == (TaskResultView {
                task_id: task.id,
                attempt: queued_task.attempt,
                max_attempts: task.options.max_attempts,
                name: task.name@,
                function: task.function@,
                success,
                result: result@,
                resolved_args: resolved_args@,
                stdout: stdout@,
                stderr: stderr@,
                started,
                ended,
                premature_failure: false,
                is_skipped: false,
                branch_chosen,
                is_sensor: task.options.is_sensor,
                is_branch: task.is_branch,
            }),
    {
        TaskResult {
            task_id: task.id,
            attempt: queued_task.attempt,
            max_attempts: task.options.max_attempts,
            name: task.name.clone(),
            function: task.function.clone(),
            success,
            result,
            resolved_args,
            stdout,
            stderr,
            started,
            ended,
            premature_failure: false,
            is_skipped: false,
            branch_chosen,
            is_sensor: task.options.is_sensor,
            is_branch: task.is_branch,
        }
    }

    /// Whether another attempt is to follow this one.
    pub fn needs_retry(&self) -> (r: bool)
        ensures
            r == self@.needs_retry(),
    {
        !self.success && self.attempt < self.max_attempts
    }

    /// The time the attempt took, in milliseconds.
    pub fn duration(&self) -> (r: u64)
        ensures
            r == self@.duration(),
    {
        if self.ended >= self.started {
            let d: i128 = self.ended as i128 - self.started as i128;
            d as u64
        } else {
            0
        }
    }

    /// The failure recorded for an attempt that was ended from outside, with
    /// the reason in `stderr`.
    pub fn premature_error(
        task_id: usize,
        attempt: usize,
        max_attempts: usize,
        name: String,
        function: String,
        message: String,
        is_branch: bool,
        is_sensor: bool,
        at: i64,
    ) -> (r: TaskResult)
        ensures
            r@ == TaskResultView::premature_error(
                task_id,
                attempt,
                max_attempts,
                name@,
                function@,
                message@,
                is_branch,
                is_sensor,
                at,
            ),
    {
        TaskResult {
            task_id,
            attempt,
            max_attempts,
            name,
            function,
            success: false,
            result: Json::Null,
            resolved_args: Json::Null,
            stdout: String::new(),
            stderr: message,
            started: at,
            ended: at,
            premature_failure: true,
            is_skipped: false,
            branch_chosen: None,
            is_sensor,
            is_branch,
        }
    }
}

pub open spec fn results_view(results: Seq<TaskResult>) -> Seq<TaskResultView> {
    Seq::new(results.len(), |i: int| results[i]@)
}

/// An attempt of a task that waits in the priority queue or is in flight.
#[derive(Clone, Debug, PartialEq, Eq)]
pub struct QueuedTask {
    pub run_id: usize,
    pub task_id: usize,
    pub dag_name: String,
    pub scheduled_date_for_dag_run: i64,
    pub attempt: usize,
    /// The time from which the attempt is due: that at which it was put
    /// into the queue, or a later one where it was put off.
    pub queued_date: i64,
}

pub struct QueuedTaskView {
    pub run_id: usize,
    pub task_id: usize,
    pub dag_name: Seq<char>,
    pub scheduled_date_for_dag_run: i64,
    pub attempt: usize,
    pub queued_date: i64,
}

impl View for QueuedTask {
    type V = QueuedTaskView;

    open spec fn view(&self) -> QueuedTaskView {
        QueuedTaskView {
            run_id: self.run_id,
            task_id: self.task_id,
            dag_name: self.dag_name@,
            scheduled_date_for_dag_run: self.scheduled_date_for_dag_run,
            attempt: self.attempt,
            queued_date: self.queued_date,
        }
    }
}

impl QueuedTask {
    pub fn duplicate(&self) -> (r: QueuedTask)
        ensures
            r@ == self@,
    {
        QueuedTask {
            run_id: self.run_id,
            task_id: self.task_id,
            dag_name: self.dag_name.clone(),
            scheduled_date_for_dag_run: self.scheduled_date_for_dag_run,
            attempt: self.attempt,
            queued_date: self.queued_date,
        }
    }

    /// Whether both entries hold the same attempt of the same task.
    pub fn same_as(&self, other: &QueuedTask) -> (r: bool)
        ensures
            r == (self@ == other@),
    {
        self.run_id == other.run_id && self.task_id == other.task_id && self.dag_name
            == other.dag_name && self.scheduled_date_for_dag_run
            == other.scheduled_date_for_dag_run && self.attempt == other.attempt
            && self.queued_date == other.queued_date
    }
}

/// A queue entry with its sort key, the depth of its task.
#[derive(Clone, Debug, PartialEq, Eq)]
pub struct OrderedQueuedTask {
    pub score: usize,
    pub queued_task: QueuedTask,
}

pub struct OrderedQueuedTaskView {
    pub score: usize,
    pub queued_task: QueuedTaskView,
}

impl View for OrderedQueuedTask {
    type V = OrderedQueuedTaskView;

    open spec fn view(&self) -> OrderedQueuedTaskView {
        OrderedQueuedTaskView { score: self.score, queued_task: self.queued_task@ }
    }
}

/// One execution of a pipeline at a scheduled date.
#[derive(Clone, Copy, Debug, PartialEq, Eq, Structural)]
pub struct Run {
    pub run_id: usize,
    pub scheduled_date_for_dag_run: i64,
}

/// The key under which the value of a branch task names the downstream that
/// it chose.
pub const CHOSEN_TASK_ID_KEY: &'static str = "chosen_task_id";

/// The downstream that the value of a task names as chosen: for a branch
/// task whose value is an object, the number under the key, where there is
/// one and it fits.
pub open spec fn chosen_of(is_branch: bool, value: JsonValue) -> Option<usize> {
    if is_branch && value is Object {
        match field_of(value->Object_0, CHOSEN_TASK_ID_KEY@) {
            Some(JsonValue::Unsigned(n)) => if n <= usize::MAX {
                Some(n as usize)
            } else {
                None
            },
            _ => None,
        }
    } else {
        None
    }
}

/// The downstream that the value of a task names as chosen.
pub fn chosen_branch(is_branch: bool, value: &Json) -> (r: Option<usize>)
    ensures
        r == chosen_of(is_branch, value@),
{
    if !is_branch {
        return None;
    }
    match value.get_field(CHOSEN_TASK_ID_KEY) {
        Some(chosen) => chosen.as_usize(),
        None => None,
    }
}

} // verus!
