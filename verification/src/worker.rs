//! One step of a worker: take up the next attempt and hold it until it is
//! due, hand it out to be executed, or deal with it at once.

use crate::backend::{Backend, BackendState};
use crate::dispatch::{arguments, resolve_args, started_state, take_next, Taken};
use crate::engine::{engine_inv, queues_ok};
use crate::expand::{expand, expanded_run};
use crate::json::{items_view, Json, JsonValue};
use crate::report::{handle_task_result, handled, is_in_flight, outcome_of, Outcome};
use crate::status::TaskStatus;
use crate::task::{QueuedTask, QueuedTaskView, Task, TaskResult, TaskResultView, TaskView};
use crate::template::ResolveError;
use vstd::prelude::*;

verus! {

/// What a worker is to do after one step.
pub enum Tick {
    /// The queue was empty.
    Idle,
    /// The task of the entry was skipped while it waited in the queue; or
    /// the attempt that was to be taken up again is no more in flight.
    Aborted { queued_task: QueuedTask },
    /// The task is Running and its attempt is in flight, but not yet due: the
    /// worker holds it until the time `queued_date` of the attempt and then
    /// takes it up again.
    Waiting { queued_task: QueuedTask },
    /// The task is Running: it is to be executed with these arguments and
    /// its result reported.
    Dispatch { queued_task: QueuedTask, task: Task, args: Json },
    /// The attempt was dealt with at once: its arguments could not be made,
    /// or the task was expanded.
    Settled { queued_task: QueuedTask, outcome: Outcome },
}

/// What is recorded as the reason when a placeholder could not be replaced.
pub open spec fn resolve_message(e: ResolveError) -> Seq<char> {
    match e {
        ResolveError::MissingResult { .. } => "an upstream task has no result to hand on"@,
        ResolveError::MissingField { .. } => "the result of an upstream task lacks the referenced field"@,
    }
}

/// What is recorded as the reason when the arguments of a task that is to be
/// expanded are no list.
pub open spec fn not_a_list_message() -> Seq<char> {
    "the arguments of a task to expand are not a list"@
}

/// The failure recorded for an attempt that could not be dispatched.
pub open spec fn dispatch_failure(
    task: TaskView,
    q: QueuedTaskView,
    message: Seq<char>,
    now: i64,
) -> TaskResultView {
    TaskResultView::premature_error(
        task.id,
        q.attempt,
        task.options.max_attempts,
        task.name,
        task.function,
        message,
        task.is_branch,
        task.options.is_sensor,
        now,
    )
}

/// The success recorded for a task that was expanded over `items`.
pub open spec fn expansion_result(
    task: TaskView,
    q: QueuedTaskView,
    items: Seq<JsonValue>,
    now: i64,
) -> TaskResultView {
    TaskResultView {
        task_id: task.id,
        attempt: q.attempt,
        max_attempts: task.options.max_attempts,
        name: task.name,
        function: task.function,
        success: true,
        result: JsonValue::Array(items),
        resolved_args: JsonValue::Array(items),
        stdout: Seq::empty(),
        stderr: Seq::empty(),
        started: now,
        ended: now,
        premature_failure: false,
        is_skipped: false,
        branch_chosen: None,
        is_sensor: task.options.is_sensor,
        is_branch: task.is_branch,
    }
}

/// `after` is what became of `started`, in which the attempt `q` had just
/// been taken up, when the attempt was dealt with at once: a failure was
/// reported where the arguments could not be made or, for a task to expand,
/// were no list; and else the task was expanded over its list and a success
/// reported.
pub open spec fn settled_at_once(
    started: BackendState,
    after: BackendState,
    q: QueuedTaskView,
    now: i64,
    outcome: Outcome,
) -> bool {
    let run = q.run_id;
    let task = started.record(run, q.task_id).task;
    match arguments(started.runs[run as int], q.task_id) {
        Err(e) => {
            let r = dispatch_failure(task, q, resolve_message(e), now);
            outcome == outcome_of(started, run, r, q)
                && handled(started, after, run, r, q, now, outcome)
        },
        Ok(a) => task.lazy_expand && match a {
            JsonValue::Array(items) => {
                let grown = started.with_run(
                    run,
                    expanded_run(started.runs[run as int], q.task_id, items),
                );
                let r = expansion_result(task, q, items, now);
                outcome == outcome_of(grown, run, r, q)
                    && handled(grown, after, run, r, q, now, outcome)
            },
            _ => {
                let r = dispatch_failure(task, q, not_a_list_message(), now);
                outcome == outcome_of(started, run, r, q) && handled(
                    started,
                    after,
                    run,
                    r,
                    q,
                    now,
                    outcome,
                )
            },
        },
    }
}

/// `after` is what became of `started`, in which the attempt `q` is in
/// flight, when a worker took the attempt up at the time `now`, and `tick`
/// is what the worker is to do next. An attempt that is not yet due is left
/// as it is. One that is due is handed out with the arguments of its task,
/// or was dealt with at once.
pub open spec fn taken_up(
    started: BackendState,
    after: BackendState,
    q: QueuedTaskView,
    now: i64,
    tick: Tick,
) -> bool {
    match tick {
        Tick::Waiting { queued_task } => queued_task@ == q && q.queued_date > now && after
            == started,
        Tick::Dispatch { queued_task, task, args } => {
            &&& queued_task@ == q
            &&& q.queued_date <= now
            &&& after == started
            &&& task@ == started.record(q.run_id, q.task_id).task
            &&& !task.lazy_expand
            &&& arguments(started.runs[q.run_id as int], q.task_id) == Ok::<
                JsonValue,
                ResolveError,
            >(args@)
        },
        Tick::Settled { queued_task, outcome } => queued_task@ == q && q.queued_date <= now
            && settled_at_once(started, after, q, now, outcome),
        _ => false,
    }
}

/// Records that the attempt could not be dispatched.
fn fail_dispatch<B: Backend>(
    backend: &mut B,
    task: &Task,
    queued_task: &QueuedTask,
    message: &str,
    now: i64,
) -> (outcome: Outcome)
    requires
        old(backend).inv(),
        engine_inv(old(backend).state()),
        old(backend).state().has_task(queued_task.run_id, queued_task.task_id),
        task@ == old(backend).state().record(queued_task.run_id, queued_task.task_id).task,
    ensures
        final(backend).inv(),
        engine_inv(final(backend).state()),
        outcome == outcome_of(
            old(backend).state(),
            queued_task.run_id,
            dispatch_failure(task@, queued_task@, message@, now),
            queued_task@,
        ),
        handled(
            old(backend).state(),
            final(backend).state(),
            queued_task.run_id,
            dispatch_failure(task@, queued_task@, message@, now),
            queued_task@,
            now,
            outcome,
        ),
{
    let result = TaskResult::premature_error(
        task.id,
        queued_task.attempt,
        task.options.max_attempts,
        task.name.clone(),
        task.function.clone(),
        message.to_owned(),
        task.is_branch,
        task.options.is_sensor,
        now,
    );
    handle_task_result(backend, queued_task.run_id, &result, queued_task, now)
}

/// One step of a worker. Takes the first entry from the queue and sets its
/// task to Running. An attempt that is not yet due is held by the worker. For
/// one that is due the task's arguments are made and the task is handed out
/// to be executed. Where the arguments cannot be made, a failure is recorded
/// in place of the execution; a task that is to be expanded is expanded over
/// its arguments and recorded as succeeded, without being executed.
pub fn work<B: Backend>(backend: &mut B, now: i64) -> (tick: Tick)
    requires
        old(backend).inv(),
        engine_inv(old(backend).state()),
    ensures
        final(backend).inv(),
        engine_inv(final(backend).state()),
        match tick {
            Tick::Idle => {
                &&& old(backend).state().queue.len() == 0
                &&& final(backend).state() == old(backend).state()
            },
            Tick::Aborted { queued_task } => {
                &&& old(backend).state().queue.len() > 0
                &&& queued_task@ == old(backend).state().queue[0].queued_task
                &&& old(backend).state().status(queued_task.run_id, queued_task.task_id)
                    == TaskStatus::Skipped
                &&& final(backend).state() == old(backend).state().with_queue(
                    old(backend).state().queue.drop_first(),
                )
            },
            _ => {
                &&& old(backend).state().queue.len() > 0
                &&& old(backend).state().status(
                    old(backend).state().queue[0].queued_task.run_id,
                    old(backend).state().queue[0].queued_task.task_id,
                ) != TaskStatus::Skipped
                &&& taken_up(
                    started_state(old(backend).state()),
                    final(backend).state(),
                    old(backend).state().queue[0].queued_task,
                    now,
                    tick,
                )
            },
        },
{
    let queued_task = match take_next(backend) {
        Taken::Idle => {
            return Tick::Idle;
        },
        Taken::Aborted { queued_task } => {
            return Tick::Aborted { queued_task };
        },
        Taken::Started { queued_task } => queued_task,
    };
    proof {
        backend.lemma_inv_gives_wf();
        assert(backend.state().in_flight.contains(queued_task@));
    }
    take_up(backend, queued_task, now)
}

/// Takes up again an attempt that a worker holds. Where the attempt is no
/// more in flight, nothing is done. Else it is dealt with as `work` deals
/// with an attempt that it has just taken from the queue.
pub fn resume<B: Backend>(backend: &mut B, queued_task: QueuedTask, now: i64) -> (tick: Tick)
    requires
        old(backend).inv(),
        engine_inv(old(backend).state()),
    ensures
        final(backend).inv(),
        engine_inv(final(backend).state()),
        if old(backend).state().in_flight.contains(queued_task@) {
            taken_up(old(backend).state(), final(backend).state(), queued_task@, now, tick)
        } else {
            &&& tick matches Tick::Aborted { queued_task: gone } && gone@ == queued_task@
            &&& final(backend).state() == old(backend).state()
        },
{
    if !is_in_flight(backend, &queued_task) {
        return Tick::Aborted { queued_task };
    }
    take_up(backend, queued_task, now)
}

/// Deals with an attempt that is in flight.
fn take_up<B: Backend>(backend: &mut B, queued_task: QueuedTask, now: i64) -> (tick: Tick)
    requires
        old(backend).inv(),
        engine_inv(old(backend).state()),
        old(backend).state().in_flight.contains(queued_task@),
    ensures
        final(backend).inv(),
        engine_inv(final(backend).state()),
        taken_up(old(backend).state(), final(backend).state(), queued_task@, now, tick),
{
    if queued_task.queued_date > now {
        return Tick::Waiting { queued_task };
    }
    let run_id = queued_task.run_id;
    let task_id = queued_task.task_id;
    let ghost started = backend.state();
    proof {
        backend.lemma_inv_gives_wf();
        assert(started.has_task(run_id, task_id));
        assert(started.status(run_id, task_id) == TaskStatus::Running) by {
            reveal(queues_ok);
        }
    }
    let task = backend.get_task_by_id(run_id, task_id);
    proof {
        assert(task.id == task_id);
    }
    match resolve_args(backend, run_id, &task) {
        Err(e) => {
            let message = match e {
                ResolveError::MissingResult { .. } => "an upstream task has no result to hand on",
                ResolveError::MissingField { .. } => "the result of an upstream task lacks the referenced field",
            };
            let outcome = fail_dispatch(backend, &task, &queued_task, message, now);
            Tick::Settled { queued_task, outcome }
        },
        Ok(args) => {
            if !task.lazy_expand {
                return Tick::Dispatch { queued_task, task, args };
            }
            match args.as_array() {
                None => {
                    let outcome = fail_dispatch(
                        backend,
                        &task,
                        &queued_task,
                        "the arguments of a task to expand are not a list",
                        now,
                    );
                    Tick::Settled { queued_task, outcome }
                },
                Some(items) => {
                    let _ = expand(backend, run_id, &task, items);
                    let result = TaskResult {
                        task_id,
                        attempt: queued_task.attempt,
                        max_attempts: task.options.max_attempts,
                        name: task.name.clone(),
                        function: task.function.clone(),
                        success: true,
                        result: args.duplicate(),
                        resolved_args: args.duplicate(),
                        stdout: String::new(),
                        stderr: String::new(),
                        started: now,
                        ended: now,
                        premature_failure: false,
                        is_skipped: false,
                        branch_chosen: None,
                        is_sensor: task.options.is_sensor,
                        is_branch: task.is_branch,
                    };
                    proof {
                        assert(result@ == expansion_result(task@, queued_task@, items_view(items@),
                            now));
                    }
                    let outcome = handle_task_result(backend, run_id, &result, &queued_task, now);
                    Tick::Settled { queued_task, outcome }
                },
            }
        },
    }
}

} // verus!
