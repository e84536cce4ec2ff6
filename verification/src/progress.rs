//! How far a run has come.

use crate::backend::{Backend, RunRecord};
use crate::status::{is_terminal, TaskStatus};
use vstd::prelude::*;

verus! {

/// The state of a run as a whole.
#[derive(Clone, Copy, Debug, PartialEq, Eq, Structural)]
pub enum RunStatus {
    /// Some task has not ended.
    Running,
    /// All tasks have ended and none has failed.
    Success,
    /// All tasks have ended and one of them has failed.
    Failure,
}

/// Every task of the run has ended.
pub open spec fn run_completed(run: RunRecord) -> bool {
    forall|t: int| 0 <= t < run.tasks.len() ==> is_terminal((#[trigger] run.tasks[t]).status)
}

/// Some task of the run has failed.
pub open spec fn run_failed(run: RunRecord) -> bool {
    exists|t: int| 0 <= t < run.tasks.len()
        && (#[trigger] run.tasks[t]).status == TaskStatus::Failure
}

pub open spec fn run_status_of(run: RunRecord) -> RunStatus {
    if !run_completed(run) {
        RunStatus::Running
    } else if run_failed(run) {
        RunStatus::Failure
    } else {
        RunStatus::Success
    }
}

/// Whether the task has ended.
pub fn is_task_completed<B: Backend>(backend: &B, run_id: usize, task_id: usize) -> (r: bool)
    requires
        backend.inv(),
        backend.state().has_task(run_id, task_id),
    ensures
        r == is_terminal(backend.state().status(run_id, task_id)),
{
    backend.get_task_status(run_id, task_id).is_terminal()
}

/// The state of the run as a whole: Running while a task has not ended, and
/// then Failure where a task has failed and Success where none has.
pub fn get_run_status<B: Backend>(backend: &B, run_id: usize) -> (r: RunStatus)
    requires
        backend.inv(),
        backend.state().has_run(run_id),
    ensures
        r == run_status_of(backend.state().runs[run_id as int]),
{
    let ghost run = backend.state().runs[run_id as int];
    let n = backend.get_all_tasks(run_id).len();
    let mut failed = false;
    let mut t: usize = 0;
    while t < n
        invariant
            t <= n,
            n == run.tasks.len(),
            backend.inv(),
            backend.state().has_run(run_id),
            run == backend.state().runs[run_id as int],
            forall|k: int| 0 <= k < t ==> is_terminal((#[trigger] run.tasks[k]).status),
            failed == exists|k: int| 0 <= k < t
                && (#[trigger] run.tasks[k]).status == TaskStatus::Failure,
        decreases n - t,
    {
        let status = backend.get_task_status(run_id, t);
        if !status.is_terminal() {
            proof {
                assert(!is_terminal(run.tasks[t as int].status));
            }
            return RunStatus::Running;
        }
        if status == TaskStatus::Failure {
            failed = true;
        }
        proof {
            if failed && status != TaskStatus::Failure {
                let k = choose|k: int| 0 <= k < t
                    && (#[trigger] run.tasks[k]).status == TaskStatus::Failure;
                assert(0 <= k < t + 1 && run.tasks[k].status == TaskStatus::Failure);
            }
            if status == TaskStatus::Failure {
                assert(run.tasks[t as int].status == TaskStatus::Failure);
            }
            if exists|k: int| 0 <= k < t + 1
                && (#[trigger] run.tasks[k]).status == TaskStatus::Failure {
                let k = choose|k: int| 0 <= k < t + 1
                    && (#[trigger] run.tasks[k]).status == TaskStatus::Failure;
                if k < t {
                    assert(failed);
                }
            }
        }
        t += 1;
    }
    if failed {
        RunStatus::Failure
    } else {
        RunStatus::Success
    }
}

/// Whether every task of the run has ended.
pub fn is_completed<B: Backend>(backend: &B, run_id: usize) -> (r: bool)
    requires
        backend.inv(),
        backend.state().has_run(run_id),
    ensures
        r == run_completed(backend.state().runs[run_id as int]),
{
    match get_run_status(backend, run_id) {
        RunStatus::Running => false,
        _ => true,
    }
}

/// Whether nothing waits in the queue and nothing is in flight: with that
/// and every task ended, the workers of a run have nothing left to do.
pub fn is_idle<B: Backend>(backend: &B) -> (r: bool)
    requires
        backend.inv(),
    ensures
        r == (backend.state().queue.len() == 0 && backend.state().in_flight.len() == 0),
{
    backend.get_queue_length() == 0 && backend.get_running_tasks_count() == 0
}

} // verus!
