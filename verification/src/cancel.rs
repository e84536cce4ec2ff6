//! Cancelling a run: every task that has not ended is skipped.

use crate::backend::{Backend, BackendState, RunRecord, TaskRecord};
use crate::engine::{
    attempt_count, engine_inv, queues_ok, record_ok, run_settled, run_steady, started,
};
use crate::rules::upstreams_all_terminal;
use crate::status::{is_terminal, TaskStatus};
use crate::task::QueuedTaskView;
use vstd::prelude::*;

verus! {

/// The run with those of its first `upto` tasks skipped that had not ended.
pub open spec fn cancelled_upto(run: RunRecord, upto: int) -> RunRecord {
    RunRecord {
        tasks: Seq::new(
            run.tasks.len(),
            |t: int|
                if t < upto && !is_terminal(run.tasks[t].status) {
                    TaskRecord { status: TaskStatus::Skipped, ..run.tasks[t] }
                } else {
                    run.tasks[t]
                },
        ),
        ..run
    }
}

/// The state once the run is cancelled: each of its tasks that had not ended
/// is Skipped, and none of its attempts is held as in flight any more. What
/// the queue holds of the run stays there until a worker takes it up and
/// drops it.
pub open spec fn cancelled_state(state: BackendState, run: usize) -> BackendState {
    state.with_run(
        run,
        cancelled_upto(state.runs[run as int], state.runs[run as int].tasks.len() as int),
    ).with_in_flight(state.in_flight.filter(|q: QueuedTaskView| q.run_id != run))
}

/// Cancelling a run keeps what holds between the steps of the engine.
proof fn lemma_cancelled_inv(before: BackendState, after: BackendState, run: usize)
    requires
        engine_inv(before),
        before.has_run(run),
        after.wf(),
        after == cancelled_state(before, run),
    ensures
        engine_inv(after),
{
    let old_run = before.runs[run as int];
    let new_run = after.runs[run as int];
    assert(run_steady(old_run) && run_settled(old_run));
    assert forall|r: int| 0 <= r < after.runs.len() implies run_steady(#[trigger] after.runs[r])
        && run_settled(after.runs[r]) by {
        reveal(run_steady);
        reveal(run_settled);
        if r != run {
            assert(after.runs[r] == before.runs[r]);
        } else {
            assert forall|t: int| 0 <= t < new_run.tasks.len() implies
                record_ok(#[trigger] new_run.tasks[t]) && is_terminal(new_run.tasks[t].status) by {
                assert(record_ok(old_run.tasks[t]));
            }
            assert forall|t: usize| t < new_run.tasks.len()
                && started(#[trigger] new_run.tasks[t as int]) implies
                upstreams_all_terminal(new_run, t) by {
                assert forall|up: usize| #[trigger] new_run.is_upstream(up, t) implies
                    is_terminal(new_run.tasks[up as int].status) by {
                    assert(old_run.edges.contains((up, t)));
                    assert(is_terminal(new_run.tasks[up as int].status));
                }
            }
        }
    }
    assert(queues_ok(after)) by {
        reveal(queues_ok);
        assert forall|i: int| 0 <= i < after.queue.len() implies {
            let e = (#[trigger] after.queue[i]).queued_task;
            let rec = after.record(e.run_id, e.task_id);
            &&& rec.status == TaskStatus::Queued || rec.status == TaskStatus::Retrying || rec.status
                == TaskStatus::Skipped
            &&& rec.status != TaskStatus::Skipped ==> e.attempt == attempt_count(rec)
        } by {
            let e = before.queue[i].queued_task;
            assert(before.has_task(e.run_id, e.task_id));
            if e.run_id != run {
                assert(after.runs[e.run_id as int] == before.runs[e.run_id as int]);
            }
        }
        assert forall|p: QueuedTaskView| #[trigger] after.in_flight.contains(p) implies {
            let rec = after.record(p.run_id, p.task_id);
            rec.status == TaskStatus::Running && p.attempt == attempt_count(rec)
        } by {
            assert(before.in_flight.contains(p));
            assert(p.run_id != run);
            assert(before.has_task(p.run_id, p.task_id));
            assert(after.runs[p.run_id as int] == before.runs[p.run_id as int]);
        }
        assert forall|p: QueuedTaskView, q: QueuedTaskView|
            #![trigger after.in_flight.contains(p), after.in_flight.contains(q)]
            after.in_flight.contains(p) && after.in_flight.contains(q) && p.run_id == q.run_id
                && p.task_id == q.task_id implies p == q by {
            assert(before.in_flight.contains(p) && before.in_flight.contains(q));
        }
    }
}

/// Cancels the run: marks each of its tasks that has not ended as Skipped and
/// takes its attempts out of the attempts in flight, so that what a worker
/// reports of them later is ignored.
pub fn cancel_run<B: Backend>(backend: &mut B, run_id: usize)
    requires
        old(backend).inv(),
        engine_inv(old(backend).state()),
        old(backend).state().has_run(run_id),
    ensures
        final(backend).inv(),
        engine_inv(final(backend).state()),
        final(backend).state() == cancelled_state(old(backend).state(), run_id),
{
    let ghost s0 = backend.state();
    let ghost run0 = s0.runs[run_id as int];
    let n = backend.get_all_tasks(run_id).len();
    proof {
        let none = cancelled_upto(run0, 0);
        assert(none.tasks =~= run0.tasks);
        assert(s0.with_run(run_id, none).runs =~= s0.runs);
    }
    let mut t: usize = 0;
    while t < n
        invariant
            t <= n,
            n == run0.tasks.len(),
            backend.inv(),
            s0.has_run(run_id),
            run0 == s0.runs[run_id as int],
            backend.state() == s0.with_run(run_id, cancelled_upto(run0, t as int)),
        decreases n - t,
    {
        let status = backend.get_task_status(run_id, t);
        if !status.is_terminal() {
            backend.set_task_status(run_id, t, TaskStatus::Skipped);
        }
        proof {
            let next = backend.state();
            let target = cancelled_upto(run0, t + 1);
            assert(next.runs[run_id as int].tasks =~= target.tasks);
            assert(next.runs[run_id as int] == target);
            assert(next.runs =~= s0.with_run(run_id, target).runs);
        }
        t += 1;
    }
    let ghost mid = backend.state();
    let flight = backend.get_temp_queue();
    let mut i: usize = 0;
    proof {
        assert(mid.in_flight == s0.in_flight);
        assert forall|q: QueuedTaskView| s0.in_flight.contains(q) implies exists|k: int|
            0 <= k < flight@.len() && (#[trigger] flight@[k])@ == q by {
            assert(mid.in_flight.contains(q));
        }
    }
    while i < flight.len()
        invariant
            i <= flight.len(),
            backend.inv(),
            mid == s0.with_run(run_id, cancelled_upto(run0, n as int)),
            forall|k: int| 0 <= k < flight@.len()
                ==> s0.in_flight.contains((#[trigger] flight@[k])@),
            forall|q: QueuedTaskView| s0.in_flight.contains(q)
                ==> exists|k: int| 0 <= k < flight@.len() && (#[trigger] flight@[k])@ == q,
            backend.state() == mid.with_in_flight(backend.state().in_flight),
            forall|q: QueuedTaskView|
                backend.state().in_flight.contains(q) <==> s0.in_flight.contains(q)
                    && !(q.run_id == run_id && exists|k: int| 0 <= k < i
                    && (#[trigger] flight@[k])@ == q),
        decreases flight.len() - i,
    {
        let ghost cur = backend.state();
        if flight[i].run_id == run_id {
            backend.remove_from_temp_queue(&flight[i]);
        }
        proof {
            let next = backend.state();
            let q0 = flight@[i as int]@;
            assert forall|q: QueuedTaskView|
                next.in_flight.contains(q) <==> s0.in_flight.contains(q) && !(q.run_id == run_id
                    && exists|k: int| 0 <= k < i + 1 && (#[trigger] flight@[k])@ == q) by {
                if exists|k: int| 0 <= k < i + 1 && (#[trigger] flight@[k])@ == q {
                    let k = choose|k: int| 0 <= k < i + 1 && (#[trigger] flight@[k])@ == q;
                    if k < i {
                        assert(exists|k: int| 0 <= k < i && (#[trigger] flight@[k])@ == q);
                    }
                }
                if q == q0 {
                    assert(flight@[i as int]@ == q);
                }
            }
        }
        i += 1;
    }
    proof {
        let fin = backend.state();
        let target = cancelled_state(s0, run_id);
        assert(fin.in_flight =~= target.in_flight) by {
            assert forall|q: QueuedTaskView| fin.in_flight.contains(q)
                == target.in_flight.contains(q) by {
                if s0.in_flight.contains(q) && q.run_id == run_id {
                    let k = choose|k: int| 0 <= k < flight@.len() && (#[trigger] flight@[k])@ == q;
                    assert(0 <= k < i && flight@[k]@ == q);
                }
            }
        }
        assert(fin == target);
        backend.lemma_inv_gives_wf();
        lemma_cancelled_inv(s0, fin, run_id);
    }
}

} // verus!
