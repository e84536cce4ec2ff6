//! The timeout watchdog: attempts that have been in flight for longer than
//! their task allows are ended as failed.

use crate::backend::{Backend, BackendState};
use crate::engine::{engine_inv, lemma_steady_record, queue_entry, queues_ok};
use crate::report::{
    due_time, handle_task_result, handled, lemma_handled_frame, lemma_handled_keeps_queue,
    outcome_of, report_expected, Outcome,
};
use crate::status::TaskStatus;
use crate::task::{
    OrderedQueuedTaskView, QueuedTask, QueuedTaskView, Task, TaskOptionsView, TaskResult,
    TaskResultView, TaskView,
};
use vstd::prelude::*;

verus! {

/// The attempt has been due for longer than the timeout allows: it is due
/// from `queued_date` on.
pub open spec fn overdue(timeout: Option<u64>, queued_date: i64, now: i64) -> bool {
    match timeout {
        Some(t) => now - queued_date > t,
        None => false,
    }
}

/// What is recorded as the reason of a failure by timeout.
pub open spec fn timeout_message() -> Seq<char> {
    "timed out"@
}

/// The failure that is recorded for an attempt that has timed out.
pub open spec fn timeout_failure(task: TaskView, q: QueuedTaskView) -> TaskResultView {
    TaskResultView::premature_error(
        task.id,
        q.attempt,
        task.options.max_attempts,
        task.name,
        task.function,
        timeout_message(),
        task.is_branch,
        task.options.is_sensor,
        q.queued_date,
    )
}

/// What becomes of an attempt that has timed out: it is retried while
/// attempts are left, and else its task has failed.
pub open spec fn timeout_outcome(options: TaskOptionsView, q: QueuedTaskView) -> Outcome {
    if q.attempt < options.max_attempts {
        Outcome::Retrying { attempt: (q.attempt + 1) as usize, delay: options.retry_delay }
    } else {
        Outcome::Finished { status: TaskStatus::Failure }
    }
}

/// Whether the attempt has been due for longer than the timeout allows.
pub fn is_overdue(timeout: Option<u64>, queued_date: i64, now: i64) -> (r: bool)
    ensures
        r == overdue(timeout, queued_date, now),
{
    match timeout {
        Some(t) => now as i128 - queued_date as i128 > t as i128,
        None => false,
    }
}

/// The failure that is recorded for an attempt that has timed out: a
/// premature failure of that attempt, dated at the time the attempt was
/// queued.
pub fn timeout_result(task: &Task, queued_task: &QueuedTask) -> (r: TaskResult)
    ensures
        r@ == timeout_failure(task@, queued_task@),
{
    TaskResult::premature_error(
        task.id,
        queued_task.attempt,
        task.options.max_attempts,
        task.name.clone(),
        task.function.clone(),
        "timed out".to_owned(),
        task.is_branch,
        task.options.is_sensor,
        queued_task.queued_date,
    )
}

/// The attempt is in flight and has timed out.
pub open spec fn timed_out(state: BackendState, q: QueuedTaskView, now: i64) -> bool {
    state.in_flight.contains(q) && overdue(
        state.record(q.run_id, q.task_id).task.options.timeout,
        q.queued_date,
        now,
    )
}

pub open spec fn attempts_view(entries: Seq<QueuedTask>) -> Seq<QueuedTaskView> {
    Seq::new(entries.len(), |i: int| entries[i]@)
}

pub open spec fn ended_view(ended: Seq<(QueuedTask, Outcome)>) -> Seq<(QueuedTaskView, Outcome)> {
    Seq::new(ended.len(), |i: int| (ended[i].0@, ended[i].1))
}

/// One of the first `upto` attempts of `flight` is `q`.
spec fn seen_before(flight: Seq<QueuedTaskView>, upto: int, q: QueuedTaskView) -> bool {
    exists|k: int| 0 <= k < upto && k < flight.len() && #[trigger] flight[k] == q
}

/// The status in which an attempt leaves its task.
pub open spec fn status_after(outcome: Outcome) -> TaskStatus {
    match outcome {
        Outcome::Finished { status } => status,
        _ => TaskStatus::Retrying,
    }
}

/// The entry under which the attempt after `q` waits in the queue: it is due
/// when the delay of the task has passed.
pub open spec fn retry_entry(state: BackendState, q: QueuedTaskView,
    now: i64) -> OrderedQueuedTaskView {
    queue_entry(
        state.runs[q.run_id as int].depth(q.task_id),
        q.run_id,
        q.task_id,
        q.dag_name,
        q.scheduled_date_for_dag_run,
        (q.attempt + 1) as usize,
        due_time(now, state.record(q.run_id, q.task_id).task.options.retry_delay),
    )
}

/// One of the attempts that were ended is of the task.
pub open spec fn ended_task(ended: Seq<(QueuedTaskView, Outcome)>, run: usize, task: usize) -> bool {
    exists|m: int|
        0 <= m < ended.len() && (#[trigger] ended[m]).0.run_id == run && ended[m].0.task_id
            == task
}

/// The sweep went through `states`, from the first to the last: each attempt
/// of `ended`, in their order, was in flight in the state before it, and the
/// state after it is what the engine makes of that state when the failure by
/// timeout of the attempt is reported.
#[verifier::opaque]
pub open spec fn failures_handled(
    states: Seq<BackendState>,
    ended: Seq<(QueuedTaskView, Outcome)>,
    now: i64,
) -> bool {
    &&& states.len() == ended.len() + 1
    &&& forall|k: int|
        0 <= k < ended.len() ==> {
            let e = (#[trigger] ended[k]).0;
            let failure = timeout_failure(states[0].record(e.run_id, e.task_id).task, e);
            &&& report_expected(states[k], e.run_id, failure, e)
            &&& ended[k].1 == outcome_of(states[k], e.run_id, failure, e)
            &&& handled(states[k], states[k + 1], e.run_id, failure, e, now, ended[k].1)
        }
}

/// One more attempt was ended.
proof fn lemma_failures_step(
    states: Seq<BackendState>,
    ended: Seq<(QueuedTaskView, Outcome)>,
    next: BackendState,
    q: QueuedTaskView,
    outcome: Outcome,
    now: i64,
)
    requires
        failures_handled(states, ended, now),
        ({
            let failure = timeout_failure(states[0].record(q.run_id, q.task_id).task, q);
            &&& report_expected(states.last(), q.run_id, failure, q)
            &&& outcome == outcome_of(states.last(), q.run_id, failure, q)
            &&& handled(states.last(), next, q.run_id, failure, q, now, outcome)
        }),
    ensures
        failures_handled(states.push(next), ended.push((q, outcome)), now),
{
    reveal(failures_handled);
    let grown = ended.push((q, outcome));
    let longer = states.push(next);
    assert forall|k: int| 0 <= k < grown.len() implies {
        let e = (#[trigger] grown[k]).0;
        let failure = timeout_failure(longer[0].record(e.run_id, e.task_id).task, e);
        &&& report_expected(longer[k], e.run_id, failure, e)
        &&& grown[k].1 == outcome_of(longer[k], e.run_id, failure, e)
        &&& handled(longer[k], longer[k + 1], e.run_id, failure, e, now, grown[k].1)
    } by {
        if k < ended.len() {
            assert(grown[k] == ended[k]);
            assert(longer[k] == states[k]);
            assert(longer[k + 1] == states[k + 1]);
        } else {
            assert(longer[k] == states.last());
            assert(longer[k + 1] == next);
        }
    }
}

/// What holds after the first `upto` attempts of `flight` have been looked
/// at: `cur` has the tasks of `s0`; those of the attempts that had timed out
/// are in `ended`, each with its failure recorded, and are no more in flight;
/// nothing else has left the attempts in flight; the queue holds what it
/// held and an entry for each attempt that is made again; and no task that
/// did not wait has changed but those of the attempts that were ended.
#[verifier::opaque]
spec fn swept(
    s0: BackendState,
    cur: BackendState,
    flight: Seq<QueuedTaskView>,
    upto: int,
    ended: Seq<(QueuedTaskView, Outcome)>,
    now: i64,
) -> bool {
    &&& forall|r: usize, t: usize|
        s0.has_task(r, t) ==> cur.has_task(r, t) && (#[trigger] cur.record(r, t)).task == s0.record(
            r,
            t,
        ).task
    &&& forall|q: QueuedTaskView|
        #[trigger] cur.in_flight.contains(q) <==> s0.in_flight.contains(q)
            && !(timed_out(s0, q, now)
            && seen_before(flight, upto, q))
    &&& forall|m: int|
        0 <= m < ended.len() ==> {
            let e = (#[trigger] ended[m]).0;
            &&& timed_out(s0, e, now)
            &&& seen_before(flight, upto, e)
            &&& ended[m].1 == timeout_outcome(s0.record(e.run_id, e.task_id).task.options, e)
            &&& cur.record(e.run_id, e.task_id).results.contains(
                timeout_failure(s0.record(e.run_id, e.task_id).task, e),
            )
            &&& cur.status(e.run_id, e.task_id) == status_after(ended[m].1)
        }
    &&& forall|k: int|
        0 <= k < upto && k < flight.len() && timed_out(s0, #[trigger] flight[k], now) ==> exists|
            m: int,
        |
            0 <= m < ended.len() && (#[trigger] ended[m]).0 == flight[k]
    &&& forall|e: OrderedQueuedTaskView| #[trigger] s0.queue.contains(e) ==> cur.queue.contains(e)
    &&& forall|m: int|
        0 <= m < ended.len() && (#[trigger] ended[m]).1 is Retrying ==> cur.queue.contains(
            retry_entry(s0, ended[m].0, now),
        )
    &&& forall|r: usize, t: usize|
        s0.has_task(r, t) && s0.status(r, t) != TaskStatus::Pending && !ended_task(ended, r, t)
            ==> #[trigger] cur.record(r, t) == s0.record(r, t)
}

proof fn lemma_swept_start(s0: BackendState, flight: Seq<QueuedTaskView>, now: i64)
    ensures
        swept(s0, s0, flight, 0, Seq::empty(), now),
{
    reveal(swept);
}

proof fn lemma_seen_step(flight: Seq<QueuedTaskView>, upto: int, q: QueuedTaskView)
    requires
        0 <= upto < flight.len(),
    ensures
        seen_before(flight, upto + 1, q) <==> seen_before(flight, upto, q) || flight[upto] == q,
{
    if seen_before(flight, upto + 1, q) {
        let k = choose|k: int| 0 <= k < upto + 1 && k < flight.len() && #[trigger] flight[k] == q;
        if k < upto {
            assert(seen_before(flight, upto, q));
        }
    }
    if seen_before(flight, upto, q) {
        let k = choose|k: int| 0 <= k < upto && k < flight.len() && #[trigger] flight[k] == q;
        assert(0 <= k < upto + 1 && flight[k] == q);
    }
    if flight[upto] == q {
        assert(seen_before(flight, upto + 1, q));
    }
}

/// An attempt that has not timed out is passed over.
proof fn lemma_swept_pass(
    s0: BackendState,
    cur: BackendState,
    flight: Seq<QueuedTaskView>,
    upto: int,
    ended: Seq<(QueuedTaskView, Outcome)>,
    now: i64,
)
    requires
        swept(s0, cur, flight, upto, ended, now),
        0 <= upto < flight.len(),
        !timed_out(s0, flight[upto], now),
    ensures
        swept(s0, cur, flight, upto + 1, ended, now),
{
    reveal(swept);
    assert forall|q: QueuedTaskView|
        #[trigger] cur.in_flight.contains(q) <==> s0.in_flight.contains(q)
            && !(timed_out(s0, q, now)
            && seen_before(flight, upto + 1, q)) by {
        lemma_seen_step(flight, upto, q);
    }
    assert forall|m: int| 0 <= m < ended.len() implies
        seen_before(flight, upto + 1, (#[trigger] ended[m]).0) by {
        lemma_seen_step(flight, upto, ended[m].0);
    }
}

/// The attempt that is looked at next is still in flight.
proof fn lemma_still_in_flight(
    s0: BackendState,
    cur: BackendState,
    flight: Seq<QueuedTaskView>,
    upto: int,
    ended: Seq<(QueuedTaskView, Outcome)>,
    now: i64,
)
    requires
        swept(s0, cur, flight, upto, ended, now),
        0 <= upto < flight.len(),
        flight.no_duplicates(),
        s0.in_flight.contains(flight[upto]),
    ensures
        cur.in_flight.contains(flight[upto]),
{
    reveal(swept);
    let q = flight[upto];
    if seen_before(flight, upto, q) {
        let k = choose|k: int| 0 <= k < upto && k < flight.len() && #[trigger] flight[k] == q;
        assert(flight[k] != flight[upto]);
    }
}

/// An attempt that has timed out is ended.
proof fn lemma_swept_end(
    s0: BackendState,
    cur: BackendState,
    next: BackendState,
    flight: Seq<QueuedTaskView>,
    upto: int,
    ended: Seq<(QueuedTaskView, Outcome)>,
    now: i64,
    outcome: Outcome,
)
    requires
        engine_inv(s0),
        cur.wf(),
        swept(s0, cur, flight, upto, ended, now),
        0 <= upto < flight.len(),
        flight.no_duplicates(),
        forall|k: int| 0 <= k < flight.len() ==> s0.in_flight.contains(#[trigger] flight[k]),
        timed_out(s0, flight[upto], now),
        outcome == outcome_of(
            cur,
            flight[upto].run_id,
            timeout_failure(s0.record(flight[upto].run_id, flight[upto].task_id).task,
                flight[upto]),
            flight[upto],
        ),
        handled(
            cur,
            next,
            flight[upto].run_id,
            timeout_failure(s0.record(flight[upto].run_id, flight[upto].task_id).task,
                flight[upto]),
            flight[upto],
            now,
            outcome,
        ),
    ensures
        swept(s0, next, flight, upto + 1, ended.push((flight[upto], outcome)), now),
{
    reveal(swept);
    let q = flight[upto];
    let run = q.run_id;
    let task = q.task_id;
    let result = timeout_failure(s0.record(run, task).task, q);
    let grown = ended.push((q, outcome));
    assert(s0.has_task(run, task));
    assert(cur.in_flight.contains(q)) by {
        if seen_before(flight, upto, q) {
            let k = choose|k: int| 0 <= k < upto && k < flight.len() && #[trigger] flight[k] == q;
            assert(flight[k] != flight[upto]);
        }
    }
    assert(report_expected(cur, run, result, q));
    lemma_handled_frame(cur, next, run, result, q, now, outcome);
    assert(!crate::json::truthy(result.result));
    assert(outcome == timeout_outcome(s0.record(run, task).task.options, q));
    assert forall|r: usize, t: usize| s0.has_task(r, t) implies next.has_task(r, t)
        && (#[trigger] next.record(r, t)).task == s0.record(r, t).task by {
        assert(cur.has_task(r, t));
        assert(next.runs[r as int].tasks.len() == cur.runs[r as int].tasks.len());
    }
    assert forall|x: QueuedTaskView|
        #[trigger] next.in_flight.contains(x) <==> s0.in_flight.contains(x)
            && !(timed_out(s0, x, now)
            && seen_before(flight, upto + 1, x)) by {
        lemma_seen_step(flight, upto, x);
    }
    assert forall|m: int| 0 <= m < grown.len() implies {
        let e = (#[trigger] grown[m]).0;
        &&& timed_out(s0, e, now)
        &&& seen_before(flight, upto + 1, e)
        &&& grown[m].1 == timeout_outcome(s0.record(e.run_id, e.task_id).task.options, e)
        &&& next.record(e.run_id, e.task_id).results.contains(
            timeout_failure(s0.record(e.run_id, e.task_id).task, e),
        )
        &&& next.status(e.run_id, e.task_id) == status_after(grown[m].1)
    } by {
        let e = grown[m].0;
        lemma_seen_step(flight, upto, e);
        if m < ended.len() {
            assert(grown[m] == ended[m]);
            let k0 = choose|k0: int| 0 <= k0 < upto && k0 < flight.len()
                && #[trigger] flight[k0] == e;
            assert(flight[k0] != flight[upto]);
            assert(!(e.run_id == run && e.task_id == task)) by {
                if e.run_id == run && e.task_id == task {
                    crate::laws::lemma_one_attempt_in_flight(s0, e, q);
                }
            }
            assert(s0.has_task(e.run_id, e.task_id));
            assert(cur.has_task(e.run_id, e.task_id));
            assert(cur.status(e.run_id, e.task_id) != TaskStatus::Pending);
            assert(next.record(e.run_id, e.task_id) == cur.record(e.run_id, e.task_id));
        } else {
            let new_results = next.record(run, task).results;
            let old_results = cur.record(run, task).results;
            assert(new_results == old_results.push(result));
            assert(new_results[old_results.len() as int] == result);
        }
    }
    assert forall|k: int|
        0 <= k < upto + 1 && k < flight.len() && timed_out(s0, #[trigger] flight[k], now) implies
            exists|
            m: int,
        |
            0 <= m < grown.len() && (#[trigger] grown[m]).0 == flight[k] by {
        if k < upto {
            let m = choose|m: int| 0 <= m < ended.len() && (#[trigger] ended[m]).0 == flight[k];
            assert(grown[m] == ended[m]);
        } else {
            assert(grown[ended.len() as int].0 == q);
        }
    }
    lemma_handled_keeps_queue(cur, next, run, result, q, now, outcome);
    assert(!ended_task(ended, run, task)) by {
        if ended_task(ended, run, task) {
            let m = choose|m: int|
                0 <= m < ended.len() && (#[trigger] ended[m]).0.run_id == run
                    && ended[m].0.task_id == task;
            let e = ended[m].0;
            crate::laws::lemma_one_attempt_in_flight(s0, e, q);
            let k0 = choose|k0: int| 0 <= k0 < upto && k0 < flight.len()
                && #[trigger] flight[k0] == e;
            assert(flight[k0] != flight[upto]);
        }
    }
    assert(s0.status(run, task) == TaskStatus::Running && q.attempt
        == s0.record(run, task).attempts) by {
        reveal(queues_ok);
    }
    assert(cur.record(run, task) == s0.record(run, task));
    assert(cur.runs[run as int].depth(task) == s0.runs[run as int].depth(task)) by {
        lemma_steady_record(s0, run, task);
        assert(s0.record(run, task).depth is Some);
        assert(cur.runs[run as int].tasks[task as int] == cur.record(run, task));
        assert(s0.runs[run as int].tasks[task as int] == s0.record(run, task));
    }
    assert forall|e: OrderedQueuedTaskView| #[trigger] s0.queue.contains(e) implies
        next.queue.contains(e) by {
        assert(cur.queue.contains(e));
    }
    assert forall|m: int| 0 <= m < grown.len() && (#[trigger] grown[m]).1 is Retrying implies
        next.queue.contains(retry_entry(s0, grown[m].0, now)) by {
        if m < ended.len() {
            assert(grown[m] == ended[m]);
            assert(cur.queue.contains(retry_entry(s0, ended[m].0, now)));
        }
    }
    assert forall|r: usize, t: usize|
        s0.has_task(r, t) && s0.status(r, t) != TaskStatus::Pending && !ended_task(grown, r, t)
        implies #[trigger] next.record(r, t) == s0.record(r, t) by {
        if ended_task(ended, r, t) {
            let m = choose|m: int|
                0 <= m < ended.len() && (#[trigger] ended[m]).0.run_id == r && ended[m].0.task_id
                    == t;
            assert(grown[m] == ended[m]);
            assert(ended_task(grown, r, t));
        }
        if r == run && t == task {
            assert(grown[ended.len() as int].0 == q);
            assert(ended_task(grown, r, t));
        }
        assert(cur.record(r, t) == s0.record(r, t));
        assert(cur.has_task(r, t));
    }
}

/// One sweep of the watchdog. Every attempt in flight that has timed out is
/// ended as a premature failure, which is recorded and dealt with like any
/// reported result: the task is retried while attempts are left and else has
/// failed. Gives the attempts that were ended, in the order in which they
/// were dealt with, each with what became of it. The state is what the
/// reports of these failures, one after the other, make of it; the next
/// attempt of each task that is retried waits in the queue; and an attempt
/// that has not timed out is in flight as before, its task as it was.
pub fn check_timeout<B: Backend>(backend: &mut B, now: i64) -> (ended: Vec<(QueuedTask, Outcome)>)
    requires
        old(backend).inv(),
        engine_inv(old(backend).state()),
    ensures
        final(backend).inv(),
        engine_inv(final(backend).state()),
        forall|i: int|
            0 <= i < ended@.len() ==> {
                let e = (#[trigger] ended@[i]).0@;
                let before = old(backend).state().record(e.run_id, e.task_id);
                &&& timed_out(old(backend).state(), e, now)
                &&& ended@[i].1 == timeout_outcome(before.task.options, e)
                &&& final(backend).state().record(e.run_id, e.task_id).results.contains(
                    timeout_failure(before.task, e),
                )
                &&& final(backend).state().status(e.run_id, e.task_id) == status_after(ended@[i].1)
            },
        forall|q: QueuedTaskView|
            timed_out(old(backend).state(), q, now) ==> exists|i: int|
                0 <= i < ended@.len() && (#[trigger] ended@[i]).0@ == q,
        forall|q: QueuedTaskView|
            final(backend).state().in_flight.contains(q)
                <==> old(backend).state().in_flight.contains(q)
                && !timed_out(old(backend).state(), q, now),
        exists|states: Seq<BackendState>|
            {
                &&& states[0] == old(backend).state()
                &&& states[ended@.len() as int] == final(backend).state()
                &&& #[trigger] failures_handled(states, ended_view(ended@), now)
            },
        forall|i: int|
            0 <= i < ended@.len() && (#[trigger] ended@[i]).1 is Retrying
                ==> final(backend).state().queue.contains(
                retry_entry(old(backend).state(), ended@[i].0@, now),
            ),
        forall|e: OrderedQueuedTaskView| #[trigger]
            old(backend).state().queue.contains(e) ==> final(backend).state().queue.contains(e),
        forall|q: QueuedTaskView|
            old(backend).state().in_flight.contains(q) && !timed_out(old(backend).state(), q, now)
                ==> final(backend).state().record(q.run_id, q.task_id)
                == old(backend).state().record(q.run_id, q.task_id),
{
    let ghost s0 = backend.state();
    let ghost mut states: Seq<BackendState> = seq![s0];
    proof {
        backend.lemma_inv_gives_wf();
    }
    let flight = backend.get_temp_queue();
    let ghost fv = attempts_view(flight@);
    let mut ended: Vec<(QueuedTask, Outcome)> = Vec::new();
    let mut i: usize = 0;
    proof {
        lemma_swept_start(s0, fv, now);
        assert(ended_view(ended@) =~= Seq::empty());
        assert(failures_handled(states, ended_view(ended@), now)) by {
            reveal(failures_handled);
        }
        assert(fv.no_duplicates()) by {
            assert forall|a: int, b: int| 0 <= a < fv.len() && 0 <= b < fv.len() && a != b implies
                fv[a] != fv[b] by {
                if a < b {
                    assert(flight@[a]@ != flight@[b]@);
                } else {
                    assert(flight@[b]@ != flight@[a]@);
                }
            }
        }
        assert forall|k: int| 0 <= k < fv.len() implies s0.in_flight.contains(#[trigger] fv[k]) by {
            assert(s0.in_flight.contains(flight@[k]@));
        }
    }
    while i < flight.len()
        invariant
            i <= flight.len(),
            backend.inv(),
            engine_inv(backend.state()),
            engine_inv(s0),
            s0.wf(),
            fv == attempts_view(flight@),
            fv.no_duplicates(),
            forall|k: int| 0 <= k < fv.len() ==> s0.in_flight.contains(#[trigger] fv[k]),
            swept(s0, backend.state(), fv, i as int, ended_view(ended@), now),
            failures_handled(states, ended_view(ended@), now),
            states.len() == ended@.len() + 1,
            states[0] == s0,
            states.last() == backend.state(),
        decreases flight.len() - i,
    {
        let queued_task = &flight[i];
        let ghost q = queued_task@;
        let ghost cur = backend.state();
        proof {
            backend.lemma_inv_gives_wf();
            assert(fv[i as int] == q);
            assert(s0.in_flight.contains(q));
            assert(s0.has_task(q.run_id, q.task_id));
            assert(cur.has_task(q.run_id, q.task_id)
                && cur.record(q.run_id, q.task_id).task == s0.record(q.run_id, q.task_id).task) by {
                reveal(swept);
            }
        }
        let task = backend.get_task_by_id(queued_task.run_id, queued_task.task_id);
        if is_overdue(task.options.timeout, queued_task.queued_date, now) {
            let result = timeout_result(&task, queued_task);
            let outcome = handle_task_result(backend, queued_task.run_id, &result, queued_task,
                now);
            let ghost before_push = ended_view(ended@);
            ended.push((queued_task.duplicate(), outcome));
            proof {
                assert(cur.in_flight.contains(q)) by {
                    lemma_still_in_flight(s0, cur, fv, i as int, before_push, now);
                }
                lemma_swept_end(s0, cur, backend.state(), fv, i as int, before_push, now, outcome);
                assert(ended_view(ended@) =~= before_push.push((q, outcome)));
                lemma_failures_step(states, before_push, backend.state(), q, outcome, now);
                states = states.push(backend.state());
            }
        } else {
            proof {
                lemma_swept_pass(s0, cur, fv, i as int, ended_view(ended@), now);
            }
        }
        i += 1;
    }
    proof {
        reveal(swept);
        let fin = backend.state();
        let ev = ended_view(ended@);
        assert forall|k: int| 0 <= k < ended@.len() implies {
            let e = (#[trigger] ended@[k]).0@;
            let before = s0.record(e.run_id, e.task_id);
            &&& timed_out(s0, e, now)
            &&& ended@[k].1 == timeout_outcome(before.task.options, e)
            &&& fin.record(e.run_id, e.task_id).results.contains(timeout_failure(before.task, e))
            &&& fin.status(e.run_id, e.task_id) == status_after(ended@[k].1)
        } by {
            assert(ev[k] == (ended@[k].0@, ended@[k].1));
        }
        assert forall|q: QueuedTaskView| timed_out(s0, q, now) implies exists|m: int|
            0 <= m < ended@.len() && (#[trigger] ended@[m]).0@ == q by {
            let k = choose|k: int| 0 <= k < flight@.len() && (#[trigger] flight@[k])@ == q;
            assert(fv[k] == q);
            let m = choose|m: int| 0 <= m < ev.len() && (#[trigger] ev[m]).0 == fv[k];
            assert(ended@[m].0@ == q);
        }
        assert forall|q: QueuedTaskView|
            fin.in_flight.contains(q) <==> s0.in_flight.contains(q) && !timed_out(s0, q, now) by {
            if s0.in_flight.contains(q) {
                let k = choose|k: int| 0 <= k < flight@.len() && (#[trigger] flight@[k])@ == q;
                assert(fv[k] == q);
                assert(seen_before(fv, fv.len() as int, q));
            }
        }
        assert forall|k: int| 0 <= k < ended@.len() && (#[trigger] ended@[k]).1 is Retrying implies
            fin.queue.contains(retry_entry(s0, ended@[k].0@, now)) by {
            assert(ev[k] == (ended@[k].0@, ended@[k].1));
        }
        assert forall|q: QueuedTaskView|
            s0.in_flight.contains(q) && !timed_out(s0, q, now) implies fin.record(
            q.run_id,
            q.task_id,
        ) == s0.record(q.run_id, q.task_id) by {
            assert(s0.status(q.run_id, q.task_id) == TaskStatus::Running) by {
                reveal(queues_ok);
            }
            if ended_task(ev, q.run_id, q.task_id) {
                let m = choose|m: int|
                    0 <= m < ev.len() && (#[trigger] ev[m]).0.run_id == q.run_id
                        && ev[m].0.task_id == q.task_id;
                crate::laws::lemma_one_attempt_in_flight(s0, ev[m].0, q);
            }
        }
        assert(states[ended@.len() as int] == fin);
    }
    ended
}

} // verus!
