//! Taking up the next attempt from the queue: the task is set to Running and
//! its arguments are made from its template.

use crate::backend::{Backend, BackendState, RunRecord, TaskRecord};
use crate::engine::{attempt_count, engine_inv, lemma_steady_record, queues_ok};
use crate::json::{fields_view, lemma_object_view, Json, JsonValue};
use crate::report::lemma_runs_kept_steady;
use crate::status::{TaskStatus, TriggerRule};
use crate::task::{results_view, QueuedTask, QueuedTaskView, Task, TaskResult, TaskResultView};
use crate::template::{lookup_of, resolve, resolved, values_view, ResolveError};
use vstd::prelude::*;

verus! {

/// The state once the first entry of the queue is with a worker: the entry
/// is in flight and its task is Running.
pub open spec fn started_state(before: BackendState) -> BackendState {
    let q = before.queue[0].queued_task;
    before.with_queue(before.queue.drop_first()).with_in_flight(
        before.in_flight.insert(q),
    ).with_status(q.run_id, q.task_id, TaskStatus::Running)
}

/// What became of the first entry of the queue.
pub enum Taken {
    /// The queue was empty.
    Idle,
    /// The task of the entry was skipped while it waited in the queue; the
    /// entry is gone and nothing else has changed.
    Aborted { queued_task: QueuedTask },
    /// The entry is in flight and its task is Running.
    Started { queued_task: QueuedTask },
}

/// Taking up the first entry of the queue keeps what holds between the steps
/// of the engine.
proof fn lemma_started_inv(before: BackendState, after: BackendState)
    requires
        engine_inv(before),
        before.queue.len() > 0,
        before.status(before.queue[0].queued_task.run_id, before.queue[0].queued_task.task_id)
            != TaskStatus::Skipped,
        after == started_state(before),
        after.wf(),
    ensures
        engine_inv(after),
{
    let q = before.queue[0].queued_task;
    let run = q.run_id;
    let task = q.task_id;
    assert(before.has_task(run, task));
    let old_rec = before.record(run, task);
    assert((old_rec.status == TaskStatus::Queued || old_rec.status == TaskStatus::Retrying)
        && q.attempt == attempt_count(old_rec)) by {
        reveal(queues_ok);
    }
    lemma_steady_record(before, run, task);
    let new_rec = TaskRecord { status: TaskStatus::Running, ..old_rec };
    assert(after.record(run, task) == new_rec);
    lemma_runs_kept_steady(before, after, run, task);
    assert(queues_ok(after)) by {
        reveal(queues_ok);
        assert forall|i: int| 0 <= i < after.queue.len() implies {
            let e = (#[trigger] after.queue[i]).queued_task;
            let rec = after.record(e.run_id, e.task_id);
            &&& rec.status == TaskStatus::Queued || rec.status == TaskStatus::Retrying || rec.status
                == TaskStatus::Skipped
            &&& rec.status != TaskStatus::Skipped ==> e.attempt == attempt_count(rec)
        } by {
            assert(after.queue[i] == before.queue[i + 1]);
            let e = before.queue[i + 1].queued_task;
            assert(before.has_task(e.run_id, e.task_id));
            assert(!crate::backend::entry_of(before.queue[i + 1], run, task));
            assert(after.record(e.run_id, e.task_id) == before.record(e.run_id, e.task_id));
        }
        assert forall|p: QueuedTaskView| #[trigger] after.in_flight.contains(p) implies {
            let rec = after.record(p.run_id, p.task_id);
            rec.status == TaskStatus::Running && p.attempt == attempt_count(rec)
        } by {
            if p != q {
                assert(before.in_flight.contains(p));
                assert(before.has_task(p.run_id, p.task_id));
                assert(!(p.run_id == run && p.task_id == task));
                assert(after.record(p.run_id, p.task_id) == before.record(p.run_id, p.task_id));
            }
        }
        assert forall|p: QueuedTaskView, r: QueuedTaskView|
            #![trigger after.in_flight.contains(p), after.in_flight.contains(r)]
            after.in_flight.contains(p) && after.in_flight.contains(r) && p.run_id == r.run_id
                && p.task_id == r.task_id implies p == r by {
            if p != q {
                assert(before.in_flight.contains(p));
            }
            if r != q {
                assert(before.in_flight.contains(r));
            }
        }
    }
}

/// Dropping the first entry of the queue, whose task was skipped while it
/// waited there, keeps what holds between the steps of the engine.
proof fn lemma_aborted_inv(before: BackendState, after: BackendState)
    requires
        engine_inv(before),
        before.queue.len() > 0,
        after == before.with_queue(before.queue.drop_first()),
        after.wf(),
    ensures
        engine_inv(after),
{
    assert(queues_ok(after)) by {
        reveal(queues_ok);
        assert forall|i: int| 0 <= i < after.queue.len() implies {
            let e = (#[trigger] after.queue[i]).queued_task;
            let rec = after.record(e.run_id, e.task_id);
            &&& rec.status == TaskStatus::Queued || rec.status == TaskStatus::Retrying || rec.status
                == TaskStatus::Skipped
            &&& rec.status != TaskStatus::Skipped ==> e.attempt == attempt_count(rec)
        } by {
            assert(after.queue[i] == before.queue[i + 1]);
        }
    }
}

/// Takes the first entry from the queue and sets its task to Running. An
/// entry whose task was skipped while it waited is dropped.
pub fn take_next<B: Backend>(backend: &mut B) -> (r: Taken)
    requires
        old(backend).inv(),
        engine_inv(old(backend).state()),
    ensures
        final(backend).inv(),
        engine_inv(final(backend).state()),
        match r {
            Taken::Idle => old(backend).state().queue.len() == 0 && final(backend).state() == old(
                backend,
            ).state(),
            Taken::Aborted { queued_task } => {
                &&& old(backend).state().queue.len() > 0
                &&& queued_task@ == old(backend).state().queue[0].queued_task
                &&& old(backend).state().status(queued_task.run_id, queued_task.task_id)
                    == TaskStatus::Skipped
                &&& final(backend).state() == old(backend).state().with_queue(
                    old(backend).state().queue.drop_first(),
                )
            },
            Taken::Started { queued_task } => {
                &&& old(backend).state().queue.len() > 0
                &&& queued_task@ == old(backend).state().queue[0].queued_task
                &&& old(backend).state().status(queued_task.run_id, queued_task.task_id)
                    != TaskStatus::Skipped
                &&& final(backend).state() == started_state(old(backend).state())
            },
        },
{
    let ghost s0 = backend.state();
    let entry = match backend.pop_priority_queue() {
        None => {
            return Taken::Idle;
        },
        Some(e) => e,
    };
    let queued_task = entry.queued_task;
    let run_id = queued_task.run_id;
    let task_id = queued_task.task_id;
    proof {
        backend.lemma_inv_gives_wf();
        assert(backend.state().in_flight.contains(queued_task@));
        assert(backend.state().has_task(run_id, task_id));
        assert(s0.has_task(run_id, task_id));
    }
    let status = backend.get_task_status(run_id, task_id);
    proof {
        assert((status == TaskStatus::Queued || status == TaskStatus::Retrying || status
            == TaskStatus::Skipped)) by {
            reveal(queues_ok);
            assert(s0.queue[0].queued_task == queued_task@);
        }
    }
    if status == TaskStatus::Skipped {
        backend.remove_from_temp_queue(&queued_task);
        proof {
            assert(!s0.in_flight.contains(queued_task@)) by {
                reveal(queues_ok);
            }
            assert(s0.in_flight.insert(queued_task@).remove(queued_task@) =~= s0.in_flight);
            backend.lemma_inv_gives_wf();
            lemma_aborted_inv(s0, backend.state());
        }
        return Taken::Aborted { queued_task };
    }
    backend.set_task_status(run_id, task_id, TaskStatus::Running);
    proof {
        backend.lemma_inv_gives_wf();
        lemma_started_inv(s0, backend.state());
    }
    Taken::Started { queued_task }
}

/// The value of the latest result that succeeded, if one did.
pub open spec fn latest_success(results: Seq<TaskResultView>) -> Option<JsonValue>
    decreases results.len(),
{
    if results.len() == 0 {
        None
    } else if results.last().success {
        Some(results.last().result)
    } else {
        latest_success(results.drop_last())
    }
}

/// A task whose rule is AllDone or AnyFailed is handed the latest result of
/// an upstream whatever it came to; any other task the latest that succeeded.
pub open spec fn takes_any_result(rule: TriggerRule) -> bool {
    rule == TriggerRule::AllDone || rule == TriggerRule::AnyFailed
}

/// The value that a task hands to a downstream, if it has one to hand.
pub open spec fn value_to_pass(rec: TaskRecord, any: bool) -> Option<JsonValue> {
    if any {
        if rec.results.len() > 0 {
            Some(rec.results.last().result)
        } else {
            None
        }
    } else {
        latest_success(rec.results)
    }
}

/// The values that the upstreams of a task have to hand to it, by upstream.
pub open spec fn available_values(run: RunRecord, task: usize) -> Map<usize, JsonValue> {
    let any = takes_any_result(run.tasks[task as int].task.options.trigger_rule);
    Map::new(
        |up: usize| run.is_upstream(up, task) && value_to_pass(run.tasks[up as int], any) is Some,
        |up: usize| value_to_pass(run.tasks[up as int], any)->0,
    )
}

/// The name of the field under which a run's trigger parameters are handed
/// to a task.
pub open spec fn trigger_params_key() -> Seq<char> {
    "trigger_params"@
}

/// Arguments that are an object, with the run's trigger parameters added as
/// its last field, null where the run has none. Arguments that are no object
/// are left as they are.
pub open spec fn with_params(args: JsonValue, params: Option<JsonValue>) -> JsonValue {
    match args {
        JsonValue::Object(fields) => JsonValue::Object(
            fields.push(
                (
                    trigger_params_key(),
                    match params {
                        Some(p) => p,
                        None => JsonValue::Null,
                    },
                ),
            ),
        ),
        other => other,
    }
}

/// The arguments with which a task is dispatched: its template with every
/// placeholder replaced by what the upstream has to hand, and with the run's
/// trigger parameters where the task asks for them.
pub open spec fn arguments(run: RunRecord, task: usize) -> Result<JsonValue, ResolveError> {
    let t = run.tasks[task as int].task;
    match resolved(t.template_args, available_values(run, task)) {
        Ok(a) => Ok(
            if t.use_trigger_params {
                with_params(a, run.trigger_params)
            } else {
                a
            },
        ),
        Err(e) => Err(e),
    }
}

/// The value that a task with these results hands to a downstream.
fn latest_value(results: &Vec<TaskResult>, any: bool) -> (r: Option<Json>)
    ensures
        match r {
            Some(v) => Some(v@) == if any {
                if results@.len() > 0 {
                    Some(results_view(results@).last().result)
                } else {
                    None
                }
            } else {
                latest_success(results_view(results@))
            },
            None => (if any {
                if results@.len() > 0 {
                    Some(results_view(results@).last().result)
                } else {
                    None
                }
            } else {
                latest_success(results_view(results@))
            }) is None,
        },
{
    let ghost all = results_view(results@);
    if results.len() == 0 {
        return None;
    }
    if any {
        return Some(results[results.len() - 1].result.duplicate());
    }
    let mut i: usize = results.len();
    proof {
        assert(all.subrange(0, i as int) =~= all);
    }
    while i > 0
        invariant
            i <= results.len(),
            !any,
            all == results_view(results@),
            latest_success(all) == latest_success(all.subrange(0, i as int)),
        decreases i,
    {
        let ghost prefix = all.subrange(0, i as int);
        proof {
            assert(prefix.drop_last() =~= all.subrange(0, i - 1));
            assert(prefix.last() == all[i - 1]);
            assert(all[i - 1] == results@[i - 1]@);
        }
        if results[i - 1].success {
            return Some(results[i - 1].result.duplicate());
        }
        i -= 1;
    }
    None
}

/// The values that the upstreams of the task have to hand to it.
fn upstream_values<B: Backend>(backend: &B, run_id: usize, task_id: usize, any: bool) -> (r: Vec<
    (usize, Json),
>)
    requires
        backend.inv(),
        backend.state().has_task(run_id, task_id),
        any == takes_any_result(
            backend.state().record(run_id, task_id).task.options.trigger_rule,
        ),
    ensures
        lookup_of(values_view(r@)) == available_values(backend.state().runs[run_id as int],
            task_id),
{
    proof {
        backend.lemma_inv_gives_wf();
    }
    let ghost run = backend.state().runs[run_id as int];
    let ups = backend.get_upstream(run_id, task_id);
    let mut values: Vec<(usize, Json)> = Vec::new();
    let mut i: usize = 0;
    proof {
        assert(values_view(values@) =~= Seq::empty());
        assert(lookup_of(values_view(values@)) =~= Map::empty());
    }
    while i < ups.len()
        invariant
            i <= ups.len(),
            backend.inv(),
            backend.state().has_run(run_id),
            run == backend.state().runs[run_id as int],
            run.wf(),
            forall|up: usize| ups@.contains(up) <==> run.is_upstream(up, task_id),
            forall|up: usize|
                lookup_of(values_view(values@)).dom().contains(up) <==> ups@.subrange(
                    0,
                    i as int,
                ).contains(up) && value_to_pass(run.tasks[up as int], any) is Some,
            forall|up: usize|
                lookup_of(values_view(values@)).dom().contains(up) ==> lookup_of(
                    values_view(values@),
                )[up] == value_to_pass(run.tasks[up as int], any)->0,
        decreases ups.len() - i,
    {
        let up = ups[i];
        let ghost seen = ups@.subrange(0, i as int);
        let ghost seen_next = ups@.subrange(0, i + 1);
        let ghost before = values_view(values@);
        proof {
            assert(ups@.contains(up));
            assert(run.edges.contains((up, task_id)));
            assert(seen_next =~= seen.push(up));
            assert forall|x: usize| seen_next.contains(x) <==> seen.contains(x) || x == up by {
                if seen.contains(x) {
                    let k = choose|k: int| 0 <= k < seen.len() && seen[k] == x;
                    assert(seen_next[k] == x);
                }
                if x == up {
                    assert(seen_next[i as int] == x);
                }
                if seen_next.contains(x) {
                    let k = choose|k: int| 0 <= k < seen_next.len() && seen_next[k] == x;
                    if k < i {
                        assert(seen[k] == x);
                    }
                }
            }
        }
        let results = backend.get_all_results(run_id, up);
        match latest_value(&results, any) {
            Some(v) => {
                proof {
                    let after = values_view(values@.push((up, v)));
                    assert(after =~= before.push((up, v@)));
                    assert(after.drop_last() =~= before);
                    assert(lookup_of(after) == lookup_of(before).insert(up, v@));
                }
                values.push((up, v));
            },
            None => {},
        }
        i += 1;
    }
    proof {
        assert(ups@.subrange(0, i as int) =~= ups@);
        assert(lookup_of(values_view(values@)) =~= available_values(run, task_id));
    }
    values
}

/// Adds the run's trigger parameters to arguments that are an object.
fn add_params(args: Json, params: Option<Json>) -> (r: Json)
    ensures
        r@ == with_params(
            args@,
            match params {
                Some(p) => Some(p@),
                None => None,
            },
        ),
{
    match args {
        Json::Object(fields) => {
            let mut fields = fields;
            proof {
                lemma_object_view(fields);
            }
            let ghost before = fields_view(fields@);
            let value = match params {
                Some(p) => p,
                None => Json::Null,
            };
            let ghost v = value@;
            fields.push(("trigger_params".to_owned(), value));
            proof {
                lemma_object_view(fields);
                assert(fields_view(fields@) =~= before.push((trigger_params_key(), v)));
            }
            Json::Object(fields)
        },
        other => other,
    }
}

/// Makes the arguments with which the task is dispatched.
pub fn resolve_args<B: Backend>(backend: &B, run_id: usize, task: &Task) -> (r: Result<
    Json,
    ResolveError,
>)
    requires
        backend.inv(),
        backend.state().has_task(run_id, task.id),
        task@ == backend.state().record(run_id, task.id).task,
    ensures
        match r {
            Ok(a) => arguments(backend.state().runs[run_id as int], task.id) == Ok::<
                JsonValue,
                ResolveError,
            >(a@),
            Err(e) => arguments(backend.state().runs[run_id as int], task.id) == Err::<
                JsonValue,
                ResolveError,
            >(e),
        },
{
    let any = match task.options.trigger_rule {
        TriggerRule::AllDone | TriggerRule::AnyFailed => true,
        _ => false,
    };
    let values = upstream_values(backend, run_id, task.id, any);
    match resolve(&task.template_args, &values) {
        Ok(a) => {
            if task.use_trigger_params {
                let params = backend.get_trigger_params(run_id);
                Ok(add_params(a, params))
            } else {
                Ok(a)
            }
        },
        Err(e) => Err(e),
    }
}

} // verus!
