//! Dynamic expansion: a task whose arguments come to a list is replaced at
//! run time by one child per item.

use crate::backend::{Backend, BackendState, RunRecord, TaskRecord};
use crate::engine::{
    attempt_count, engine_inv, lemma_steady_record, queues_ok, record_ok, run_settled, run_steady,
    started,
};
use crate::json::{items_view, Json, JsonValue};
use crate::lists::lemma_pushed_contains;
use crate::rules::{
    lemma_decision_kept, lemma_more_open_upstreams, run_decision, run_satisfied, run_unsatisfiable,
    upstreams_all_terminal,
};
use crate::status::{is_terminal, Decision, TaskStatus, TriggerRule};
use crate::task::{QueuedTaskView, Task, TaskOptionsView, TaskView};
use vstd::prelude::*;

verus! {

/// The child that stands for one item of the list: it runs the function of
/// the expanded task on the item, under the options of the expanded task but
/// for the rule, which asks that all upstreams succeed.
pub open spec fn child_task(parent: TaskView, id: usize, item: JsonValue) -> TaskView {
    TaskView {
        id,
        name: parent.name,
        function: parent.function,
        template_args: item,
        options: TaskOptionsView { trigger_rule: TriggerRule::AllSuccess, ..parent.options },
        lazy_expand: false,
        is_dynamic: true,
        is_branch: false,
        use_trigger_params: parent.use_trigger_params,
    }
}

/// The run while `task` is being expanded over `items`: `made` children have
/// been appended; the first `tied` of them wait for `task`; the first
/// `joined` of them are waited for by every downstream that `task` had, and
/// the next one by those in `seen`; and the depth is forgotten of the tasks
/// in `cleared`.
pub open spec fn expanding(
    run: RunRecord,
    task: usize,
    items: Seq<JsonValue>,
    made: nat,
    tied: nat,
    joined: nat,
    seen: Seq<usize>,
    cleared: Seq<usize>,
) -> RunRecord {
    let n = run.tasks.len();
    RunRecord {
        tasks: Seq::new(
            n + made,
            |t: int|
                if t < n {
                    if cleared.contains(t as usize) && run.tasks[t].status == TaskStatus::Pending {
                        TaskRecord { depth: None, ..run.tasks[t] }
                    } else {
                        run.tasks[t]
                    }
                } else {
                    TaskRecord::fresh(child_task(run.tasks[task as int].task, t as usize,
                        items[t - n]))
                },
        ),
        edges: Set::new(
            |e: (usize, usize)|
                run.edges.contains(e) || (e.0 == task && n <= e.1 < n + tied) || (n <= e.0 < n
                    + joined && run.is_upstream(task, e.1)) || (e.0 == n + joined
                    && seen.contains(e.1)),
        ),
        ..run
    }
}

/// The run after `task` has been expanded over `items`: one child per item
/// has been appended, in the order of the items; each child waits for
/// `task`; every downstream that `task` had waits for every child as well,
/// and its depth is forgotten where it waits.
pub open spec fn expanded_run(run: RunRecord, task: usize, items: Seq<JsonValue>) -> RunRecord {
    let n = run.tasks.len();
    RunRecord {
        tasks: Seq::new(
            n + items.len(),
            |t: int|
                if t < n {
                    if run.is_upstream(task, t as usize) && run.tasks[t].status
                        == TaskStatus::Pending {
                        TaskRecord { depth: None, ..run.tasks[t] }
                    } else {
                        run.tasks[t]
                    }
                } else {
                    TaskRecord::fresh(child_task(run.tasks[task as int].task, t as usize,
                        items[t - n]))
                },
        ),
        edges: Set::new(
            |e: (usize, usize)|
                run.edges.contains(e) || (e.0 == task && n <= e.1 < n + items.len())
                    || (n <= e.0 < n
                    + items.len() && run.is_upstream(task, e.1)),
        ),
        ..run
    }
}

/// A list of `k` items gives `k` children; each child waits for the expanded
/// task; and each downstream that the expanded task had waits for all of
/// them.
pub proof fn lemma_expansion_wires(run: RunRecord, task: usize, items: Seq<JsonValue>)
    requires
        run.wf(),
        run.has_task(task),
        run.tasks.len() + items.len() <= usize::MAX,
    ensures
        expanded_run(run, task, items).tasks.len() == run.tasks.len() + items.len(),
        forall|i: int|
            0 <= i < items.len() ==> {
                let child = (run.tasks.len() + i) as usize;
                &&& (#[trigger] expanded_run(run, task, items).tasks[run.tasks.len() + i]).task
                    == child_task(run.tasks[task as int].task, child, items[i])
                &&& expanded_run(run, task, items).is_upstream(task, child)
            },
        forall|i: int, down: usize|
            0 <= i < items.len() && #[trigger] run.is_upstream(task, down)
                ==> #[trigger] expanded_run(
                run,
                task,
                items,
            ).is_upstream((run.tasks.len() + i) as usize, down),
        forall|up: usize, down: usize|
            run.is_upstream(up, down) ==> #[trigger] expanded_run(run, task, items).is_upstream(
                up,
                down,
            ),
{
    let n = run.tasks.len();
    let grown = expanded_run(run, task, items);
    assert forall|i: int| 0 <= i < items.len() implies {
        let child = (n + i) as usize;
        &&& (#[trigger] grown.tasks[n + i]).task == child_task(
            run.tasks[task as int].task,
            child,
            items[i],
        )
        &&& grown.is_upstream(task, child)
    } by {
        let child = (n + i) as usize;
        assert(grown.edges.contains((task, child)));
    }
    assert forall|i: int, down: usize|
        0 <= i < items.len() && #[trigger] run.is_upstream(task, down) implies
            #[trigger] grown.is_upstream(
        (n + i) as usize,
        down,
    ) by {
        assert(grown.edges.contains(((n + i) as usize, down)));
    }
    assert forall|up: usize, down: usize| run.is_upstream(up, down) implies
        #[trigger] grown.is_upstream(
        up,
        down,
    ) by {
        assert(grown.edges.contains((up, down)));
    }
}

/// Expanding a task that runs keeps what holds between the steps of the
/// engine.
proof fn lemma_expanded_inv(
    before: BackendState,
    after: BackendState,
    run: usize,
    task: usize,
    items: Seq<JsonValue>,
)
    requires
        engine_inv(before),
        after.wf(),
        before.has_task(run, task),
        before.status(run, task) == TaskStatus::Running,
        after == before.with_run(run, expanded_run(before.runs[run as int], task, items)),
    ensures
        engine_inv(after),
{
    let old_run = before.runs[run as int];
    let new_run = after.runs[run as int];
    let n = old_run.tasks.len();
    assert(new_run == expanded_run(old_run, task, items));
    lemma_steady_record(before, run, task);
    assert(run_steady(old_run) && run_settled(old_run)) by {
        reveal(run_steady);
        reveal(run_settled);
    }
    assert forall|t: int| 0 <= t < n implies
        (#[trigger] new_run.tasks[t]).status == old_run.tasks[t].status
        && new_run.tasks[t].task == old_run.tasks[t].task
            && new_run.tasks[t].results == old_run.tasks[t].results
        && attempt_count(new_run.tasks[t]) == attempt_count(old_run.tasks[t]) by {}
    assert(run_steady(new_run)) by {
        reveal(run_steady);
        assert(new_run.wf());
        crate::laws::lemma_expansion_keeps_acyclic(old_run, task, items);
        assert forall|t: int| 0 <= t < new_run.tasks.len() implies
            record_ok(#[trigger] new_run.tasks[t]) by {
            if t < n {
                assert(record_ok(old_run.tasks[t]));
            }
        }
        assert forall|t: usize| t < new_run.tasks.len()
            && started(#[trigger] new_run.tasks[t as int]) implies
            upstreams_all_terminal(new_run, t) by {
            assert(t < n);
            assert(started(old_run.tasks[t as int]));
            assert(upstreams_all_terminal(old_run, t));
            if old_run.is_upstream(task, t) {
                assert(is_terminal(old_run.tasks[task as int].status));
            }
            assert forall|up: usize| #[trigger] new_run.is_upstream(up, t) implies
                is_terminal(new_run.tasks[up as int].status) by {
                assert(new_run.edges.contains((up, t)));
                assert(old_run.is_upstream(up, t));
                assert(old_run.edges.contains((up, t)));
                assert(is_terminal(old_run.tasks[up as int].status));
            }
        }
        assert forall|up: usize, t: usize|
            #[trigger] new_run.is_upstream(up, t) && new_run.tasks[t as int].status
                == TaskStatus::Pending && is_terminal(new_run.tasks[up as int].status) implies
            new_run.tasks[up as int].depth is Some by {
            assert(new_run.edges.contains((up, t)));
            assert(new_run.has_task(up) && new_run.has_task(t));
            assert(up < n);
            assert(up != task);
            assert(old_run.edges.contains((up, t)));
            assert(old_run.is_upstream(up, t));
            assert(old_run.has_task(t));
            assert(old_run.tasks[t as int].status == TaskStatus::Pending);
        }
    }
    assert(run_settled(new_run)) by {
        reveal(run_settled);
        assert forall|t: usize| t < new_run.tasks.len()
            && (#[trigger] new_run.tasks[t as int]).status == TaskStatus::Pending implies
            run_decision(new_run, t) == Decision::Wait by {
            if t < n {
                assert(old_run.tasks[t as int].status == TaskStatus::Pending);
                assert(run_decision(old_run, t) == Decision::Wait);
                if old_run.is_upstream(task, t) {
                    assert forall|up: usize| #[trigger] old_run.is_upstream(up, t) implies
                        new_run.is_upstream(up, t)
                        && new_run.tasks[up as int].status == old_run.tasks[up as int].status by {
                        assert(old_run.edges.contains((up, t)));
                        assert(new_run.edges.contains((up, t)));
                    }
                    assert forall|up: usize| #[trigger] new_run.is_upstream(up, t)
                        && !old_run.is_upstream(up, t) implies
                        !is_terminal(new_run.tasks[up as int].status) by {
                        assert(new_run.edges.contains((up, t)));
                    }
                    assert(new_run.edges.contains((task, t)));
                    lemma_more_open_upstreams(old_run, new_run, t, task);
                } else {
                    assert forall|up: usize| old_run.is_upstream(up, t) == new_run.is_upstream(up,
                        t) by {
                        assert(new_run.is_upstream(up, t) == new_run.edges.contains((up, t)));
                    }
                    assert forall|up: usize| #[trigger] old_run.is_upstream(up, t) implies {
                        let b = old_run.tasks[up as int].status;
                        let a = new_run.tasks[up as int].status;
                        a == b || (!is_terminal(a) && !is_terminal(b))
                    } by {
                        assert(old_run.edges.contains((up, t)));
                    }
                    lemma_decision_kept(old_run, new_run, t);
                }
            } else {
                reveal(run_satisfied);
                reveal(run_unsatisfiable);
                assert(new_run.tasks[t as int].task.options.trigger_rule
                    == TriggerRule::AllSuccess);
                assert(new_run.edges.contains((task, t)));
                assert(new_run.is_upstream(task, t));
                assert forall|up: usize| #[trigger] new_run.is_upstream(up, t) implies
                    up == task by {
                    assert(new_run.edges.contains((up, t)));
                    if old_run.edges.contains((up, t)) {
                        assert(old_run.has_task(t));
                    }
                    if old_run.is_upstream(task, t) {
                        assert(old_run.edges.contains((task, t)));
                    }
                }
            }
        }
    }
    assert forall|r: int| 0 <= r < after.runs.len() implies run_steady(#[trigger] after.runs[r])
        && run_settled(after.runs[r]) by {
        if r != run {
            assert(after.runs[r] == before.runs[r]);
        }
    }
    assert(queues_ok(after)) by {
        reveal(queues_ok);
        assert forall|i: int| 0 <= i < after.queue.len() implies {
            let e = (#[trigger] after.queue[i]).queued_task;
            let rec = after.record(e.run_id, e.task_id);
            &&& rec.status == TaskStatus::Queued || rec.status == TaskStatus::Retrying || rec.status
                == TaskStatus::Skipped
            &&& rec.status != TaskStatus::Skipped ==> e.attempt == attempt_count(rec)
        } by {
            let e = before.queue[i].queued_task;
            assert(before.has_task(e.run_id, e.task_id));
            if e.run_id == run {
                assert(new_run.tasks[e.task_id as int].status
                    == old_run.tasks[e.task_id as int].status);
            } else {
                assert(after.runs[e.run_id as int] == before.runs[e.run_id as int]);
            }
        }
        assert forall|p: QueuedTaskView| #[trigger] after.in_flight.contains(p) implies {
            let rec = after.record(p.run_id, p.task_id);
            rec.status == TaskStatus::Running && p.attempt == attempt_count(rec)
        } by {
            assert(before.in_flight.contains(p));
            assert(before.has_task(p.run_id, p.task_id));
            if p.run_id == run {
                assert(new_run.tasks[p.task_id as int].status
                    == old_run.tasks[p.task_id as int].status);
            } else {
                assert(after.runs[p.run_id as int] == before.runs[p.run_id as int]);
            }
        }
    }
}

/// Expands a task that runs over the items of its list: appends one child
/// per item, lets each child wait for the task, lets every downstream of the
/// task wait for every child, and forgets the depth of those downstreams
/// that wait.
/// Gives the ids of the children, in the order of the items.
pub fn expand<B: Backend>(backend: &mut B, run_id: usize, task: &Task,
    items: &Vec<Json>) -> (children:
    Vec<usize>)
    requires
        old(backend).inv(),
        engine_inv(old(backend).state()),
        old(backend).state().has_task(run_id, task.id),
        old(backend).state().status(run_id, task.id) == TaskStatus::Running,
        task@ == old(backend).state().record(run_id, task.id).task,
    ensures
        final(backend).inv(),
        engine_inv(final(backend).state()),
        final(backend).state() == old(backend).state().with_run(
            run_id,
            expanded_run(old(backend).state().runs[run_id as int], task.id, items_view(items@)),
        ),
        children@.len() == items@.len(),
        forall|i: int|
            0 <= i < children@.len()
                ==> #[trigger] children@[i] == old(backend).state().runs[run_id as int].tasks.len()
                + i,
{
    let ghost s0 = backend.state();
    let ghost run0 = s0.runs[run_id as int];
    let ghost n = run0.tasks.len();
    let ghost iv = items_view(items@);
    let ghost none = Seq::<usize>::empty();
    let x = task.id;
    let k = items.len();
    proof {
        backend.lemma_inv_gives_wf();
        assert(run0.wf());
    }
    let downstream = backend.get_downstream(run_id, x);
    let mut options = task.options.duplicate();
    options.trigger_rule = TriggerRule::AllSuccess;
    let mut children: Vec<usize> = Vec::new();
    proof {
        let target = expanding(run0, x, iv, 0, 0, 0, none, none);
        assert(target.tasks =~= run0.tasks);
        assert(target.edges =~= run0.edges);
        assert(s0.with_run(run_id, target).runs =~= s0.runs);
    }
    // the children
    let mut i: usize = 0;
    while i < k
        invariant
            i <= k,
            k == items@.len(),
            iv == items_view(items@),
            none == Seq::<usize>::empty(),
            backend.inv(),
            s0.has_task(run_id, x),
            run0 == s0.runs[run_id as int],
            n == run0.tasks.len(),
            run0.wf(),
            task@ == run0.tasks[x as int].task,
            x == task.id,
            options@ == (TaskOptionsView { trigger_rule: TriggerRule::AllSuccess, ..task@.options }),
            backend.state() == s0.with_run(
                run_id,
                expanding(run0, x, iv, i as nat, 0, 0, none, none),
            ),
            children@.len() == i,
            forall|c: int| 0 <= c < i ==> #[trigger] children@[c] == n + c,
        decreases k - i,
    {
        let ghost cur = backend.state();
        proof {
            assert(run0.tasks[x as int].task.options.max_attempts >= 1);
        }
        let child = backend.append_new_task_and_set_status_to_pending(
            run_id,
            task.name.as_str(),
            task.function.as_str(),
            &items[i],
            &options,
            false,
            true,
            false,
            task.use_trigger_params,
        );
        children.push(child);
        proof {
            let next = backend.state();
            let target = expanding(run0, x, iv, (i + 1) as nat, 0, 0, none, none);
            let prior = expanding(run0, x, iv, i as nat, 0, 0, none, none);
            assert(child == n + i);
            assert(iv[i as int] == items@[i as int]@);
            assert(next.runs[run_id as int].tasks =~= target.tasks);
            assert(next.runs[run_id as int].edges =~= target.edges);
            assert(next.runs[run_id as int] == target);
            assert(next.runs =~= s0.with_run(run_id, target).runs);
        }
        i += 1;
    }
    // each child waits for the task
    let mut b: usize = 0;
    while b < k
        invariant
            b <= k,
            k == items@.len(),
            iv == items_view(items@),
            none == Seq::<usize>::empty(),
            backend.inv(),
            s0.has_task(run_id, x),
            run0 == s0.runs[run_id as int],
            n == run0.tasks.len(),
            run0.wf(),
            children@.len() == k,
            forall|c: int| 0 <= c < k ==> #[trigger] children@[c] == n + c,
            backend.state() == s0.with_run(
                run_id,
                expanding(run0, x, iv, k as nat, b as nat, 0, none, none),
            ),
        decreases k - b,
    {
        let child = children[b];
        backend.insert_edge(run_id, (x, child));
        proof {
            let next = backend.state();
            let target = expanding(run0, x, iv, k as nat, (b + 1) as nat, 0, none, none);
            assert(next.runs[run_id as int].tasks =~= target.tasks);
            assert(next.runs[run_id as int].edges =~= target.edges);
            assert(next.runs[run_id as int] == target);
            assert(next.runs =~= s0.with_run(run_id, target).runs);
        }
        b += 1;
    }
    // every downstream of the task waits for each child
    let mut c: usize = 0;
    while c < k
        invariant
            c <= k,
            k == items@.len(),
            iv == items_view(items@),
            none == Seq::<usize>::empty(),
            backend.inv(),
            s0.has_task(run_id, x),
            run0 == s0.runs[run_id as int],
            n == run0.tasks.len(),
            run0.wf(),
            children@.len() == k,
            forall|c: int| 0 <= c < k ==> #[trigger] children@[c] == n + c,
            forall|d: usize| downstream@.contains(d) <==> run0.is_upstream(x, d),
            backend.state() == s0.with_run(
                run_id,
                expanding(run0, x, iv, k as nat, k as nat, c as nat, none, none),
            ),
        decreases k - c,
    {
        let child = children[c];
        let mut j: usize = 0;
        proof {
            assert(downstream@.subrange(0, 0) =~= none);
        }
        while j < downstream.len()
            invariant
                j <= downstream.len(),
                c < k,
                k == items@.len(),
                iv == items_view(items@),
                backend.inv(),
                s0.has_task(run_id, x),
                run0 == s0.runs[run_id as int],
                n == run0.tasks.len(),
                run0.wf(),
                child == n + c,
                forall|d: usize| downstream@.contains(d) <==> run0.is_upstream(x, d),
                backend.state() == s0.with_run(
                    run_id,
                    expanding(
                        run0,
                        x,
                        iv,
                        k as nat,
                        k as nat,
                        c as nat,
                        downstream@.subrange(0, j as int),
                        Seq::<usize>::empty(),
                    ),
                ),
            decreases downstream.len() - j,
        {
            let d = downstream[j];
            let ghost seen = downstream@.subrange(0, j as int);
            let ghost seen_next = downstream@.subrange(0, j + 1);
            proof {
                assert(downstream@.contains(d));
                assert(run0.edges.contains((x, d)));
                assert(seen_next =~= seen.push(d));
                lemma_pushed_contains(seen, d);
            }
            backend.insert_edge(run_id, (child, d));
            proof {
                let next = backend.state();
                let target = expanding(run0, x, iv, k as nat, k as nat, c as nat, seen_next,
                    Seq::<usize>::empty());
                let prior = expanding(run0, x, iv, k as nat, k as nat, c as nat, seen,
                    Seq::<usize>::empty());
                assert(next.runs[run_id as int].tasks =~= target.tasks);
                assert(next.runs[run_id as int].edges == prior.edges.insert((child, d)));
                assert forall|e: (usize, usize)| prior.edges.insert((child, d)).contains(e)
                    == target.edges.contains(e) by {
                    assert(seen_next.contains(e.1) <==> seen.contains(e.1) || e.1 == d);
                }
                assert(next.runs[run_id as int].edges =~= target.edges);
                assert(next.runs[run_id as int] == target);
                assert(next.runs =~= s0.with_run(run_id, target).runs);
            }
            j += 1;
        }
        proof {
            let cur = backend.state();
            let all = downstream@.subrange(0, j as int);
            assert(all =~= downstream@);
            let reached = expanding(run0, x, iv, k as nat, k as nat, c as nat, all, none);
            let target = expanding(run0, x, iv, k as nat, k as nat, (c + 1) as nat, none, none);
            assert(reached.tasks =~= target.tasks);
            assert(reached.edges =~= target.edges);
        }
        c += 1;
    }
    // the depth of the downstreams is to be computed anew
    let mut j: usize = 0;
    proof {
        assert(downstream@.subrange(0, 0) =~= none);
    }
    while j < downstream.len()
        invariant
            j <= downstream.len(),
            k == items@.len(),
            iv == items_view(items@),
            none == Seq::<usize>::empty(),
            backend.inv(),
            s0.has_task(run_id, x),
            run0 == s0.runs[run_id as int],
            n == run0.tasks.len(),
            run0.wf(),
            forall|d: usize| downstream@.contains(d) <==> run0.is_upstream(x, d),
            backend.state() == s0.with_run(
                run_id,
                expanding(
                    run0,
                    x,
                    iv,
                    k as nat,
                    k as nat,
                    k as nat,
                    none,
                    downstream@.subrange(0, j as int),
                ),
            ),
        decreases downstream.len() - j,
    {
        let d = downstream[j];
        let ghost seen = downstream@.subrange(0, j as int);
        let ghost seen_next = downstream@.subrange(0, j + 1);
        proof {
            assert(downstream@.contains(d));
            assert(run0.edges.contains((x, d)));
            assert(seen_next =~= seen.push(d));
            lemma_pushed_contains(seen, d);
        }
        if backend.get_task_status(run_id, d) == TaskStatus::Pending {
            backend.delete_task_depth(run_id, d);
        }
        proof {
            let next = backend.state();
            let target = expanding(run0, x, iv, k as nat, k as nat, k as nat, none, seen_next);
            assert(next.runs[run_id as int].tasks =~= target.tasks);
            assert(next.runs[run_id as int].edges =~= target.edges);
            assert(next.runs[run_id as int] == target);
            assert(next.runs =~= s0.with_run(run_id, target).runs);
        }
        j += 1;
    }
    proof {
        let all = downstream@.subrange(0, j as int);
        assert(all =~= downstream@);
        let reached = expanding(run0, x, iv, k as nat, k as nat, k as nat, none, all);
        let target = expanded_run(run0, x, iv);
        assert(reached.tasks =~= target.tasks);
        assert(reached.edges =~= target.edges);
        backend.lemma_inv_gives_wf();
        lemma_expanded_inv(s0, backend.state(), run_id, x, iv);
    }
    children
}

} // verus!
