//! The cron scheduler: which runs of a pipeline are due, and creating them.

use crate::backend::{Backend, BackendState};
use crate::backend::RunRecord;
use crate::cron::{
    cron_ever, cron_matches, cron_next_after, cron_next_from, ever_matches, is_walkable,
    matches_at, next_after, next_from, on_minute, walkable,
};
use crate::engine::engine_inv;
use crate::engine::queue_entry;
use crate::runs::{
    created_state, defaults_ok, is_source, populating, queue_sourced, run_started, tasks_sourced,
    trigger_run, RunError,
};
use crate::task::{OrderedQueuedTaskView, TaskView};
use vstd::prelude::*;

verus! {

/// When a pipeline is to run.
#[derive(Clone, Debug, PartialEq, Eq)]
pub struct PipelineOptions {
    /// The cron expression, if the pipeline runs on a schedule.
    pub schedule: Option<String>,
    pub start_date: Option<i64>,
    pub end_date: Option<i64>,
    /// Whether the scheduled times between the start date and now are to be
    /// made up for.
    pub catchup: bool,
}

/// Why no schedule is kept for a pipeline.
#[derive(Clone, Copy, Debug, PartialEq, Eq, Structural)]
pub enum SkipReason {
    /// A schedule is kept for the pipeline already.
    AlreadyScheduling,
    /// The pipeline has no schedule.
    NoSchedule,
    /// The schedule is no cron expression whose times can be walked.
    InvalidCron,
    /// The schedule can never match a time.
    NeverMatches,
}

/// What the scheduler does with a pipeline that it finds.
#[derive(Clone, Copy, Debug, PartialEq, Eq, Structural)]
pub enum Plan {
    Skip { reason: SkipReason },
    /// A schedule is to be kept, from this time on.
    Start { from: i64 },
}

/// Where a walk through the times of a schedule stands.
#[derive(Clone, Copy, Debug, PartialEq, Eq, Structural)]
pub enum Cursor {
    /// The next time is the first one not before this one.
    From { time: i64 },
    /// The next time is the first one after this one.
    After { time: i64 },
}

/// How a walk through the due times of a schedule ended.
#[derive(Clone, Copy, Debug, PartialEq, Eq, Structural)]
pub enum Scheduled {
    /// The next time lies ahead: the walk is to be taken up, from the
    /// cursor, when that time has come.
    Sleep { until: i64, cursor: Cursor },
    /// The schedule has no more times, or the end date is passed.
    Done,
    /// A run could not be started.
    Failed { error: RunError },
}

/// The time from which the times of a schedule are walked: the start date
/// where times are to be made up for or it lies ahead, and else now.
pub open spec fn first_date(start_date: Option<i64>, catchup: bool, now: i64) -> i64 {
    match start_date {
        Some(s) => if catchup || s > now {
            s
        } else {
            now
        },
        None => now,
    }
}

pub open spec fn plan_of(already: bool, options: PipelineOptions, now: i64) -> Plan {
    if already {
        Plan::Skip { reason: SkipReason::AlreadyScheduling }
    } else {
        match options.schedule {
            None => Plan::Skip { reason: SkipReason::NoSchedule },
            Some(s) => if !walkable(s@) {
                Plan::Skip { reason: SkipReason::InvalidCron }
            } else {
                match cron_ever(s@) {
                    None => Plan::Skip { reason: SkipReason::InvalidCron },
                    Some(false) => Plan::Skip { reason: SkipReason::NeverMatches },
                    Some(true) => Plan::Start {
                        from: first_date(options.start_date, options.catchup, now),
                    },
                }
            },
        }
    }
}

/// The first time after `time` at which the schedule matches.
pub open spec fn time_after(expr: Seq<char>, time: i64) -> Option<i64> {
    match cron_next_after(expr, time) {
        Some(n) => if n > time {
            Some(n)
        } else {
            None
        },
        None => None,
    }
}

/// The time at which the schedule matches next: from a time on, the first
/// one that is not before it; after a time, the first one that is later.
/// There is none where the times of the text cannot be walked.
pub open spec fn next_time(expr: Seq<char>, cursor: Cursor) -> Option<i64> {
    if !walkable(expr) {
        None
    } else {
        match cursor {
            Cursor::From { time } => match cron_next_from(expr, time) {
                Some(d) => if d >= time {
                    Some(d)
                } else {
                    time_after(expr, time)
                },
                None => None,
            },
            Cursor::After { time } => time_after(expr, time),
        }
    }
}

/// The walk goes on with this time: the schedule matches it, and it is not
/// past the end date.
pub open spec fn in_schedule(expr: Seq<char>, end_date: Option<i64>, date: i64) -> bool {
    walkable(expr) && cron_matches(expr, date) && match end_date {
        Some(e) => date <= e,
        None => true,
    }
}

pub open spec fn cursor_rank(cursor: Cursor) -> nat {
    match cursor {
        Cursor::From { .. } => 1,
        Cursor::After { .. } => 0,
    }
}

pub open spec fn cursor_left(cursor: Cursor, now: i64) -> nat {
    match cursor {
        Cursor::From { .. } => 0,
        Cursor::After { time } => if time <= now {
            (now - time) as nat
        } else {
            0
        },
    }
}

/// The times for which runs are due: those that the schedule gives from the
/// cursor on, in their order, up to now and to the end date.
pub open spec fn due_dates(expr: Seq<char>, cursor: Cursor, end_date: Option<i64>, now: i64) -> Seq<
    i64,
>
    decreases cursor_rank(cursor), cursor_left(cursor, now),
{
    match next_time(expr, cursor) {
        None => Seq::empty(),
        Some(d) => if in_schedule(expr, end_date, d) && d <= now {
            seq![d] + due_dates(expr, Cursor::After { time: d }, end_date, now)
        } else {
            Seq::empty()
        },
    }
}

/// How the walk ends once the runs that are due have been created.
pub open spec fn walk_end(expr: Seq<char>, cursor: Cursor, end_date: Option<i64>,
    now: i64) -> Scheduled
    decreases cursor_rank(cursor), cursor_left(cursor, now),
{
    match next_time(expr, cursor) {
        None => Scheduled::Done,
        Some(d) => if !in_schedule(expr, end_date, d) {
            Scheduled::Done
        } else if d > now {
            Scheduled::Sleep { until: d, cursor }
        } else {
            walk_end(expr, Cursor::After { time: d }, end_date, now)
        },
    }
}

/// The run is as it stands right after it was started from the defaults: it
/// has the default tasks and edges, its tasks without upstreams are Queued
/// for their first attempt, and the others wait.
pub open spec fn started_from(tasks: Seq<TaskView>, edges: Set<(usize, usize)>,
    run: RunRecord) -> bool {
    let made = populating(
        RunRecord::fresh(run.dag_name, run.dag_hash, run.scheduled_date),
        tasks,
        tasks.len(),
        edges,
        None,
    );
    &&& run == RunRecord { tasks: run.tasks, ..made }
    &&& run.tasks.len() == made.tasks.len()
    &&& tasks_sourced(made, run, made.tasks.len())
}

/// `after` is `before` with runs of the pipeline created for those of
/// `dates` that had none: the runs that there were are as they were; the new
/// ones are of the pipeline, each of another date, which is a full minute, in
/// the order of time, and each started from the defaults; and a date has a
/// run where it had one or is one of `dates`.
pub open spec fn scheduled_through(
    before: BackendState,
    after: BackendState,
    dag_name: Seq<char>,
    dag_hash: Seq<char>,
    dates: Seq<i64>,
) -> bool {
    &&& after.runs.len() >= before.runs.len()
    &&& forall|r: int| 0 <= r < before.runs.len() ==> #[trigger] after.runs[r] == before.runs[r]
    &&& forall|r: int|
        before.runs.len() <= r < after.runs.len() ==> {
            &&& (#[trigger] after.runs[r]).dag_name == dag_name
            &&& after.runs[r].dag_hash == dag_hash
            &&& dates.contains(after.runs[r].scheduled_date)
            &&& on_minute(after.runs[r].scheduled_date)
            &&& !before.is_scheduled(dag_name, dag_hash, after.runs[r].scheduled_date)
            &&& started_from(before.default_tasks, before.default_edges, after.runs[r])
        }
    &&& forall|r: int, s: int|
        before.runs.len() <= r < s < after.runs.len() ==> (#[trigger] after.runs[r]).scheduled_date
            < (#[trigger] after.runs[s]).scheduled_date
    &&& forall|d: i64|
        dates.contains(d) ==> after.is_scheduled(dag_name, dag_hash, d)
}

/// One of the dates has no run of the pipeline and version yet.
pub open spec fn lacks_run(state: BackendState, dag_name: Seq<char>, dag_hash: Seq<char>,
    dates: Seq<i64>) -> bool {
    exists|d: i64| dates.contains(d) && !state.is_scheduled(dag_name, dag_hash, d)
}

/// The queue of `after` holds what the queue of `before` held and, for each
/// run that is new in `after`, one entry for each task without upstreams, for
/// its first attempt and under depth 0; and nothing else.
pub open spec fn queued_through(
    before: BackendState,
    after: BackendState,
    dag_name: Seq<char>,
    now: i64,
) -> bool {
    &&& forall|e: OrderedQueuedTaskView| #[trigger]
        before.queue.contains(e) ==> after.queue.contains(e)
    &&& forall|r: usize, t: usize|
        before.runs.len() <= r < after.runs.len() && t < after.runs[r as int].tasks.len()
            && is_source(after.runs[r as int].edges, t) ==> after.queue.contains(
            #[trigger] queue_entry(
                0,
                r,
                t,
                dag_name,
                after.runs[r as int].scheduled_date,
                1,
                now,
            ),
        )
    &&& forall|e: OrderedQueuedTaskView| #[trigger]
        after.queue.contains(e) ==> before.queue.contains(e) || {
            let r = e.queued_task.run_id;
            let t = e.queued_task.task_id;
            &&& before.runs.len() <= r < after.runs.len()
            &&& t < after.runs[r as int].tasks.len()
            &&& is_source(after.runs[r as int].edges, t)
            &&& e == queue_entry(0, r, t, dag_name, after.runs[r as int].scheduled_date, 1, now)
        }
}

/// The time from which the times of a schedule are walked.
pub fn catchup_date(options: &PipelineOptions, now: i64) -> (r: i64)
    ensures
        r == first_date(options.start_date, options.catchup, now),
{
    match options.start_date {
        Some(s) => if options.catchup || s > now {
            s
        } else {
            now
        },
        None => now,
    }
}

/// Decides what the scheduler does with a pipeline that it finds.
pub fn plan_pipeline(already_scheduling: bool, options: &PipelineOptions, now: i64) -> (r: Plan)
    ensures
        r == plan_of(already_scheduling, *options, now),
{
    if already_scheduling {
        return Plan::Skip { reason: SkipReason::AlreadyScheduling };
    }
    match &options.schedule {
        None => Plan::Skip { reason: SkipReason::NoSchedule },
        Some(s) => if !is_walkable(s.as_str()) {
            Plan::Skip { reason: SkipReason::InvalidCron }
        } else {
            match ever_matches(s.as_str()) {
                None => Plan::Skip { reason: SkipReason::InvalidCron },
                Some(false) => Plan::Skip { reason: SkipReason::NeverMatches },
                Some(true) => Plan::Start { from: catchup_date(options, now) },
            }
        },
    }
}

/// The time at which the schedule matches next: from a time on, the first
/// one that is not before it; after a time, the first one that is later. It
/// is a full minute.
pub fn next_scheduled(expr: &str, cursor: Cursor) -> (r: Option<i64>)
    ensures
        r == next_time(expr@, cursor),
        r matches Some(d) ==> on_minute(d),
{
    if !is_walkable(expr) {
        return None;
    }
    match cursor {
        Cursor::From { time } => match next_from(expr, time) {
            Some(d) => if d >= time {
                Some(d)
            } else {
                next_after(expr, time)
            },
            None => None,
        },
        Cursor::After { time } => next_after(expr, time),
    }
}

/// Whether the walk goes on with this time.
fn keeps_on(expr: &str, end_date: Option<i64>, date: i64) -> (r: bool)
    ensures
        r == in_schedule(expr@, end_date, date),
{
    is_walkable(expr) && matches_at(expr, date) && match end_date {
        Some(e) => date <= e,
        None => true,
    }
}

/// The times that the schedule gives next, at most `count` of them, as far
/// as the end date allows.
pub fn upcoming(expr: &str, from: i64, end_date: Option<i64>, count: usize) -> (r: Vec<i64>)
    ensures
        r@.len() <= count,
        forall|i: int| 0 <= i < r@.len() ==> in_schedule(expr@, end_date, #[trigger] r@[i]),
        forall|i: int| 0 <= i < r@.len() ==> on_minute(#[trigger] r@[i]),
        forall|i: int| 0 < i < r@.len()
            ==> next_time(expr@, Cursor::After { time: r@[i - 1] }) == Some(#[trigger] r@[i]),
        r@.len() > 0 ==> next_time(expr@, Cursor::From { time: from }) == Some(r@[0]),
        r@.len() < count ==> match next_time(
            expr@,
            if r@.len() == 0 {
                Cursor::From { time: from }
            } else {
                Cursor::After { time: r@[r@.len() - 1] }
            },
        ) {
            Some(d) => !in_schedule(expr@, end_date, d),
            None => true,
        },
{
    let mut out: Vec<i64> = Vec::new();
    let mut cursor = Cursor::From { time: from };
    while out.len() < count
        invariant
            out@.len() <= count,
            cursor == if out@.len() == 0 {
                Cursor::From { time: from }
            } else {
                Cursor::After { time: out@[out@.len() - 1] }
            },
            forall|i: int| 0 <= i < out@.len() ==> in_schedule(expr@, end_date, #[trigger] out@[i]),
            forall|i: int| 0 <= i < out@.len() ==> on_minute(#[trigger] out@[i]),
            forall|i: int| 0 < i < out@.len()
                ==> next_time(expr@, Cursor::After { time: out@[i - 1] })
                == Some(#[trigger] out@[i]),
            out@.len() > 0 ==> next_time(expr@, Cursor::From { time: from }) == Some(out@[0]),
        decreases count - out.len(),
    {
        let next = match next_scheduled(expr, cursor) {
            None => {
                return out;
            },
            Some(d) => d,
        };
        if !keeps_on(expr, end_date, next) {
            return out;
        }
        out.push(next);
        cursor = Cursor::After { time: next };
    }
    out
}

/// Creates the runs of the pipeline that are due: walks the times of the
/// schedule from the cursor on and, for each that is not after now, starts a
/// run unless the pipeline has one of that date already. Ends at the first
/// time that lies ahead, that the schedule does not match or that is past the
/// end date, or where the schedule has no more times. Fails, and changes
/// nothing, where a due date lacks its run and no run can be started from the
/// defaults. Where every due date has its run already, nothing is changed.
pub fn schedule_due<B: Backend>(
    backend: &mut B,
    dag_name: &str,
    dag_hash: &str,
    expr: &str,
    cursor: Cursor,
    end_date: Option<i64>,
    now: i64,
) -> (r: Scheduled)
    requires
        old(backend).inv(),
        engine_inv(old(backend).state()),
    ensures
        final(backend).inv(),
        engine_inv(final(backend).state()),
        r is Failed <==> !defaults_ok(
            old(backend).state().default_tasks,
            old(backend).state().default_edges,
        ) && lacks_run(
            old(backend).state(),
            dag_name@,
            dag_hash@,
            due_dates(expr@, cursor, end_date, now),
        ),
        !lacks_run(
            old(backend).state(),
            dag_name@,
            dag_hash@,
            due_dates(expr@, cursor, end_date, now),
        ) ==> final(backend).state() == old(backend).state(),
        match r {
            Scheduled::Failed { error } => error == RunError::InvalidDag && final(backend).state()
                == old(backend).state(),
            _ => r == walk_end(expr@, cursor, end_date, now) && scheduled_through(
                old(backend).state(),
                final(backend).state(),
                dag_name@,
                dag_hash@,
                due_dates(expr@, cursor, end_date, now),
            ) && queued_through(old(backend).state(), final(backend).state(), dag_name@, now),
        },
{
    let ghost s0 = backend.state();
    let ghost all = due_dates(expr@, cursor, end_date, now);
    let ghost mut done = Seq::<i64>::empty();
    let mut at = cursor;
    proof {
        assert(done + due_dates(expr@, at, end_date, now) =~= all);
        lemma_scheduled_none(s0, dag_name@, dag_hash@);
    }
    loop
        invariant
            backend.inv(),
            engine_inv(backend.state()),
            s0.wf(),
            backend.state().default_tasks == s0.default_tasks,
            backend.state().default_edges == s0.default_edges,
            all == due_dates(expr@, cursor, end_date, now),
            done + due_dates(expr@, at, end_date, now) == all,
            walk_end(expr@, at, end_date, now) == walk_end(expr@, cursor, end_date, now),
            scheduled_through(s0, backend.state(), dag_name@, dag_hash@, done),
            queued_through(s0, backend.state(), dag_name@, now),
            forall|i: int| 0 <= i < done.len() ==> at is After
                && #[trigger] done[i] <= at->After_time,
            s0 == old(backend).state(),
            !defaults_ok(s0.default_tasks, s0.default_edges) ==> backend.state() == s0,
            !lacks_run(s0, dag_name@, dag_hash@, done) ==> backend.state() == s0,
            !defaults_ok(s0.default_tasks, s0.default_edges) ==> !lacks_run(
                s0,
                dag_name@,
                dag_hash@,
                done,
            ),
        decreases cursor_rank(at), cursor_left(at, now),
    {
        let next = match next_scheduled(expr, at) {
            None => {
                proof {
                    assert(done =~= all);
                }
                return Scheduled::Done;
            },
            Some(d) => d,
        };
        if !keeps_on(expr, end_date, next) {
            proof {
                assert(done =~= all);
            }
            return Scheduled::Done;
        }
        if next > now {
            proof {
                assert(done =~= all);
            }
            return Scheduled::Sleep { until: next, cursor: at };
        }
        let ghost cur = backend.state();
        match trigger_run(backend, dag_name, dag_hash, next, None, now) {
            Err(e) => {
                proof {
                    let rest = due_dates(expr@, Cursor::After { time: next }, end_date, now);
                    assert(due_dates(expr@, at, end_date, now) == seq![next] + rest);
                    assert((done + (seq![next] + rest))[done.len() as int] == next);
                    assert(all.contains(next));
                }
                return Scheduled::Failed { error: e };
            },
            Ok(created) => {
                proof {
                    backend.lemma_inv_gives_wf();
                    if created is Some {
                        let made = created_state(cur, dag_name@, dag_hash@, next);
                        let filled = populating(
                            made.runs[created->0 as int],
                            made.default_tasks,
                            made.default_tasks.len(),
                            made.default_edges,
                            None,
                        );
                        assert(made.runs[created->0 as int] == RunRecord::fresh(dag_name@,
                            dag_hash@, next));
                        assert(made.with_run(created->0, filled).runs[created->0 as int] == filled);
                    }
                    lemma_scheduled_one(s0, cur, backend.state(), dag_name@, dag_hash@, done, next,
                        created);
                    lemma_queued_one(
                        s0,
                        cur,
                        backend.state(),
                        dag_name@,
                        dag_hash@,
                        next,
                        created,
                        now,
                    );
                    let rest = due_dates(expr@, Cursor::After { time: next }, end_date, now);
                    assert(due_dates(expr@, at, end_date, now) == seq![next] + rest);
                    assert(done.push(next) + rest =~= done + (seq![next] + rest));
                }
            },
        }
        proof {
            assert(done.push(next)[done.len() as int] == next);
            assert(done.push(next).contains(next));
            assert forall|d: i64| done.contains(d) implies done.push(next).contains(d) by {
                let i = choose|i: int| 0 <= i < done.len() && done[i] == d;
                assert(done.push(next)[i] == d);
            }
            if !defaults_ok(s0.default_tasks, s0.default_edges) {
                assert forall|d: i64| done.push(next).contains(d) implies s0.is_scheduled(
                    dag_name@,
                    dag_hash@,
                    d,
                ) by {
                    let i = choose|i: int| 0 <= i < done.push(next).len() && done.push(next)[i]
                        == d;
                    if i < done.len() {
                        assert(done.contains(done[i]));
                    }
                }
            }
            done = done.push(next);
        }
        at = Cursor::After { time: next };
    }
}

/// No date yet: the state is as it was.
proof fn lemma_scheduled_none(s0: BackendState, dag_name: Seq<char>, dag_hash: Seq<char>)
    ensures
        scheduled_through(s0, s0, dag_name, dag_hash, Seq::<i64>::empty()),
{
}

/// One more date has been dealt with: a run was started for it, or it had
/// one.
proof fn lemma_scheduled_one(
    s0: BackendState,
    cur: BackendState,
    next: BackendState,
    dag_name: Seq<char>,
    dag_hash: Seq<char>,
    done: Seq<i64>,
    date: i64,
    created: Option<usize>,
)
    requires
        s0.wf(),
        cur.wf(),
        next.wf(),
        scheduled_through(s0, cur, dag_name, dag_hash, done),
        forall|i: int| 0 <= i < done.len() ==> #[trigger] done[i] < date,
        on_minute(date),
        match created {
            None => cur.is_scheduled(dag_name, dag_hash, date) && next == cur,
            Some(run_id) => {
                &&& !cur.is_scheduled(dag_name, dag_hash, date)
                &&& run_id == cur.runs.len()
                &&& next.runs.len() == cur.runs.len() + 1
                &&& forall|r: int| 0 <= r < cur.runs.len()
                    ==> #[trigger] next.runs[r] == cur.runs[r]
                &&& next.runs[run_id as int].dag_name == dag_name
                &&& next.runs[run_id as int].dag_hash == dag_hash
                &&& next.runs[run_id as int].scheduled_date == date
                &&& started_from(s0.default_tasks, s0.default_edges, next.runs[run_id as int])
            },
        },
    ensures
        scheduled_through(s0, next, dag_name, dag_hash, done.push(date)),
{
    let grown = done.push(date);
    assert(grown[done.len() as int] == date);
    assert forall|d: i64| done.contains(d) implies grown.contains(d) by {
        let i = choose|i: int| 0 <= i < done.len() && done[i] == d;
        assert(grown[i] == d);
    }
    match created {
        None => {
            assert forall|d: i64| grown.contains(d) implies
                next.is_scheduled(dag_name, dag_hash, d) by {
                let i = choose|i: int| 0 <= i < grown.len() && grown[i] == d;
                if i < done.len() {
                    assert(done[i] == d);
                    assert(done.contains(d));
                }
            }
        },
        Some(run_id) => {
            assert forall|r: int| 0 <= r < s0.runs.len() implies
                #[trigger] next.runs[r] == s0.runs[r] by {
                assert(cur.runs[r] == s0.runs[r]);
            }
            assert(!s0.is_scheduled(dag_name, dag_hash, date)) by {
                if s0.is_scheduled(dag_name, dag_hash, date) {
                    let r = choose|r: int| s0.run_is(r, dag_name, dag_hash, date);
                    assert(cur.runs[r] == s0.runs[r]);
                    assert(cur.run_is(r, dag_name, dag_hash, date));
                }
            }
            assert forall|r: int| s0.runs.len() <= r < next.runs.len() implies {
                &&& (#[trigger] next.runs[r]).dag_name == dag_name
                &&& next.runs[r].dag_hash == dag_hash
                &&& grown.contains(next.runs[r].scheduled_date)
                &&& on_minute(next.runs[r].scheduled_date)
                &&& !s0.is_scheduled(dag_name, dag_hash, next.runs[r].scheduled_date)
                &&& started_from(s0.default_tasks, s0.default_edges, next.runs[r])
            } by {
                if r < cur.runs.len() {
                    assert(next.runs[r] == cur.runs[r]);
                    assert(done.contains(cur.runs[r].scheduled_date));
                }
            }
            assert forall|r: int, s: int| s0.runs.len() <= r < s < next.runs.len() implies
                (#[trigger] next.runs[r]).scheduled_date < (#[trigger] next.runs[s]).scheduled_date by {
                assert(next.runs[r] == cur.runs[r]);
                if s < cur.runs.len() {
                    assert(next.runs[s] == cur.runs[s]);
                } else {
                    assert(done.contains(cur.runs[r].scheduled_date));
                    let i = choose|i: int| 0 <= i < done.len()
                        && done[i] == cur.runs[r].scheduled_date;
                    assert(done[i] < date);
                }
            }
            assert forall|d: i64| grown.contains(d) implies
                next.is_scheduled(dag_name, dag_hash, d) by {
                let i = choose|i: int| 0 <= i < grown.len() && grown[i] == d;
                if i < done.len() {
                    assert(done[i] == d);
                    assert(done.contains(d));
                    let r = choose|r: int| cur.run_is(r, dag_name, dag_hash, d);
                    assert(next.runs[r] == cur.runs[r]);
                    assert(next.run_is(r, dag_name, dag_hash, d));
                } else {
                    assert(next.run_is(run_id as int, dag_name, dag_hash, date));
                }
            }
        },
    }
}

/// One more date has been dealt with: the queue has gained the entries of
/// the run that was started for it, if one was.
proof fn lemma_queued_one(
    s0: BackendState,
    cur: BackendState,
    next: BackendState,
    dag_name: Seq<char>,
    dag_hash: Seq<char>,
    date: i64,
    created: Option<usize>,
    now: i64,
)
    requires
        queued_through(s0, cur, dag_name, now),
        cur.runs.len() >= s0.runs.len(),
        match created {
            None => next == cur,
            Some(run_id) => run_id == cur.runs.len() && run_started(
                created_state(cur, dag_name, dag_hash, date),
                next,
                run_id,
                dag_name,
                date,
                None,
                now,
            ),
        },
    ensures
        queued_through(s0, next, dag_name, now),
{
    match created {
        None => {},
        Some(run_id) => {
            reveal(queue_sourced);
            let made0 = created_state(cur, dag_name, dag_hash, date);
            let filled = populating(
                made0.runs[run_id as int],
                made0.default_tasks,
                made0.default_tasks.len(),
                made0.default_edges,
                None,
            );
            let made = made0.with_run(run_id, filled);
            assert(made0.runs[run_id as int] == RunRecord::fresh(dag_name, dag_hash, date));
            assert(made.runs[run_id as int] == filled);
            assert(made.queue == cur.queue);
            let new_run = next.runs[run_id as int];
            assert(new_run.edges == filled.edges);
            assert(new_run.scheduled_date == date);
            assert forall|r: int| 0 <= r < cur.runs.len() implies #[trigger] next.runs[r]
                == cur.runs[r] by {
                assert(made.runs[r] == cur.runs[r]);
            }
            assert forall|e: OrderedQueuedTaskView| #[trigger]
                s0.queue.contains(e) implies next.queue.contains(e) by {
                assert(cur.queue.contains(e));
            }
            assert forall|r: usize, t: usize|
                s0.runs.len() <= r < next.runs.len() && t < next.runs[r as int].tasks.len()
                    && is_source(next.runs[r as int].edges, t) implies next.queue.contains(
                #[trigger] queue_entry(
                    0,
                    r,
                    t,
                    dag_name,
                    next.runs[r as int].scheduled_date,
                    1,
                    now,
                ),
            ) by {
                if r < cur.runs.len() {
                    assert(next.runs[r as int] == cur.runs[r as int]);
                    assert(cur.queue.contains(
                        queue_entry(0, r, t, dag_name, cur.runs[r as int].scheduled_date, 1, now),
                    ));
                }
            }
            assert forall|e: OrderedQueuedTaskView| #[trigger]
                next.queue.contains(e) implies s0.queue.contains(e) || {
                let r = e.queued_task.run_id;
                let t = e.queued_task.task_id;
                &&& s0.runs.len() <= r < next.runs.len()
                &&& t < next.runs[r as int].tasks.len()
                &&& is_source(next.runs[r as int].edges, t)
                &&& e == queue_entry(0, r, t, dag_name, next.runs[r as int].scheduled_date, 1, now)
            } by {
                if cur.queue.contains(e) {
                    if !s0.queue.contains(e) {
                        let r = e.queued_task.run_id;
                        assert(next.runs[r as int] == cur.runs[r as int]);
                    }
                }
            }
        },
    }
}

/// Scheduling the same dates once more creates no further run.
pub proof fn lemma_rescheduling_adds_nothing(
    before: BackendState,
    once: BackendState,
    twice: BackendState,
    dag_name: Seq<char>,
    dag_hash: Seq<char>,
    dates: Seq<i64>,
)
    requires
        scheduled_through(before, once, dag_name, dag_hash, dates),
        scheduled_through(once, twice, dag_name, dag_hash, dates),
    ensures
        twice.runs == once.runs,
{
    if twice.runs.len() > once.runs.len() {
        let r = once.runs.len() as int;
        let d = twice.runs[r].scheduled_date;
        assert(dates.contains(d));
        assert(once.is_scheduled(dag_name, dag_hash, d));
    }
    assert(twice.runs =~= once.runs);
}

/// Where every date has its run already, scheduling creates no run and the
/// queue holds what it held.
pub proof fn lemma_scheduled_dates_add_nothing(
    before: BackendState,
    after: BackendState,
    dag_name: Seq<char>,
    dag_hash: Seq<char>,
    dates: Seq<i64>,
    now: i64,
)
    requires
        !lacks_run(before, dag_name, dag_hash, dates),
        scheduled_through(before, after, dag_name, dag_hash, dates),
        queued_through(before, after, dag_name, now),
    ensures
        after.runs == before.runs,
        forall|e: OrderedQueuedTaskView| after.queue.contains(e) <==> before.queue.contains(e),
{
    if after.runs.len() > before.runs.len() {
        let r = before.runs.len() as int;
        assert(dates.contains(after.runs[r].scheduled_date));
    }
    assert(after.runs =~= before.runs);
}

/// A run that was triggered is held: triggering the same pipeline, version
/// and date once more finds it and changes nothing.
pub proof fn lemma_triggered_is_scheduled(
    before: BackendState,
    after: BackendState,
    run: usize,
    dag_name: Seq<char>,
    dag_hash: Seq<char>,
    date: i64,
    now: i64,
)
    requires
        run == before.runs.len(),
        run_started(
            created_state(before, dag_name, dag_hash, date),
            after,
            run,
            dag_name,
            date,
            None,
            now,
        ),
    ensures
        after.is_scheduled(dag_name, dag_hash, date),
        after.runs.len() == before.runs.len() + 1,
{
    let made = created_state(before, dag_name, dag_hash, date);
    assert(made.runs[run as int] == RunRecord::fresh(dag_name, dag_hash, date));
    assert(after.run_is(run as int, dag_name, dag_hash, date));
}

} // verus!
