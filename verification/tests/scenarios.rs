use thepipelinetool::backend::Backend;
use thepipelinetool::check_timeout::check_timeout;
use thepipelinetool::dag::Dag;
use thepipelinetool::in_memory_backend::InMemoryBackend;
use thepipelinetool::json::Json;
use thepipelinetool::progress::{get_run_status, is_completed, is_idle, RunStatus};
use thepipelinetool::report::{handle_task_result, Outcome};
use thepipelinetool::runs::trigger_run;
use thepipelinetool::status::{TaskStatus, TriggerRule};
use thepipelinetool::task::{Task, TaskOptions, TaskResult};
use thepipelinetool::worker::{resume, work, Tick};

fn backend_of(dag: &Dag) -> InMemoryBackend {
    let (tasks, edges, _) = dag.export();
    InMemoryBackend::new(tasks, edges)
}

fn start(backend: &mut InMemoryBackend, now: i64) -> usize {
    trigger_run(backend, "pipeline", "hash", 0, None, now)
        .expect("the pipeline is well formed")
        .expect("the run is new")
}

/// One step of a worker, which holds an attempt that is not yet due until
/// its time has come.
fn step(backend: &mut InMemoryBackend, clock: &mut i64) -> Tick {
    let mut tick = work(backend, *clock);
    while let Tick::Waiting { queued_task } = tick {
        assert!(queued_task.queued_date > *clock);
        assert_eq!(backend.get_task_status(queued_task.run_id, queued_task.task_id), TaskStatus::Running);
        *clock = queued_task.queued_date;
        tick = resume(backend, queued_task, *clock);
    }
    tick
}

/// Works until the queue is empty, executing each task that is handed out.
fn drain(
    backend: &mut InMemoryBackend,
    clock: &mut i64,
    execute: &dyn Fn(&Task, &Json) -> Result<(Json, Option<usize>), String>,
) {
    loop {
        *clock += 1;
        match step(backend, clock) {
            Tick::Idle => break,
            Tick::Aborted { .. } | Tick::Settled { .. } | Tick::Waiting { .. } => {}
            Tick::Dispatch { queued_task, task, args } => {
                let started = *clock;
                *clock += 1;
                let (success, value, chosen, stderr) = match execute(&task, &args) {
                    Ok((v, c)) => (true, v, c, String::new()),
                    Err(m) => (false, Json::Null, None, m),
                };
                let result = TaskResult::of_attempt(
                    &task,
                    &queued_task,
                    success,
                    value,
                    args,
                    String::new(),
                    stderr,
                    started,
                    *clock,
                    chosen,
                );
                handle_task_result(backend, queued_task.run_id, &result, &queued_task, *clock);
            }
        }
    }
}

fn status(backend: &InMemoryBackend, run: usize, task: usize) -> TaskStatus {
    backend.get_task_status(run, task)
}

#[test]
fn linear_two_task_pipeline() {
    let mut dag = Dag::new(false);
    let a = dag.add_task("a", Json::Null, TaskOptions::new()).unwrap();
    let b = dag.add_task_with_upstream("b", &a, TaskOptions::new()).unwrap();
    let mut backend = backend_of(&dag);
    let mut clock = 100;
    let run = start(&mut backend, clock);

    drain(&mut backend, &mut clock, &|task, args| match task.function.as_str() {
        "a" => Ok((Json::text("world"), None)),
        "b" => {
            assert_eq!(*args, Json::text("world"));
            Ok((args.duplicate(), None))
        }
        other => panic!("no such function {other}"),
    });

    assert_eq!(status(&backend, run, a.id), TaskStatus::Success);
    assert_eq!(status(&backend, run, b.id), TaskStatus::Success);
    let result_a = backend.get_task_result(run, a.id);
    let result_b = backend.get_task_result(run, b.id);
    assert_eq!(result_b.result, Json::text("world"));
    assert!(result_a.ended <= result_b.started);
    assert_eq!(get_run_status(&backend, run), RunStatus::Success);
    assert!(is_completed(&backend, run));
    assert!(is_idle(&backend));
}

#[test]
fn failure_with_any_failed_trigger() {
    let mut dag = Dag::new(false);
    let a = dag.add_task("a", Json::Null, TaskOptions::new()).unwrap();
    let mut options = TaskOptions::new();
    options.trigger_rule = TriggerRule::AnyFailed;
    let b = dag.add_task("b", Json::Null, options).unwrap();
    dag.add_dependency(&a, &b).unwrap();
    let mut backend = backend_of(&dag);
    let mut clock = 0;
    let run = start(&mut backend, clock);

    drain(&mut backend, &mut clock, &|task, _| match task.function.as_str() {
        "a" => Err("raised".to_string()),
        "b" => Ok((Json::text("ok"), None)),
        other => panic!("no such function {other}"),
    });

    assert_eq!(status(&backend, run, a.id), TaskStatus::Failure);
    assert_eq!(status(&backend, run, b.id), TaskStatus::Success);
    assert_eq!(backend.get_task_result(run, b.id).result, Json::text("ok"));
    assert_eq!(get_run_status(&backend, run), RunStatus::Failure);
}

#[test]
fn command_with_timeout() {
    let mut dag = Dag::new(false);
    let mut options = TaskOptions::new();
    options.timeout = Some(2000);
    options.max_attempts = 2;
    let argv = Json::Array(vec![
        Json::text("bash"),
        Json::text("-c"),
        Json::text("sleep 3 && echo hi"),
    ]);
    let a = dag.add_command(argv, options).unwrap();
    let b = dag
        .add_command(Json::Array(vec![Json::text("echo"), a.value()]), TaskOptions::new())
        .unwrap();
    let mut backend = backend_of(&dag);
    let run = start(&mut backend, 1_000);

    // the first attempt is handed out and never comes back
    let first = match work(&mut backend, 1_001) {
        Tick::Dispatch { queued_task, task, .. } => {
            assert!(task.is_command());
            queued_task
        }
        _ => panic!("the command is to be dispatched"),
    };
    assert_eq!(first.attempt, 1);
    assert!(check_timeout(&mut backend, 2_500).is_empty());
    let ended = check_timeout(&mut backend, 3_001);
    assert_eq!(ended.len(), 1);
    assert_eq!(ended[0].0, first);
    assert_eq!(ended[0].1, Outcome::Retrying { attempt: 2, delay: 0 });
    assert_eq!(status(&backend, run, a.id), TaskStatus::Retrying);

    // so is the second
    let second = match work(&mut backend, 3_002) {
        Tick::Dispatch { queued_task, .. } => queued_task,
        _ => panic!("the command is to be dispatched again"),
    };
    assert_eq!(second.attempt, 2);
    let ended = check_timeout(&mut backend, 6_000);
    assert_eq!(ended.len(), 1);
    assert_eq!(ended[0].1, Outcome::Finished { status: TaskStatus::Failure });

    let results = backend.get_all_results(run, a.id);
    assert_eq!(results.len(), 2);
    assert!(results.iter().all(|r| !r.success && r.premature_failure));
    assert_eq!(results[0].stderr, "timed out");
    assert_eq!(status(&backend, run, a.id), TaskStatus::Failure);
    assert_eq!(status(&backend, run, b.id), TaskStatus::Skipped);
    assert!(backend.get_all_results(run, b.id).is_empty());
    assert!(matches!(work(&mut backend, 6_001), Tick::Idle));
    assert_eq!(get_run_status(&backend, run), RunStatus::Failure);
}

#[test]
fn dynamic_expansion() {
    let mut dag = Dag::new(false);
    let expander = dag.add_task("expander", Json::Null, TaskOptions::new()).unwrap();
    let printer = dag.expand("printer", &expander, TaskOptions::new()).unwrap();
    let done = dag.add_task_with_upstream("done", &printer, TaskOptions::new()).unwrap();
    let mut backend = backend_of(&dag);
    let mut clock = 0;
    let run = start(&mut backend, clock);

    drain(&mut backend, &mut clock, &|task, args| match task.function.as_str() {
        "expander" => Ok((
            Json::Array(vec![Json::Unsigned(1), Json::Unsigned(2), Json::Unsigned(3)]),
            None,
        )),
        "printer" => Ok((args.duplicate(), None)),
        "done" => Ok((Json::Null, None)),
        other => panic!("no such function {other}"),
    });

    let tasks = backend.get_all_tasks(run);
    assert_eq!(tasks.len(), 6);
    let children: Vec<&Task> = tasks.iter().filter(|t| t.is_dynamic).collect();
    assert_eq!(children.len(), 3);
    for (i, child) in children.iter().enumerate() {
        assert_eq!(child.function, "printer");
        assert_eq!(child.template_args, Json::Unsigned(i as u64 + 1));
        assert_eq!(backend.get_upstream(run, child.id), vec![printer.id]);
        assert_eq!(status(&backend, run, child.id), TaskStatus::Success);
        assert_eq!(backend.get_task_result(run, child.id).result, Json::Unsigned(i as u64 + 1));
    }
    let mut waits_for = backend.get_upstream(run, done.id);
    waits_for.sort();
    assert_eq!(waits_for, vec![printer.id, 3, 4, 5]);
    for task in 0..6 {
        assert_eq!(status(&backend, run, task), TaskStatus::Success);
    }
    assert_eq!(get_run_status(&backend, run), RunStatus::Success);
}

#[test]
fn branch() {
    let mut dag = Dag::new(false);
    let (branch, then_task, else_task) = dag
        .add_branch("branch", Json::Null, "then_task", "else_task", TaskOptions::new())
        .unwrap();
    let after_else = dag.add_task_with_upstream("after_else", &else_task, TaskOptions::new()).unwrap();
    let after_that = dag.add_task_with_upstream("after_that", &after_else, TaskOptions::new()).unwrap();
    let after_then = dag.add_task_with_upstream("after_then", &then_task, TaskOptions::new()).unwrap();
    let mut backend = backend_of(&dag);
    let mut clock = 0;
    let run = start(&mut backend, clock);

    let chosen = then_task.id;
    drain(&mut backend, &mut clock, &move |task, _| match task.function.as_str() {
        "branch" => Ok((Json::text("value"), Some(chosen))),
        "then_task" | "after_then" => Ok((Json::Null, None)),
        other => panic!("{other} is not to run"),
    });

    assert_eq!(status(&backend, run, branch.id), TaskStatus::Success);
    assert_eq!(status(&backend, run, then_task.id), TaskStatus::Success);
    assert_eq!(status(&backend, run, after_then.id), TaskStatus::Success);
    assert_eq!(status(&backend, run, else_task.id), TaskStatus::Skipped);
    assert_eq!(status(&backend, run, after_else.id), TaskStatus::Skipped);
    assert_eq!(status(&backend, run, after_that.id), TaskStatus::Skipped);
    assert_eq!(backend.get_task_result(run, branch.id).branch_chosen, Some(chosen));
    assert_eq!(get_run_status(&backend, run), RunStatus::Success);
    // what was skipped has the depth cached that it had in the run
    assert_eq!(backend.get_task_depth(run, branch.id), 0);
    assert_eq!(backend.get_task_depth(run, else_task.id), 1);
    assert_eq!(backend.get_task_depth(run, after_else.id), 2);
    assert_eq!(backend.get_task_depth(run, after_that.id), 3);
}

#[test]
fn skipped_tasks_have_their_depth_cached() {
    let mut dag = Dag::new(false);
    let a = dag.add_task("a", Json::Null, TaskOptions::new()).unwrap();
    let b = dag.add_task_with_upstream("b", &a, TaskOptions::new()).unwrap();
    let c = dag.add_task_with_upstream("c", &b, TaskOptions::new()).unwrap();
    let d = dag.add_task("d", Json::Null, TaskOptions::new()).unwrap();
    dag.add_dependency(&a, &d).unwrap();
    dag.add_dependency(&c, &d).unwrap();
    let mut backend = backend_of(&dag);
    let run = start(&mut backend, 0);
    let mut clock = 0;
    drain(&mut backend, &mut clock, &|task, _| match task.function.as_str() {
        "a" => Err("raised".to_string()),
        other => panic!("{other} is not to run"),
    });
    for (task, depth) in [(a.id, 0), (b.id, 1), (c.id, 2), (d.id, 3)] {
        if task != a.id {
            assert_eq!(status(&backend, run, task), TaskStatus::Skipped);
        }
        assert_eq!(backend.get_task_depth(run, task), depth);
    }
    // the same depths as a fresh run finds for the tasks
    let mut fresh = backend_of(&dag);
    let other = start(&mut fresh, 0);
    for (task, depth) in [(d.id, 3), (c.id, 2), (b.id, 1), (a.id, 0)] {
        assert_eq!(fresh.get_task_depth(other, task), depth);
    }
}

#[test]
fn retries_until_attempts_are_used_up() {
    let mut dag = Dag::new(false);
    let mut options = TaskOptions::new();
    options.max_attempts = 3;
    options.retry_delay = 50;
    let a = dag.add_task("a", Json::Null, options).unwrap();
    let mut backend = backend_of(&dag);
    let run = start(&mut backend, 0);

    let mut outcomes = Vec::new();
    let mut clock = 0;
    let mut started = Vec::new();
    for attempt in 1..=3 {
        clock += 1;
        match step(&mut backend, &mut clock) {
            Tick::Dispatch { queued_task, task, args } => {
                let now = clock;
                started.push(now);
                assert_eq!(queued_task.attempt, attempt);
                assert_eq!(backend.get_running_tasks_count(), 1);
                let result = TaskResult::of_attempt(
                    &task,
                    &queued_task,
                    false,
                    Json::Null,
                    args,
                    String::new(),
                    "failed".to_string(),
                    now,
                    now,
                    None,
                );
                outcomes.push(handle_task_result(&mut backend, run, &result, &queued_task, now));
                // a second report of the same attempt is ignored
                assert_eq!(
                    handle_task_result(&mut backend, run, &result, &queued_task, now),
                    Outcome::Ignored
                );
            }
            _ => panic!("the task is to be dispatched"),
        }
    }
    assert_eq!(
        outcomes,
        vec![
            Outcome::Retrying { attempt: 2, delay: 50 },
            Outcome::Retrying { attempt: 3, delay: 50 },
            Outcome::Finished { status: TaskStatus::Failure },
        ]
    );
    // each further attempt was taken up when the delay had passed
    assert_eq!(started, vec![1, 51, 101]);
    assert_eq!(backend.get_all_results(run, a.id).len(), 3);
    assert!(matches!(work(&mut backend, clock + 1), Tick::Idle));
}

#[test]
fn sensor_is_polled_under_the_same_attempt() {
    let mut dag = Dag::new(false);
    let mut options = TaskOptions::new();
    options.is_sensor = true;
    options.retry_delay = 10;
    let s = dag.add_task("sensor", Json::Null, options).unwrap();
    let mut backend = backend_of(&dag);
    let run = start(&mut backend, 0);

    let mut polls = 0;
    let mut clock = 0;
    loop {
        match step(&mut backend, &mut clock) {
            Tick::Dispatch { queued_task, task, args } => {
                assert_eq!(queued_task.attempt, 1);
                assert_eq!(clock, 10 * polls);
                polls += 1;
                let value = if polls < 3 { Json::Bool(false) } else { Json::Bool(true) };
                let result = TaskResult::of_attempt(
                    &task,
                    &queued_task,
                    true,
                    value,
                    args,
                    String::new(),
                    String::new(),
                    clock,
                    clock,
                    None,
                );
                let outcome = handle_task_result(&mut backend, run, &result, &queued_task, clock);
                if polls < 3 {
                    assert_eq!(outcome, Outcome::Polling { delay: 10 });
                    assert_eq!(status(&backend, run, s.id), TaskStatus::Retrying);
                } else {
                    assert_eq!(outcome, Outcome::Finished { status: TaskStatus::Success });
                }
            }
            Tick::Idle => break,
            _ => panic!("the sensor is to be dispatched"),
        }
    }
    assert_eq!(polls, 3);
    assert_eq!(backend.get_all_results(run, s.id).len(), 1);
    assert_eq!(status(&backend, run, s.id), TaskStatus::Success);
}

#[test]
fn missing_field_fails_the_task() {
    let mut dag = Dag::new(false);
    let a = dag.add_task("a", Json::Null, TaskOptions::new()).unwrap();
    let b = dag.add_task("b", a.get("x.y"), TaskOptions::new()).unwrap();
    let c = dag.add_task("c", a.get("x.z"), TaskOptions::new()).unwrap();
    let mut backend = backend_of(&dag);
    let mut clock = 0;
    let run = start(&mut backend, clock);

    drain(&mut backend, &mut clock, &|task, args| match task.function.as_str() {
        "a" => Ok((
            Json::Object(vec![(
                "x".to_string(),
                Json::Object(vec![("y".to_string(), Json::Unsigned(7))]),
            )]),
            None,
        )),
        "b" => {
            assert_eq!(*args, Json::Unsigned(7));
            Ok((Json::Null, None))
        }
        other => panic!("{other} is not to run"),
    });

    assert_eq!(status(&backend, run, b.id), TaskStatus::Success);
    assert_eq!(status(&backend, run, c.id), TaskStatus::Failure);
    let failure = backend.get_task_result(run, c.id);
    assert!(!failure.success);
    assert!(failure.premature_failure);
    assert_eq!(failure.stderr, "the result of an upstream task lacks the referenced field");
}

#[test]
fn depth_orders_the_queue() {
    let mut dag = Dag::new(false);
    let a = dag.add_task("a", Json::Null, TaskOptions::new()).unwrap();
    let b = dag.add_task_with_upstream("b", &a, TaskOptions::new()).unwrap();
    let c = dag.add_task_with_upstream("c", &b, TaskOptions::new()).unwrap();
    let mut backend = backend_of(&dag);
    let mut clock = 0;
    let run = start(&mut backend, clock);
    drain(&mut backend, &mut clock, &|_, _| Ok((Json::Null, None)));
    assert_eq!(backend.get_task_depth(run, a.id), 0);
    assert_eq!(backend.get_task_depth(run, b.id), 1);
    assert_eq!(backend.get_task_depth(run, c.id), 2);
    assert_eq!(backend.get_queue_length(), 0);
}

#[test]
fn cancelled_run_is_skipped_and_late_reports_are_ignored() {
    let mut dag = Dag::new(false);
    let a = dag.add_task("a", Json::Null, TaskOptions::new()).unwrap();
    let b = dag.add_task("b", Json::Null, TaskOptions::new()).unwrap();
    let c = dag.add_task_with_upstream("c", &a, TaskOptions::new()).unwrap();
    let mut backend = backend_of(&dag);
    let run = start(&mut backend, 0);
    let (queued_task, task, args) = match work(&mut backend, 1) {
        Tick::Dispatch { queued_task, task, args } => (queued_task, task, args),
        _ => panic!("a task is to be dispatched"),
    };
    assert_eq!(task.id, a.id);

    thepipelinetool::cancel::cancel_run(&mut backend, run);
    for t in [a.id, b.id, c.id] {
        assert_eq!(status(&backend, run, t), TaskStatus::Skipped);
    }
    assert_eq!(backend.get_running_tasks_count(), 0);
    assert!(is_completed(&backend, run));

    let result = TaskResult::of_attempt(
        &task,
        &queued_task,
        true,
        Json::Null,
        args,
        String::new(),
        String::new(),
        1,
        2,
        None,
    );
    assert_eq!(handle_task_result(&mut backend, run, &result, &queued_task, 2), Outcome::Ignored);
    // what the queue still holds of the run is dropped when it is taken up
    match work(&mut backend, 3) {
        Tick::Aborted { queued_task } => assert_eq!(queued_task.task_id, b.id),
        _ => panic!("the entry is to be dropped"),
    }
    assert!(matches!(work(&mut backend, 4), Tick::Idle));
    assert_eq!(get_run_status(&backend, run), RunStatus::Success);
}

#[test]
fn logs_are_kept_by_attempt() {
    let mut dag = Dag::new(false);
    let a = dag.add_task("a", Json::Null, TaskOptions::new()).unwrap();
    let mut backend = backend_of(&dag);
    let run = start(&mut backend, 0);
    backend.append_log_line(run, a.id, 1, "one");
    backend.append_log_line(run, a.id, 2, "other");
    backend.append_log_line(run, a.id, 1, "two");
    assert_eq!(backend.get_log(run, a.id, 1), "one\ntwo");
    assert_eq!(backend.get_log(run, a.id, 2), "other");
    assert_eq!(backend.get_log(run, a.id, 3), "");
    assert_eq!(backend.take_last_stdout_line(run, a.id, 1), "two");
    assert_eq!(backend.take_last_stdout_line(run, a.id, 1), "one");
    assert_eq!(backend.take_last_stdout_line(run, a.id, 1), "null");
    assert_eq!(backend.get_log(run, a.id, 2), "other");
}

#[test]
fn run_that_has_tasks_is_not_started_again() {
    let mut dag = Dag::new(false);
    let a = dag.add_task("a", Json::Null, TaskOptions::new()).unwrap();
    let mut backend = backend_of(&dag);
    let run = start(&mut backend, 0);
    assert_eq!(get_run_status(&backend, run), RunStatus::Running);
    assert!(!is_completed(&backend, run));
    assert!(!thepipelinetool::progress::is_task_completed(&backend, run, a.id));
    assert_eq!(
        thepipelinetool::runs::enqueue_run(&mut backend, run, "pipeline", 0, None, 1),
        Err(thepipelinetool::runs::RunError::NotEmpty)
    );
    assert_eq!(backend.get_queue_length(), 1);
    assert_eq!(backend.get_all_tasks(run).len(), 1);
}

#[test]
fn attempt_that_is_not_yet_due_is_held_by_the_worker() {
    let mut dag = Dag::new(false);
    let mut options = TaskOptions::new();
    options.max_attempts = 2;
    options.retry_delay = 5_000;
    let a = dag.add_task("a", Json::Null, options).unwrap();
    let mut backend = backend_of(&dag);
    let run = start(&mut backend, 1_000);

    let (queued_task, task, args) = match work(&mut backend, 1_000) {
        Tick::Dispatch { queued_task, task, args } => (queued_task, task, args),
        _ => panic!("the task is to be dispatched"),
    };
    let failed = TaskResult::of_attempt(
        &task,
        &queued_task,
        false,
        Json::Null,
        args,
        String::new(),
        "failed".to_string(),
        1_000,
        1_500,
        None,
    );
    assert_eq!(
        handle_task_result(&mut backend, run, &failed, &queued_task, 1_500),
        Outcome::Retrying { attempt: 2, delay: 5_000 }
    );
    assert_eq!(backend.get_queue_length(), 1);

    // whoever takes the next attempt from the queue holds it until it is due
    let held = match work(&mut backend, 2_000) {
        Tick::Waiting { queued_task } => queued_task,
        _ => panic!("the attempt is not yet due"),
    };
    assert_eq!(held.attempt, 2);
    assert_eq!(held.queued_date, 6_500);
    assert_eq!(status(&backend, run, a.id), TaskStatus::Running);
    assert_eq!(backend.get_queue_length(), 0);
    assert!(matches!(work(&mut backend, 2_001), Tick::Idle));
    // the watchdog counts from the time at which the attempt is due
    assert!(check_timeout(&mut backend, 6_000).is_empty());
    let held = match resume(&mut backend, held, 6_499) {
        Tick::Waiting { queued_task } => queued_task,
        _ => panic!("the attempt is still not due"),
    };
    match resume(&mut backend, held, 6_500) {
        Tick::Dispatch { queued_task, .. } => assert_eq!(queued_task.attempt, 2),
        _ => panic!("the attempt is due"),
    }
}

#[test]
fn attempt_that_is_no_more_in_flight_is_not_taken_up_again() {
    let mut dag = Dag::new(false);
    let a = dag.add_task("a", Json::Null, TaskOptions::new()).unwrap();
    let mut backend = backend_of(&dag);
    let run = start(&mut backend, 0);
    let (queued_task, task, args) = match work(&mut backend, 1) {
        Tick::Dispatch { queued_task, task, args } => (queued_task, task, args),
        _ => panic!("the task is to be dispatched"),
    };
    let done = TaskResult::of_attempt(
        &task,
        &queued_task,
        true,
        Json::Null,
        args,
        String::new(),
        String::new(),
        1,
        2,
        None,
    );
    handle_task_result(&mut backend, run, &done, &queued_task, 2);
    match resume(&mut backend, queued_task, 3) {
        Tick::Aborted { queued_task } => assert_eq!(queued_task.task_id, a.id),
        _ => panic!("the attempt has ended"),
    }
    assert_eq!(status(&backend, run, a.id), TaskStatus::Success);
    assert_eq!(backend.get_all_results(run, a.id).len(), 1);
}

#[test]
fn report_under_another_attempt_number_is_ignored() {
    let mut dag = Dag::new(false);
    let mut options = TaskOptions::new();
    options.max_attempts = 3;
    let a = dag.add_task("a", Json::Null, options).unwrap();
    let mut backend = backend_of(&dag);
    let run = start(&mut backend, 0);
    let (queued_task, task, args) = match work(&mut backend, 1) {
        Tick::Dispatch { queued_task, task, args } => (queued_task, task, args),
        _ => panic!("the task is to be dispatched"),
    };
    let mut stray = TaskResult::of_attempt(
        &task,
        &queued_task,
        true,
        Json::Null,
        args,
        String::new(),
        String::new(),
        1,
        2,
        None,
    );
    stray.attempt = 2;
    assert_eq!(handle_task_result(&mut backend, run, &stray, &queued_task, 2), Outcome::Ignored);
    assert_eq!(status(&backend, run, a.id), TaskStatus::Running);
    assert!(backend.get_all_results(run, a.id).is_empty());
    stray.attempt = 1;
    assert_eq!(
        handle_task_result(&mut backend, run, &stray, &queued_task, 2),
        Outcome::Finished { status: TaskStatus::Success }
    );
    let results = backend.get_all_results(run, a.id);
    assert_eq!(results.len(), 1);
    assert!(results.iter().all(|r| r.task_id == a.id && 1 <= r.attempt && r.attempt <= 3));
}

#[test]
fn watchdog_puts_the_next_attempt_into_the_queue_and_leaves_the_others() {
    let mut dag = Dag::new(false);
    let mut timed = TaskOptions::new();
    timed.timeout = Some(1_000);
    timed.max_attempts = 2;
    timed.retry_delay = 300;
    let a = dag.add_task("a", Json::Null, timed).unwrap();
    let b = dag.add_task("b", Json::Null, TaskOptions::new()).unwrap();
    let c = dag.add_task_with_upstream("c", &a, TaskOptions::new()).unwrap();
    let mut backend = backend_of(&dag);
    let run = start(&mut backend, 0);
    let mut in_flight = Vec::new();
    for now in 1..=2 {
        match work(&mut backend, now) {
            Tick::Dispatch { queued_task, .. } => in_flight.push(queued_task),
            _ => panic!("the task is to be dispatched"),
        }
    }
    assert_eq!(backend.get_running_tasks_count(), 2);

    let ended = check_timeout(&mut backend, 1_500);
    assert_eq!(ended.len(), 1);
    assert_eq!(ended[0].0.task_id, a.id);
    assert_eq!(ended[0].1, Outcome::Retrying { attempt: 2, delay: 300 });
    // the failure is recorded, and the next attempt waits in the queue
    let results = backend.get_all_results(run, a.id);
    assert_eq!(results.len(), 1);
    assert!(results[0].premature_failure && !results[0].success);
    assert_eq!(results[0].attempt, 1);
    assert_eq!(status(&backend, run, a.id), TaskStatus::Retrying);
    assert_eq!(backend.get_queue_length(), 1);
    // the attempt that has not timed out is as it was
    assert_eq!(backend.get_temp_queue().len(), 1);
    assert_eq!(backend.get_temp_queue()[0].task_id, b.id);
    assert_eq!(status(&backend, run, b.id), TaskStatus::Running);
    assert!(backend.get_all_results(run, b.id).is_empty());
    // the downstream of the task that is tried again still waits
    assert_eq!(status(&backend, run, c.id), TaskStatus::Pending);
    match work(&mut backend, 1_800) {
        Tick::Dispatch { queued_task, .. } => {
            assert_eq!(queued_task.task_id, a.id);
            assert_eq!(queued_task.attempt, 2);
            assert_eq!(queued_task.queued_date, 1_800);
        }
        _ => panic!("the second attempt is due"),
    }
}
