use thepipelinetool::backend::Backend;
use thepipelinetool::dag::Dag;
use thepipelinetool::runs::trigger_run;
use thepipelinetool::worker::{work, Tick};
use thepipelinetool::expand::expand;
use thepipelinetool::in_memory_backend::InMemoryBackend;
use thepipelinetool::json::Json;
use thepipelinetool::rules::trigger_decision;
use thepipelinetool::status::{Decision, TaskStatus, TriggerRule};
use thepipelinetool::task::{QueuedTask, TaskOptions, TaskResult};

fn run_with_tasks(count: usize) -> (InMemoryBackend, usize) {
    let mut backend = InMemoryBackend::new(Vec::new(), Vec::new());
    let run = backend.create_new_run("p", "h", 0);
    for i in 0..count {
        let id = backend.append_new_task_and_set_status_to_pending(
            run,
            "task",
            "f",
            &Json::Unsigned(i as u64),
            &TaskOptions::new(),
            false,
            false,
            false,
            false,
        );
        assert_eq!(id, i);
    }
    (backend, run)
}

#[test]
fn new_backend_is_empty() {
    let backend = InMemoryBackend::new(Vec::new(), vec![(0, 1), (0, 1), (1, 2)]);
    assert!(backend.get_default_tasks().is_empty());
    assert_eq!(backend.get_default_edges(), vec![(0, 1), (1, 2)]);
    assert_eq!(backend.get_queue_length(), 0);
    assert_eq!(backend.get_running_tasks_count(), 0);
    assert!(backend.get_temp_queue().is_empty());
    assert!(backend.get_runs("p").is_empty());
    assert_eq!(backend.get_last_run("p"), None);
}

#[test]
fn runs_are_created_once_per_date() {
    let mut backend = InMemoryBackend::new(Vec::new(), Vec::new());
    assert_eq!(backend.create_new_run("p", "h", 5), 0);
    assert_eq!(backend.create_new_run("p", "h", 6), 1);
    assert_eq!(backend.create_new_run("p", "h", 5), 0);
    assert!(backend.contains_logical_date("p", "h", 6));
    assert!(!backend.contains_logical_date("p", "x", 6));
    assert!(backend.get_all_tasks(1).is_empty());
}

#[test]
fn tasks_start_pending_and_keep_what_they_were_given() {
    let (mut backend, run) = run_with_tasks(2);
    assert_eq!(backend.get_task_status(run, 1), TaskStatus::Pending);
    let task = backend.get_task_by_id(run, 1);
    assert_eq!((task.id, task.name.as_str(), task.function.as_str()), (1, "task", "f"));
    assert_eq!(backend.get_template_args(run, 1), Json::Unsigned(1));
    backend.set_template_args(run, 1, &Json::text("new"));
    assert_eq!(backend.get_template_args(run, 1), Json::text("new"));
    assert_eq!(backend.get_template_args(run, 0), Json::Unsigned(0));
    backend.set_task_status(run, 0, TaskStatus::Running);
    assert_eq!(backend.get_task_status(run, 0), TaskStatus::Running);
    assert_eq!(backend.get_task_status(run, 1), TaskStatus::Pending);
}

#[test]
fn edges_are_a_set() {
    let (mut backend, run) = run_with_tasks(3);
    backend.insert_edge(run, (0, 1));
    backend.insert_edge(run, (0, 2));
    backend.insert_edge(run, (0, 1));
    backend.insert_edge(run, (1, 2));
    assert_eq!(backend.get_downstream(run, 0), vec![1, 2]);
    assert_eq!(backend.get_upstream(run, 2), vec![0, 1]);
    assert!(backend.get_upstream(run, 0).is_empty());
    backend.remove_edge(run, (0, 1));
    backend.remove_edge(run, (2, 0));
    assert_eq!(backend.get_downstream(run, 0), vec![2]);
    assert_eq!(backend.get_upstream(run, 1), Vec::<usize>::new());
}

#[test]
fn depth_is_one_more_than_the_deepest_upstream() {
    let (mut backend, run) = run_with_tasks(4);
    backend.insert_edge(run, (0, 1));
    backend.insert_edge(run, (1, 2));
    backend.insert_edge(run, (0, 2));
    assert_eq!(backend.get_task_depth(run, 3), 0);
    assert_eq!(backend.get_task_depth(run, 2), 2);
    assert_eq!(backend.get_task_depth(run, 0), 0);
    // what is cached is kept until it is deleted
    backend.insert_edge(run, (3, 0));
    backend.insert_edge(run, (2, 3));
    assert_eq!(backend.get_task_depth(run, 0), 0);
    backend.delete_task_depth(run, 0);
    assert_eq!(backend.get_task_depth(run, 0), 1);
    backend.set_task_depth(run, 1, 40);
    assert_eq!(backend.get_task_depth(run, 1), 40);
    backend.delete_task_depth(run, 2);
    assert_eq!(backend.get_task_depth(run, 2), 41);
}

#[test]
fn attempt_numbers_rise_by_one() {
    let (mut backend, run) = run_with_tasks(2);
    assert_eq!(backend.get_attempt_by_task_id(run, 0), 1);
    assert_eq!(backend.get_attempt_by_task_id(run, 0), 2);
    assert_eq!(backend.get_attempt_by_task_id(run, 0), 3);
    assert_eq!(backend.get_attempt_by_task_id(run, 1), 1);
    assert_eq!(backend.get_attempt_by_task_id(run, 0), 4);
}

#[test]
fn queue_gives_the_lowest_depth_first_and_holds_a_task_once() {
    let (mut backend, run) = run_with_tasks(3);
    backend.insert_edge(run, (0, 1));
    backend.insert_edge(run, (1, 2));
    backend.enqueue_task(run, 2, 7, "p", 1, 100);
    backend.enqueue_task(run, 0, 7, "p", 1, 101);
    backend.enqueue_task(run, 1, 7, "p", 1, 102);
    backend.enqueue_task(run, 1, 7, "p", 2, 103);
    assert_eq!(backend.get_queue_length(), 3);

    let first = backend.pop_priority_queue().unwrap();
    assert_eq!((first.score, first.queued_task.task_id), (0, 0));
    let second = backend.pop_priority_queue().unwrap();
    assert_eq!((second.score, second.queued_task.task_id, second.queued_task.attempt), (1, 1, 2));
    assert_eq!(second.queued_task.queued_date, 103);
    assert_eq!(backend.get_running_tasks_count(), 2);
    let third = backend.pop_priority_queue().unwrap();
    assert_eq!((third.score, third.queued_task.task_id), (2, 2));
    assert_eq!(third.queued_task.dag_name, "p");
    assert_eq!(third.queued_task.scheduled_date_for_dag_run, 7);
    assert!(backend.pop_priority_queue().is_none());
    assert_eq!(backend.get_queue_length(), 0);

    assert_eq!(backend.get_temp_queue().len(), 3);
    backend.remove_from_temp_queue(&second.queued_task);
    backend.remove_from_temp_queue(&second.queued_task);
    let left: Vec<QueuedTask> = backend.get_temp_queue();
    assert_eq!(left, vec![first.queued_task, third.queued_task]);
}

#[test]
fn results_are_kept_oldest_first() {
    let (mut backend, run) = run_with_tasks(1);
    let task = backend.get_task_by_id(run, 0);
    let queued = QueuedTask {
        run_id: run,
        task_id: 0,
        dag_name: "p".to_string(),
        scheduled_date_for_dag_run: 0,
        attempt: 1,
        queued_date: 0,
    };
    let mut result = TaskResult::of_attempt(
        &task,
        &queued,
        false,
        Json::Null,
        Json::Null,
        String::new(),
        String::new(),
        0,
        1,
        None,
    );
    assert!(backend.get_all_results(run, 0).is_empty());
    backend.insert_task_results(run, &result);
    result.success = true;
    result.attempt = 2;
    backend.insert_task_results(run, &result);
    assert_eq!(backend.get_task_result(run, 0), result);
    let all = backend.get_all_results(run, 0);
    assert_eq!(all.len(), 2);
    assert!(!all[0].success && all[1].success);
}

#[test]
fn rule_is_decided_over_the_upstreams_of_the_run() {
    let (mut backend, run) = run_with_tasks(3);
    backend.insert_edge(run, (0, 2));
    backend.insert_edge(run, (1, 2));
    assert_eq!(trigger_decision(&backend, run, 2), Decision::Wait);
    backend.set_task_status(run, 0, TaskStatus::Success);
    assert_eq!(trigger_decision(&backend, run, 2), Decision::Wait);
    backend.set_task_status(run, 1, TaskStatus::Success);
    assert_eq!(trigger_decision(&backend, run, 2), Decision::Fire);
    backend.set_task_status(run, 1, TaskStatus::Skipped);
    assert_eq!(trigger_decision(&backend, run, 2), Decision::Skip);
    assert_eq!(trigger_decision(&backend, run, 0), Decision::Fire);
    let mut options = TaskOptions::new();
    options.trigger_rule = TriggerRule::AnyFailed;
    let id = backend.append_new_task_and_set_status_to_pending(
        run, "t", "f", &Json::Null, &options, false, false, false, false,
    );
    backend.insert_edge(run, (1, id));
    assert_eq!(trigger_decision(&backend, run, id), Decision::Skip);
}

#[test]
fn expansion_wires_the_children() {
    let mut dag = Dag::new(false);
    let x = dag.add_task("each", Json::Null, TaskOptions::new()).unwrap();
    let d1 = dag.add_task_with_upstream("d1", &x, TaskOptions::new()).unwrap();
    let d2 = dag.add_task_with_upstream("d2", &x, TaskOptions::new()).unwrap();
    let (tasks, edges, _) = dag.export();
    let mut backend = InMemoryBackend::new(tasks, edges);
    let run = trigger_run(&mut backend, "p", "h", 0, None, 0).unwrap().unwrap();
    let task = match work(&mut backend, 1) {
        Tick::Dispatch { task, .. } => task,
        _ => panic!("the task is to be dispatched"),
    };
    let items = vec![Json::text("a"), Json::text("b")];
    let children = expand(&mut backend, run, &task, &items);
    assert_eq!(children, vec![3, 4]);
    for (i, child) in children.iter().enumerate() {
        let made = backend.get_task_by_id(run, *child);
        assert!(made.is_dynamic && !made.lazy_expand);
        assert_eq!(made.template_args, items[i]);
        assert_eq!(made.options.trigger_rule, TriggerRule::AllSuccess);
        assert_eq!(backend.get_upstream(run, *child), vec![x.id]);
        assert_eq!(backend.get_task_status(run, *child), TaskStatus::Pending);
    }
    for down in [d1.id, d2.id] {
        let mut ups = backend.get_upstream(run, down);
        ups.sort();
        assert_eq!(ups, vec![x.id, 3, 4]);
    }
    // nothing at all for an empty list
    let none = expand(&mut backend, run, &task, &Vec::new());
    assert!(none.is_empty());
    assert_eq!(backend.get_all_tasks(run).len(), 5);
}
