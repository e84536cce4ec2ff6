use thepipelinetool::check_timeout::{is_overdue, timeout_result};
use thepipelinetool::cli::{max_threads, thread_count, workers_of};
use thepipelinetool::command::{command_timeout, create_command, split_commands};
use thepipelinetool::json::Json;
use thepipelinetool::keys::{
    decimal_text, depth_key, edges_key, id_from_counter, last_line, log_key, logical_dates_key,
    recent_from, runs_key, task_attempt_key, task_id_key, task_key, task_result_key,
    task_results_key, task_status_key, tasks_key, template_args_key, dependency_keys_key,
};
use thepipelinetool::shared::{depth_of, neighbours, positions_of_task, run_of_date};
use thepipelinetool::task::{Executor, QueuedTask, Task, TaskOptions, TaskResult};
use thepipelinetool::utils::{
    _get_dag_path_by_name, collector, function_name_as_string, get_dags_dir,
    get_pipeline_path_buf_by_name, get_pipelines_dir, get_tpt_executor_command, output_value,
    timed_out, MissingPipeline, TIMEOUT_EXIT_CODE,
};

fn words(all: &[&str]) -> Vec<String> {
    all.iter().map(|w| w.to_string()).collect()
}

#[test]
fn function_names_are_cut_behind_the_last_colon() {
    assert_eq!(function_name_as_string("my_crate::module::produce_data"), "produce_data");
    assert_eq!(function_name_as_string("main::{{closure}}::hi"), "hi");
    assert_eq!(function_name_as_string("plain"), "plain");
    assert_eq!(function_name_as_string("a::{b}"), "b");
    assert_eq!(function_name_as_string("ends::"), "");
    assert_eq!(function_name_as_string(""), "");
}

#[test]
fn defaults_stand_in_for_the_environment() {
    assert_eq!(get_tpt_executor_command(None), "tpt_executor");
    assert_eq!(get_tpt_executor_command(Some("other".to_string())), "other");
    assert_eq!(get_pipelines_dir(None), "./bin");
    assert_eq!(get_pipelines_dir(Some("/srv".to_string())), "/srv");
    assert_eq!(get_dags_dir(None), "./bin");
}

#[test]
fn pipeline_that_is_not_found_is_missing() {
    assert_eq!(get_pipeline_path_buf_by_name("./bin/p", true), Ok("./bin/p"));
    assert_eq!(get_pipeline_path_buf_by_name("./bin/p", false), Err(MissingPipeline));
    assert_eq!(_get_dag_path_by_name("./bin/p", true), Some("./bin/p"));
    assert_eq!(_get_dag_path_by_name("./bin/p", false), None);
}

#[test]
fn exit_code_of_a_timeout() {
    assert_eq!(TIMEOUT_EXIT_CODE, 124);
    assert!(timed_out(Some(124)));
    assert!(!timed_out(Some(0)));
    assert!(!timed_out(Some(1)));
    assert!(!timed_out(None));
}

#[test]
fn output_is_read_as_json_only_where_asked() {
    assert_eq!(output_value("7", Some(Json::Unsigned(7)), true), Json::Unsigned(7));
    assert_eq!(output_value("7", Some(Json::Unsigned(7)), false), Json::text("7"));
    assert_eq!(output_value("hi", None, true), Json::text("hi"));
    assert_eq!(collector(Json::Bool(true)), Json::Bool(true));
}

#[test]
fn commands_are_split_at_the_separators() {
    assert_eq!(
        split_commands(&words(&["sleep", "3", "&&", "echo", "hi"])),
        vec![words(&["sleep", "3"]), words(&["echo", "hi"])]
    );
    assert_eq!(split_commands(&words(&["ls"])), vec![words(&["ls"])]);
    assert_eq!(split_commands(&words(&[])), vec![words(&[])]);
    assert_eq!(
        split_commands(&words(&["&&", "a", "&&", "&&"])),
        vec![words(&[]), words(&["a"]), words(&[]), words(&[])]
    );
}

#[test]
fn launch_of_a_function() {
    let mut timed = create_command("./bin/p", true, "tpt");
    assert_eq!(timed, words(&["timeout"]));
    command_timeout(&mut timed, "./bin/p", true, "2", "tpt", "f");
    assert_eq!(timed, words(&["timeout", "-k", "2", "2", "tpt", "./bin/p", "run", "function", "f"]));

    let mut plain = create_command("./bin/p", false, "tpt");
    command_timeout(&mut plain, "./bin/p", false, "2", "tpt", "f");
    assert_eq!(plain, words(&["tpt", "./bin/p", "run", "function", "f"]));
}

#[test]
fn workers_of_a_local_run() {
    assert_eq!(thread_count("--blocking", 8), Some(1));
    assert_eq!(thread_count("max", 8), Some(7));
    assert_eq!(thread_count("max", 1), Some(1));
    assert_eq!(thread_count("max", 0), Some(1));
    assert_eq!(thread_count("3", 8), Some(3));
    assert_eq!(thread_count("three", 8), None);
    assert_eq!(thread_count("-1", 8), None);
    assert_eq!(max_threads(2), 1);
    assert_eq!(workers_of("12", Some(12), 4), Some(12));
    assert_eq!(workers_of("max", Some(12), 4), Some(3));
}

#[test]
fn names_in_the_store() {
    assert_eq!(decimal_text(0), "0");
    assert_eq!(decimal_text(9), "9");
    assert_eq!(decimal_text(10), "10");
    assert_eq!(decimal_text(1234567890), "1234567890");
    assert_eq!(decimal_text(usize::MAX), usize::MAX.to_string());
    assert_eq!(task_status_key(3, 14), "ts:3:14");
    assert_eq!(task_results_key(3, 14), "trs:3:14");
    assert_eq!(task_result_key(3, 14), "tr:3:14");
    assert_eq!(depth_key(0, 0), "d:0:0");
    assert_eq!(task_key(1, 2), "t:1:2");
    assert_eq!(template_args_key(1, 2), "ta:1:2");
    assert_eq!(dependency_keys_key(1, 2), "dk:1:2");
    assert_eq!(edges_key(12), "e:12");
    assert_eq!(tasks_key(12), "tks:12");
    assert_eq!(task_id_key(12), "ti:12");
    assert_eq!(log_key(1, 2, 3), "l:1:2:3");
    assert_eq!(task_attempt_key(1, 2), "a:1:2");
    assert_eq!(runs_key("etl"), "runs:etl");
    assert_eq!(logical_dates_key("etl", "abc"), "ld:etl:abc");
}

#[test]
fn replies_of_the_store() {
    assert_eq!(id_from_counter(1), Some(0));
    assert_eq!(id_from_counter(8), Some(7));
    assert_eq!(id_from_counter(0), None);
    assert_eq!(last_line(&vec!["last".to_string(), "more".to_string()]), "last");
    assert_eq!(last_line(&vec![]), "null");
    assert_eq!(recent_from(25, 10), 15);
    assert_eq!(recent_from(4, 10), 0);
    let edges = vec![(0, 1), (0, 2), (1, 2)];
    assert_eq!(neighbours(&edges, 0, true), vec![1, 2]);
    assert_eq!(neighbours(&edges, 2, false), vec![0, 1]);
    assert!(neighbours(&edges, 2, true).is_empty());
}

fn queued(run_id: usize, task_id: usize, attempt: usize) -> QueuedTask {
    QueuedTask {
        run_id,
        task_id,
        dag_name: "p".to_string(),
        scheduled_date_for_dag_run: 0,
        attempt,
        queued_date: 10,
    }
}

#[test]
fn members_of_the_queue_that_give_way() {
    let members = vec![queued(0, 1, 1), queued(0, 2, 1), queued(1, 1, 1), queued(0, 1, 2)];
    assert_eq!(positions_of_task(&members, 0, 1), vec![0, 3]);
    assert!(positions_of_task(&members, 2, 2).is_empty());
    assert!(members[0].same_as(&queued(0, 1, 1)));
    assert!(!members[0].same_as(&members[3]));
    assert_eq!(members[1].duplicate(), members[1]);
}

fn task(timeout: Option<u64>) -> Task {
    let mut options = TaskOptions::new();
    options.timeout = timeout;
    options.max_attempts = 2;
    Task {
        id: 4,
        name: "n".to_string(),
        function: "f".to_string(),
        template_args: Json::Null,
        options,
        lazy_expand: false,
        is_dynamic: false,
        is_branch: true,
        use_trigger_params: false,
    }
}

#[test]
fn overdue_only_past_the_timeout() {
    assert!(!is_overdue(None, 0, i64::MAX));
    assert!(!is_overdue(Some(2000), 10, 2010));
    assert!(is_overdue(Some(2000), 10, 2011));
    assert!(is_overdue(Some(0), i64::MIN, i64::MAX));
    assert!(!is_overdue(Some(5), 100, 0));
}

#[test]
fn result_of_a_timeout_is_a_premature_failure() {
    let r = timeout_result(&task(Some(1)), &queued(0, 4, 2));
    assert_eq!(r.task_id, 4);
    assert_eq!(r.attempt, 2);
    assert_eq!(r.max_attempts, 2);
    assert!(!r.success && r.premature_failure && r.is_branch && !r.is_sensor);
    assert_eq!(r.stderr, "timed out");
    assert_eq!((r.started, r.ended), (10, 10));
    assert!(!r.needs_retry());
    assert_eq!(r.duration(), 0);
}

#[test]
fn results_say_whether_to_retry_and_how_long_they_took() {
    let t = task(None);
    let mut r = TaskResult::of_attempt(
        &t,
        &queued(0, 4, 1),
        false,
        Json::Null,
        Json::Null,
        "out".to_string(),
        "err".to_string(),
        1_000,
        4_500,
        None,
    );
    assert!(r.needs_retry());
    assert_eq!(r.duration(), 3_500);
    assert_eq!(r.duplicate(), r);
    r.success = true;
    assert!(!r.needs_retry());
    r.ended = i64::MAX;
    r.started = i64::MIN;
    assert_eq!(r.duration(), u64::MAX);
    r.ended = 0;
    r.started = 5;
    assert_eq!(r.duration(), 0);
    let options = TaskOptions::new();
    assert_eq!(options.max_attempts, 1);
    assert_eq!(options.executor, Executor::Local);
    assert_eq!(options.duplicate(), options);
    assert_eq!(t.duplicate(), t);
}

#[test]
fn json_text_is_read_into_values() {
    use_parse();
}

fn use_parse() {
    let parsed = thepipelinetool::codec::parse_json(r#"{"b": [1, -2, 1.5, "x", null, true], "a": {}}"#).unwrap();
    assert_eq!(
        parsed,
        Json::Object(vec![
            ("a".to_string(), Json::Object(vec![])),
            (
                "b".to_string(),
                Json::Array(vec![
                    Json::Unsigned(1),
                    Json::Signed(-2),
                    Json::Decimal("1.5".to_string()),
                    Json::text("x"),
                    Json::Null,
                    Json::Bool(true),
                ])
            ),
        ])
    );
    assert_eq!(thepipelinetool::codec::parse_json("not json"), None);
    assert_eq!(thepipelinetool::codec::parse_json(""), None);
}

#[test]
fn output_of_a_command_becomes_its_value() {
    let command_output = thepipelinetool::codec::command_output;
    assert_eq!(command_output("hello\n", false), Json::text("hello"));
    assert_eq!(command_output("hello  \n\t", true), Json::text("hello"));
    assert_eq!(command_output("[1, 2]\n", true), Json::Array(vec![Json::Unsigned(1), Json::Unsigned(2)]));
    assert_eq!(command_output("[1, 2]\n", false), Json::text("[1, 2]"));
    assert_eq!(command_output("  7", true), Json::Unsigned(7));
    assert_eq!(command_output("", true), Json::text(""));
}

#[test]
fn white_space_at_the_end_is_cut_as_the_standard_library_cuts_it() {
    for text in ["", " ", "a", " a ", "a \t\r\n", "a\u{a0}\u{3000}\u{2028}", "tab\tin the middle  ", "\u{feff} "] {
        assert_eq!(thepipelinetool::codec::trim_end(text), text.trim_end(), "{text:?}");
    }
    for code in 0..=0x10FFFFu32 {
        if let Some(c) = char::from_u32(code) {
            assert_eq!(thepipelinetool::codec::white_space(c), c.is_whitespace(), "{code:x}");
        }
    }
}

#[test]
fn numbers_are_read_as_the_standard_library_reads_them() {
    let max = usize::MAX.to_string();
    let over = format!("{}0", usize::MAX);
    let mut next = max.clone().into_bytes();
    *next.last_mut().unwrap() += 1;
    let beyond = String::from_utf8(next).unwrap();
    for text in [
        "", "+", "-", "0", "+0", "-0", "007", "+12", "12+", " 12", "12 ", "1_000", "1e3", "0x10",
        "١٢", "99999999999999999999999999", max.as_str(), over.as_str(), beyond.as_str(), "++1",
    ] {
        assert_eq!(thepipelinetool::cli::parse_count(text), text.parse::<usize>().ok(), "{text:?}");
    }
    for n in (0..100_000usize).step_by(7) {
        assert_eq!(thepipelinetool::cli::parse_count(&n.to_string()), Some(n));
    }
}

#[test]
fn digest_of_a_text() {
    assert_eq!(thepipelinetool::utils::digest(""), 7);
    assert_eq!(thepipelinetool::utils::digest("a"), 7 * 1_000_003 + 97);
    assert_eq!(
        thepipelinetool::utils::digest("ab"),
        ((7 * 1_000_003 + 97) as u128 * 1_000_003 + 98) as u64
    );
    assert_ne!(thepipelinetool::utils::digest("ab"), thepipelinetool::utils::digest("ba"));
    let long = "x".repeat(1_000);
    assert!(thepipelinetool::utils::digest(&long) < thepipelinetool::utils::DIGEST_MODULUS);
    assert_eq!(thepipelinetool::utils::digest(&long), thepipelinetool::utils::digest(&long.clone()));
}

#[test]
fn seconds_of_a_timeout() {
    assert_eq!(thepipelinetool::command::timeout_as_secs(0), "0");
    assert_eq!(thepipelinetool::command::timeout_as_secs(1), "1");
    assert_eq!(thepipelinetool::command::timeout_as_secs(2_000), "2");
    assert_eq!(thepipelinetool::command::timeout_as_secs(2_001), "3");
}

#[test]
fn time_at_which_a_put_off_attempt_is_due() {
    use_due_at(0, 0, 0);
    use_due_at(1_000, 500, 1_500);
    use_due_at(-1_000, 500, -500);
    use_due_at(i64::MAX - 1, 5, i64::MAX);
    use_due_at(i64::MIN, u64::MAX, i64::MAX);
    use_due_at(-5, u64::MAX, i64::MAX);
    use_due_at(i64::MIN, i64::MAX as u64 + 10, 9);
}

fn use_due_at(now: i64, delay: u64, expected: i64) {
    assert_eq!(thepipelinetool::report::due_at(now, delay), expected);
}

#[test]
fn downstream_that_a_branch_names() {
    let chosen = thepipelinetool::json::Json::Object(vec![
        ("chosen_task_id".to_string(), thepipelinetool::json::Json::Unsigned(4)),
        ("value".to_string(), thepipelinetool::json::Json::Null),
    ]);
    assert_eq!(thepipelinetool::task::chosen_branch(true, &chosen), Some(4));
    assert_eq!(thepipelinetool::task::chosen_branch(false, &chosen), None);
    assert_eq!(thepipelinetool::task::chosen_branch(true, &thepipelinetool::json::Json::Unsigned(4)), None);
    let other = thepipelinetool::json::Json::Object(vec![(
        "chosen_task_id".to_string(),
        thepipelinetool::json::Json::text("4"),
    )]);
    assert_eq!(thepipelinetool::task::chosen_branch(true, &other), None);
}

#[test]
fn edges_with_and_without_a_cycle() {
    assert!(thepipelinetool::graph::has_no_cycle(&vec![], 0));
    assert!(thepipelinetool::graph::has_no_cycle(&vec![(0, 1), (1, 2), (0, 2)], 3));
    assert!(thepipelinetool::graph::has_no_cycle(&vec![(0, 1), (0, 1)], 2));
    assert!(!thepipelinetool::graph::has_no_cycle(&vec![(0, 1), (1, 2), (2, 0)], 3));
    assert!(!thepipelinetool::graph::has_no_cycle(&vec![(1, 1)], 2));
}

#[test]
fn keys_of_a_pipeline() {
    assert_eq!(thepipelinetool::keys::options_key("p"), "options:p");
    assert_eq!(thepipelinetool::keys::default_tasks_key("p"), "default_tasks:p");
    assert_eq!(thepipelinetool::keys::default_edges_key("p"), "default_edges:p");
    assert_eq!(thepipelinetool::keys::hash_key("p"), "hash:p");
    assert_eq!(thepipelinetool::keys::trigger_params_key(12), "tp:12");
}

#[test]
fn depth_from_edges_and_cached_depths() {
    let edges = vec![(0, 1), (0, 2), (1, 2), (2, 3)];
    let none = vec![None, None, None, None];
    assert_eq!(depth_of(&edges, &none, 0, 4), 0);
    assert_eq!(depth_of(&edges, &none, 1, 4), 1);
    assert_eq!(depth_of(&edges, &none, 2, 4), 2);
    assert_eq!(depth_of(&edges, &none, 3, 4), 3);
    // what is cached is taken as it stands
    let some = vec![None, Some(7), None, None];
    assert_eq!(depth_of(&edges, &some, 1, 4), 7);
    assert_eq!(depth_of(&edges, &some, 2, 4), 8);
    assert_eq!(depth_of(&edges, &vec![Some(usize::MAX), None], 1, 2), usize::MAX);
    // the search climbs no further than it is told to
    assert_eq!(depth_of(&edges, &none, 3, 0), 0);
    assert_eq!(depth_of(&edges, &none, 3, 1), 1);
    // a task that the run does not have
    assert_eq!(depth_of(&edges, &none, 9, 4), 0);
}

#[test]
fn run_of_a_version_and_date() {
    let runs = vec![("h".to_string(), 1), ("g".to_string(), 2), ("h".to_string(), 2), ("h".to_string(), 2)];
    assert_eq!(run_of_date(&runs, "h", 2), Some(2));
    assert_eq!(run_of_date(&runs, "g", 2), Some(1));
    assert_eq!(run_of_date(&runs, "g", 1), None);
    assert_eq!(run_of_date(&vec![], "h", 1), None);
}
