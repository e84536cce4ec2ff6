use thepipelinetool::backend::Backend;
use thepipelinetool::cron::is_walkable;
use thepipelinetool::dag::Dag;
use thepipelinetool::in_memory_backend::InMemoryBackend;
use thepipelinetool::json::Json;
use thepipelinetool::runs::{trigger_run, RunError};
use thepipelinetool::schedule::{
    catchup_date, next_scheduled, plan_pipeline, schedule_due, upcoming, Cursor, PipelineOptions,
    Plan, Scheduled, SkipReason,
};
use thepipelinetool::status::TaskStatus;
use thepipelinetool::task::{Run, TaskOptions};

const MINUTE: i64 = 60_000;
/// 2024-01-01T00:00:00Z
const MIDNIGHT: i64 = 1_704_067_200_000;

fn backend() -> InMemoryBackend {
    let mut dag = Dag::new(false);
    let a = dag.add_task("a", Json::Null, TaskOptions::new()).unwrap();
    dag.add_task_with_upstream("b", &a, TaskOptions::new()).unwrap();
    let (tasks, edges, _) = dag.export();
    InMemoryBackend::new(tasks, edges)
}

fn options(schedule: Option<&str>, start_date: Option<i64>, catchup: bool) -> PipelineOptions {
    PipelineOptions { schedule: schedule.map(|s| s.to_string()), start_date, end_date: None, catchup }
}

#[test]
fn cron_scheduling_with_catchup() {
    let mut backend = backend();
    let now = MIDNIGHT + 3 * MINUTE + 30_000;
    let opts = options(Some("*/1 * * * *"), Some(now - 3 * MINUTE), true);
    let from = match plan_pipeline(false, &opts, now) {
        Plan::Start { from } => from,
        other => panic!("a schedule is to be kept, not {other:?}"),
    };
    assert_eq!(from, now - 3 * MINUTE);

    let end = schedule_due(&mut backend, "p", "h", "*/1 * * * *", Cursor::From { time: from }, None, now);
    assert_eq!(
        end,
        Scheduled::Sleep {
            until: MIDNIGHT + 4 * MINUTE,
            cursor: Cursor::After { time: MIDNIGHT + 3 * MINUTE }
        }
    );
    assert_eq!(
        backend.get_runs("p"),
        vec![
            Run { run_id: 0, scheduled_date_for_dag_run: MIDNIGHT + MINUTE },
            Run { run_id: 1, scheduled_date_for_dag_run: MIDNIGHT + 2 * MINUTE },
            Run { run_id: 2, scheduled_date_for_dag_run: MIDNIGHT + 3 * MINUTE },
        ]
    );
    // the sources of each run are in the queue
    assert_eq!(backend.get_queue_length(), 3);
    for run in 0..3 {
        assert_eq!(backend.get_task_status(run, 0), TaskStatus::Queued);
        assert_eq!(backend.get_task_status(run, 1), TaskStatus::Pending);
    }

    // scheduling once more creates nothing
    let again = schedule_due(&mut backend, "p", "h", "*/1 * * * *", Cursor::From { time: from }, None, now);
    assert_eq!(again, end);
    assert_eq!(backend.get_runs("p").len(), 3);
    assert_eq!(backend.get_queue_length(), 3);
    assert_eq!(backend.get_last_run("p"), Some(Run { run_id: 2, scheduled_date_for_dag_run: MIDNIGHT + 3 * MINUTE }));
}

#[test]
fn triggering_one_date_twice_gives_one_run() {
    let mut backend = backend();
    assert_eq!(trigger_run(&mut backend, "p", "h", MIDNIGHT, None, MIDNIGHT), Ok(Some(0)));
    assert_eq!(trigger_run(&mut backend, "p", "h", MIDNIGHT, None, MIDNIGHT + 5), Ok(None));
    assert_eq!(trigger_run(&mut backend, "p", "other", MIDNIGHT, None, MIDNIGHT), Ok(Some(1)));
    assert_eq!(trigger_run(&mut backend, "q", "h", MIDNIGHT, None, MIDNIGHT), Ok(Some(2)));
    assert!(backend.contains_logical_date("p", "h", MIDNIGHT));
    assert!(!backend.contains_logical_date("p", "h", MIDNIGHT + 1));
    assert_eq!(backend.get_runs("p").len(), 2);
    assert_eq!(backend.get_pipelines(), vec!["p".to_string(), "q".to_string()]);
}

#[test]
fn trigger_params_are_handed_to_the_task_that_asks() {
    let mut dag = Dag::new(false);
    dag.add_task("a", Json::Object(vec![]), TaskOptions::new()).unwrap();
    let (mut tasks, edges, _) = dag.export();
    tasks[0].use_trigger_params = true;
    let mut backend = InMemoryBackend::new(tasks, edges);
    let params = Json::Object(vec![("who".to_string(), Json::text("me"))]);
    let run = trigger_run(&mut backend, "p", "h", 0, Some(&params), 0).unwrap().unwrap();
    assert_eq!(backend.get_trigger_params(run), Some(params.duplicate()));
    match thepipelinetool::worker::work(&mut backend, 1) {
        thepipelinetool::worker::Tick::Dispatch { args, .. } => {
            assert_eq!(args, Json::Object(vec![("trigger_params".to_string(), params)]));
        }
        _ => panic!("the task is to be dispatched"),
    }
}

#[test]
fn defaults_that_are_not_a_pipeline_are_refused() {
    let mut dag = Dag::new(false);
    dag.add_task("a", Json::Null, TaskOptions::new()).unwrap();
    let (tasks, _, _) = dag.export();
    let mut backend = InMemoryBackend::new(tasks, vec![(0, 4)]);
    assert_eq!(trigger_run(&mut backend, "p", "h", 0, None, 0), Err(RunError::InvalidDag));
    assert!(!backend.contains_logical_date("p", "h", 0));
    assert_eq!(
        schedule_due(&mut backend, "p", "h", "* * * * *", Cursor::From { time: MIDNIGHT }, None, MIDNIGHT),
        Scheduled::Failed { error: RunError::InvalidDag }
    );
}

#[test]
fn end_date_ends_the_walk() {
    let mut backend = backend();
    let now = MIDNIGHT + 10 * MINUTE;
    let end = schedule_due(
        &mut backend,
        "p",
        "h",
        "*/2 * * * *",
        Cursor::From { time: MIDNIGHT },
        Some(MIDNIGHT + 5 * MINUTE),
        now,
    );
    assert_eq!(end, Scheduled::Done);
    let dates: Vec<i64> = backend.get_runs("p").iter().map(|r| r.scheduled_date_for_dag_run).collect();
    assert_eq!(dates, vec![MIDNIGHT, MIDNIGHT + 2 * MINUTE, MIDNIGHT + 4 * MINUTE]);
    assert_eq!(backend.get_recent_runs("p").len(), 3);
}

#[test]
fn pipelines_without_a_usable_schedule_are_skipped() {
    let now = MIDNIGHT;
    assert_eq!(
        plan_pipeline(true, &options(Some("* * * * *"), None, false), now),
        Plan::Skip { reason: SkipReason::AlreadyScheduling }
    );
    assert_eq!(plan_pipeline(false, &options(None, None, false), now), Plan::Skip { reason: SkipReason::NoSchedule });
    assert_eq!(
        plan_pipeline(false, &options(Some("every day"), None, false), now),
        Plan::Skip { reason: SkipReason::InvalidCron }
    );
    assert_eq!(
        plan_pipeline(false, &options(Some("* * 31 11 *"), None, false), now),
        Plan::Skip { reason: SkipReason::NeverMatches }
    );
    assert_eq!(plan_pipeline(false, &options(Some("* * * * *"), None, false), now), Plan::Start { from: now });
}

#[test]
fn walk_starts_at_the_start_date_or_now() {
    let now = MIDNIGHT;
    assert_eq!(catchup_date(&options(None, None, true), now), now);
    assert_eq!(catchup_date(&options(None, Some(now - 5), true), now), now - 5);
    assert_eq!(catchup_date(&options(None, Some(now - 5), false), now), now);
    assert_eq!(catchup_date(&options(None, Some(now + 5), false), now), now + 5);
}

#[test]
fn times_of_a_schedule() {
    let expr = "*/10 * * * *";
    assert_eq!(next_scheduled(expr, Cursor::From { time: MIDNIGHT }), Some(MIDNIGHT));
    assert_eq!(next_scheduled(expr, Cursor::From { time: MIDNIGHT + 1 }), Some(MIDNIGHT + 10 * MINUTE));
    assert_eq!(next_scheduled(expr, Cursor::After { time: MIDNIGHT }), Some(MIDNIGHT + 10 * MINUTE));
    assert_eq!(next_scheduled("nonsense", Cursor::From { time: MIDNIGHT }), None);
    assert_eq!(
        upcoming(expr, MIDNIGHT + MINUTE, None, 3),
        vec![MIDNIGHT + 10 * MINUTE, MIDNIGHT + 20 * MINUTE, MIDNIGHT + 30 * MINUTE]
    );
    assert_eq!(upcoming(expr, MIDNIGHT, Some(MIDNIGHT + 15 * MINUTE), 10), vec![MIDNIGHT, MIDNIGHT + 10 * MINUTE]);
    assert!(upcoming(expr, MIDNIGHT, None, 0).is_empty());
}

#[test]
fn times_that_no_calendar_holds_give_no_next_time() {
    let expr = "* * * * *";
    for time in [i64::MAX, i64::MIN, 8_210_266_876_799_999, -8_334_601_228_800_000] {
        for cursor in [Cursor::From { time }, Cursor::After { time }] {
            if let Some(next) = next_scheduled(expr, cursor) {
                assert!(next >= time);
            }
        }
    }
    assert_eq!(next_scheduled("", Cursor::From { time: MIDNIGHT }), None);
    assert_eq!(
        plan_pipeline(false, &options(Some(""), None, false), MIDNIGHT),
        Plan::Skip { reason: SkipReason::InvalidCron }
    );
    // the last day of February, in a year that has a 29th
    assert_eq!(
        next_scheduled("0 0 29 2 *", Cursor::After { time: MIDNIGHT }),
        Some(MIDNIGHT + 59 * 24 * 60 * MINUTE)
    );
}

#[test]
fn text_with_other_than_ascii_is_no_schedule() {
    let text = "* * * * FR\u{130}";
    assert!(!is_walkable(text));
    let opts = options(Some(text), None, false);
    assert_eq!(plan_pipeline(false, &opts, MIDNIGHT), Plan::Skip { reason: SkipReason::InvalidCron });
    assert_eq!(next_scheduled(text, Cursor::From { time: MIDNIGHT }), None);
    assert_eq!(next_scheduled(text, Cursor::After { time: MIDNIGHT }), None);
    assert!(upcoming(text, MIDNIGHT, None, 3).is_empty());
    let mut backend = backend();
    assert_eq!(
        schedule_due(&mut backend, "p", "h", text, Cursor::From { time: MIDNIGHT }, None, MIDNIGHT),
        Scheduled::Done
    );
    assert!(backend.get_runs("p").is_empty());
}

#[test]
fn day_counted_back_to_a_weekday_is_no_schedule() {
    let text = "0 0 L-1W * *";
    assert!(!is_walkable(text));
    assert!(!is_walkable("0 0 L-12W JAN *"));
    let opts = options(Some(text), None, false);
    assert_eq!(plan_pipeline(false, &opts, MIDNIGHT), Plan::Skip { reason: SkipReason::InvalidCron });
    assert_eq!(next_scheduled(text, Cursor::From { time: MIDNIGHT }), None);
    assert_eq!(next_scheduled(text, Cursor::After { time: MIDNIGHT }), None);
    assert!(upcoming(text, MIDNIGHT, None, 3).is_empty());
    let mut backend = backend();
    assert_eq!(
        schedule_due(&mut backend, "p", "h", text, Cursor::From { time: MIDNIGHT }, None, MIDNIGHT),
        Scheduled::Done
    );
    assert!(backend.get_runs("p").is_empty());
}

#[test]
fn other_days_from_the_end_of_the_month_are_walked() {
    for text in ["0 0 L * *", "0 0 L-1 * *", "0 0 LW * *", "0 0 15W * *", "0 0 * JUL-DEC *", "0 0 * * 5L"] {
        assert!(is_walkable(text), "{text}");
        let opts = options(Some(text), None, false);
        assert_eq!(plan_pipeline(false, &opts, MIDNIGHT), Plan::Start { from: MIDNIGHT }, "{text}");
        assert!(next_scheduled(text, Cursor::After { time: MIDNIGHT }).is_some(), "{text}");
    }
    // 2024-01-30T00:00:00Z is the day before the last of January
    assert_eq!(
        next_scheduled("0 0 L-1 * *", Cursor::From { time: MIDNIGHT }),
        Some(MIDNIGHT + 29 * 24 * 60 * MINUTE)
    );
}

#[test]
fn scheduled_times_are_full_minutes() {
    let from = MIDNIGHT + 12_345;
    let first = next_scheduled("*/1 * * * *", Cursor::From { time: from }).unwrap();
    assert_eq!(first, MIDNIGHT + MINUTE);
    let second = next_scheduled("*/1 * * * *", Cursor::After { time: first + 59_999 }).unwrap();
    assert_eq!(second, MIDNIGHT + 2 * MINUTE);
    for time in upcoming("*/7 3 * * *", from, None, 5) {
        assert_eq!(time % MINUTE, 0);
    }
    let before_the_epoch = next_scheduled("*/1 * * * *", Cursor::After { time: -90_000 }).unwrap();
    assert_eq!(before_the_epoch, -MINUTE);
}

#[test]
fn unfit_defaults_fail_only_where_a_run_is_due() {
    let mut dag = Dag::new(false);
    dag.add_task("a", Json::Null, TaskOptions::new()).unwrap();
    let (tasks, _, _) = dag.export();
    let mut backend = InMemoryBackend::new(tasks, vec![(0, 4)]);
    // no time is due: the walk sleeps, and nothing is looked at
    assert_eq!(
        schedule_due(&mut backend, "p", "h", "* * * * *", Cursor::After { time: MIDNIGHT }, None, MIDNIGHT),
        Scheduled::Sleep { until: MIDNIGHT + MINUTE, cursor: Cursor::After { time: MIDNIGHT } }
    );
    // a time is due and has no run: no run can be made
    assert_eq!(
        schedule_due(&mut backend, "p", "h", "* * * * *", Cursor::From { time: MIDNIGHT }, None, MIDNIGHT),
        Scheduled::Failed { error: RunError::InvalidDag }
    );
    assert!(backend.get_runs("p").is_empty());
    assert_eq!(backend.get_queue_length(), 0);
}

#[test]
fn dates_that_have_their_runs_are_passed_by() {
    let mut backend = backend();
    let now = MIDNIGHT + 2 * MINUTE;
    let first = schedule_due(&mut backend, "p", "h", "* * * * *", Cursor::From { time: MIDNIGHT }, None, now);
    let runs = backend.get_runs("p");
    let queued = backend.get_queue_length();
    assert_eq!(runs.len(), 3);
    let again = schedule_due(&mut backend, "p", "h", "* * * * *", Cursor::From { time: MIDNIGHT }, None, now);
    assert_eq!(first, again);
    assert_eq!(backend.get_runs("p"), runs);
    assert_eq!(backend.get_queue_length(), queued);
}

#[test]
fn defaults_with_a_cycle_are_refused() {
    let mut dag = Dag::new(false);
    dag.add_task("a", Json::Null, TaskOptions::new()).unwrap();
    dag.add_task("b", Json::Null, TaskOptions::new()).unwrap();
    let (tasks, _, _) = dag.export();
    let mut backend = InMemoryBackend::new(tasks, vec![(0, 1), (1, 0)]);
    assert_eq!(trigger_run(&mut backend, "p", "h", 0, None, 0), Err(RunError::InvalidDag));
    assert!(backend.get_runs("p").is_empty());
    let mut dag = Dag::new(false);
    dag.add_task("a", Json::Null, TaskOptions::new()).unwrap();
    let (tasks, _, _) = dag.export();
    let mut backend = InMemoryBackend::new(tasks, vec![(0, 0)]);
    assert_eq!(trigger_run(&mut backend, "p", "h", 0, None, 0), Err(RunError::InvalidDag));
}

#[test]
fn step_over_a_range_that_may_wrap_round_is_no_schedule() {
    for text in [
        "* * * NOV-FEB/2 *",
        "0 0 1 NOV-FEB/2 *",
        "0 0 1 11-2/2 *",
        "0 0 25-5/3 * *",
        "0 0 * * 6-2/2",
        "0 0 * * FRI-MON/2",
        "0 0 * 1,11-2/2 *",
        "0 0 * * 1,6-2/2",
        // left out with them: the ends are no numbers, or the range is of the minutes
        "0 0 * JAN-JUN/2 *",
        "0 0 * * MON-FRI/2",
        "50-10/5 * * * *",
        "*-5/2 * * * *",
        "0 0 * 0001-6/2 *",
    ] {
        assert!(!is_walkable(text), "{text}");
        let opts = options(Some(text), None, false);
        assert_eq!(
            plan_pipeline(false, &opts, MIDNIGHT),
            Plan::Skip { reason: SkipReason::InvalidCron },
            "{text}"
        );
        assert_eq!(next_scheduled(text, Cursor::From { time: MIDNIGHT }), None, "{text}");
        assert_eq!(next_scheduled(text, Cursor::After { time: 1_730_505_600_000 }), None, "{text}");
        assert!(upcoming(text, MIDNIGHT, None, 3).is_empty(), "{text}");
    }
}

#[test]
fn steps_over_ranges_that_rise_are_walked() {
    for text in [
        "0-30/5 * * * *",
        "0 8-18/2 * * *",
        "0 0 1-15/2 * *",
        "0 0 * 1-6/2 *",
        "0 0 * * 2-6/2",
        "0 0 5-5/2 * *",
        "0 0 * 11-2 *",
        "0 0 * NOV-FEB *",
        "0 0 * * FRI-MON",
        "*/15 * * * *",
        "5/10 * * * *",
        "0 0 * 2/3 *",
        "0 0 1-3/1,7-9/2 * *",
    ] {
        assert!(is_walkable(text), "{text}");
        let opts = options(Some(text), None, false);
        assert_eq!(plan_pipeline(false, &opts, MIDNIGHT), Plan::Start { from: MIDNIGHT }, "{text}");
        let times = upcoming(text, MIDNIGHT, None, 5);
        assert_eq!(times.len(), 5, "{text}");
        assert!(times.windows(2).all(|w| w[0] < w[1]), "{text}");
    }
    assert_eq!(
        upcoming("0-30/10 0 1 1 *", MIDNIGHT, None, 5),
        vec![
            MIDNIGHT,
            MIDNIGHT + 10 * MINUTE,
            MIDNIGHT + 20 * MINUTE,
            MIDNIGHT + 30 * MINUTE,
            MIDNIGHT + 366 * 24 * 60 * MINUTE
        ]
    );
}

/// Walks the schedule from each of the times, and says whether it could be.
fn walk_from(text: &str, times: &[i64]) -> bool {
    if !is_walkable(text) {
        assert_eq!(next_scheduled(text, Cursor::From { time: times[0] }), None, "{text}");
        return false;
    }
    let opts = options(Some(text), None, false);
    let plan = plan_pipeline(false, &opts, times[0]);
    for time in times {
        if let Some(next) = next_scheduled(text, Cursor::After { time: *time }) {
            assert!(next > *time && next % MINUTE == 0, "{text}");
            assert!(matches!(plan, Plan::Start { .. }), "{text}");
        }
        if let Some(first) = next_scheduled(text, Cursor::From { time: *time }) {
            assert!(first >= *time && first % MINUTE == 0, "{text}");
        }
        for found in upcoming(text, *time, None, 3) {
            assert!(found >= *time && found % MINUTE == 0, "{text}");
        }
    }
    true
}

const DAYS_OF_MONTH: [&str; 18] = [
    "*", "1", "31", "L", "L-1", "L-30", "LW", "1W", "15W", "30W", "1-15", "25-5", "*/10", "1/5",
    "1-31/7", "29,30,31", "30-31/1", "L-3W",
];
const MONTHS: [&str; 14] = [
    "*", "1", "12", "2", "JAN", "dec", "1-6", "11-2", "NOV-FEB", "*/3", "2/2", "1-12/5",
    "FEB,APR", "11-2/2",
];
const DAYS_OF_WEEK: [&str; 20] = [
    "*", "1", "7", "SUN", "sat", "L", "1L", "7L", "FRIL", "2#1", "6#5", "7#5", "MON-FRI",
    "FRI-MON", "6-2", "*/2", "1-7/3", "2/2", "1,7", "6-2/2",
];
/// 2024-01-01, 2024-02-29, 2023-12-31T23:59:59, 2021-02-28, the epoch, 2024-10-31T12:00
const STARTS: [i64; 6] = [
    1_704_067_200_000,
    1_709_164_800_000,
    1_704_067_199_000,
    1_614_470_400_000,
    0,
    1_730_376_000_000,
];

#[test]
fn days_and_months_of_every_form_are_walked() {
    let mut walked = 0;
    for day in DAYS_OF_MONTH {
        for month in MONTHS {
            if walk_from(&format!("0 0 {day} {month} *"), &STARTS[..3]) {
                walked += 1;
            }
        }
    }
    assert_eq!(walked, 17 * 13);
}

#[test]
fn days_of_the_week_of_every_form_are_walked() {
    let mut walked = 0;
    for day in ["*", "31", "L", "LW", "15W", "25-5", "1/5"] {
        for week_day in DAYS_OF_WEEK {
            for month in ["*", "2", "11-2", "*/3"] {
                if walk_from(&format!("30 12 {day} {month} {week_day}"), &STARTS[3..]) {
                    walked += 1;
                }
            }
        }
    }
    assert_eq!(walked, 7 * 19 * 4);
}

#[test]
fn minutes_and_hours_of_every_form_are_walked() {
    let mut walked = 0;
    for minute in ["*", "0", "59", "*/15", "5/10", "0-30/5", "10-5", "0,30", "1-1/2", "50-10/5"] {
        for hour in ["*", "0", "23", "*/6", "9-17", "22-2", "8-18/2", "20-4/3"] {
            if walk_from(&format!("{minute} {hour} * * *"), &STARTS) {
                walked += 1;
            }
        }
    }
    assert_eq!(walked, 9 * 7);
}

#[test]
fn odd_texts_do_no_harm() {
    let texts = [
        "", " ", "*", "* * * *", "* * * * * *", "*/0 * * * *", "60 * * * *", "* 24 * * *",
        "* * 0 * *", "* * 32 * *", "* * * 13 *", "* * * 0 *", "* * * * 8", "* * * * 0",
        "1,2,3 * * * *", "*,* * * * *", "* * L-31 * *", "* * L-0 * *", "* * 0W * *",
        "* * 32W * *", "* * * * 8L", "* * * * 1#6", "* * * * 1#0", "* * * * #", "* * * * 7#5",
        "\t*\t*\t*\t*\t*", "*  *  *  *  *", "* \t * \t * * *", "* * * * * ", " * * * * *",
        "99999999999999999999 * * * *", "* * * JANUARY *", "* * * JA *", "* * * * MONDAY",
        "-1 * * * *", "1- * * * *", "1-/2 * * * *", "/2 * * * *", "*/ * * * *", "* * ? * *",
        "@daily", "* * * * L", "* * L * L", "* * LW * 1#1", "0 0 1-31/30 * *",
        "0 0 1-31/31 * *", "0 0 * 1-12/11 *", "0 0 * 1-12/12 *", "0 0 * * 1-7/6",
        "0 0 * * 1-7/7", "0 0 31 2 *", "0 0 30 2 *", "0 0 29 2 *", "0 0 31 4,6,9,11 *",
        "0 0 L-30 2 *", "0 0 L-29 2 *", "0 0 31W 2 *", "0 0 29W 2 *", "0 0 1W 2 *",
        "0 0 * * sun-SAT", "0 0 * jan-DEC *", "0 0 31-1 * *", "0 0 * 12-1 *", "0 0 * * 7-1",
        "59 23 31 12 7", "0 0 1 1 1", "* * * * 1,2,3,4,5,6,7", "0,0,0 * * * *", "5-5 * * * *",
        "0 0 L,1 * *", "0 0 1,L * *", "0 0 15W,1 * *", "0 0 * * 1L,2", "0 0 * * 2#1,3",
        "0 0 */31 * *", "0 0 */30 * *", "*/59 */23 */30 */11 */6", "*/60 * * * *",
    ];
    let mut walked = 0;
    for text in texts {
        if walk_from(text, &STARTS[..2]) {
            walked += 1;
        }
    }
    assert!(walked > 0);
}

#[test]
fn every_form_of_day_month_and_day_of_the_week_together() {
    let mut walked = 0;
    for day in DAYS_OF_MONTH {
        for month in MONTHS {
            for week_day in DAYS_OF_WEEK {
                if walk_from(&format!("*/7 3 {day} {month} {week_day}"), &STARTS[1..3]) {
                    walked += 1;
                }
            }
        }
    }
    assert_eq!(walked, 17 * 13 * 19);
}

#[test]
fn walks_from_every_day_around_the_ends_of_months() {
    const DAY: i64 = 24 * 60 * MINUTE;
    // from 2023-12-25 on, over the end of the year and a leap day, and from 2021-02-20 on
    let mut starts: Vec<i64> = (0..72).map(|d| 1_703_462_400_000 + d * DAY + 7 * MINUTE).collect();
    starts.extend((0..14).map(|d| 1_613_779_200_000 + d * DAY));
    let mut walked = 0;
    for day in DAYS_OF_MONTH {
        for week_day in DAYS_OF_WEEK {
            let text = format!("* * {day} * {week_day}");
            if !is_walkable(&text) {
                continue;
            }
            walked += 1;
            for start in &starts {
                let from = next_scheduled(&text, Cursor::From { time: *start });
                let after = next_scheduled(&text, Cursor::After { time: *start });
                assert!(from.is_some() && after.is_some(), "{text}");
                assert!(from.unwrap() >= *start && after.unwrap() > *start, "{text}");
                assert!(from.unwrap() <= after.unwrap(), "{text}");
            }
        }
    }
    assert_eq!(walked, 17 * 19);
}

#[test]
fn times_far_from_now_do_no_harm() {
    for text in ["* * * * *", "0 0 29 2 *", "0 0 L * 7L", "0 0 15W * 2#1", "59 23 31 12 *"] {
        for time in [
            i64::MIN,
            i64::MAX,
            -8_334_601_228_800_000,
            8_210_266_876_799_999,
            8_210_266_876_800_000,
            -62_167_219_200_000,
            253_402_300_799_000,
            -1,
            1,
        ] {
            if let Some(next) = next_scheduled(text, Cursor::From { time }) {
                assert!(next >= time, "{text}");
            }
            if let Some(next) = next_scheduled(text, Cursor::After { time }) {
                assert!(next > time, "{text}");
            }
            upcoming(text, time, Some(time), 2);
        }
    }
}
