use thepipelinetool::status::{decide, Decision, TaskStatus, TriggerRule};

const RULES: [TriggerRule; 5] = [
    TriggerRule::AllSuccess,
    TriggerRule::AllFailed,
    TriggerRule::AllDone,
    TriggerRule::AnySuccess,
    TriggerRule::AnyFailed,
];

const TERMINAL: [TaskStatus; 3] = [TaskStatus::Success, TaskStatus::Failure, TaskStatus::Skipped];

fn satisfied(rule: TriggerRule, upstream: &[TaskStatus]) -> bool {
    let all = |s: TaskStatus| upstream.iter().all(|u| *u == s);
    let any = |s: TaskStatus| upstream.iter().any(|u| *u == s);
    match rule {
        TriggerRule::AllSuccess => all(TaskStatus::Success),
        TriggerRule::AllFailed => all(TaskStatus::Failure),
        TriggerRule::AllDone => true,
        TriggerRule::AnySuccess => any(TaskStatus::Success),
        TriggerRule::AnyFailed => any(TaskStatus::Failure),
    }
}

/// Every combination of three upstreams that have ended.
fn combinations() -> Vec<Vec<TaskStatus>> {
    let mut out = Vec::new();
    for a in TERMINAL {
        for b in TERMINAL {
            for c in TERMINAL {
                out.push(vec![a, b, c]);
            }
        }
    }
    out
}

#[test]
fn all_success_fires_when_all_upstreams_succeeded() {
    let upstream = vec![TaskStatus::Success, TaskStatus::Success];
    assert_eq!(decide(TriggerRule::AllSuccess, &upstream), Decision::Fire);
}

#[test]
fn ended_upstreams_fire_or_skip_as_the_rule_holds() {
    for rule in RULES {
        for upstream in combinations() {
            let expected = if satisfied(rule, &upstream) { Decision::Fire } else { Decision::Skip };
            assert_eq!(decide(rule, &upstream), expected, "{rule:?} over {upstream:?}");
        }
    }
}

#[test]
fn all_success_is_skipped_at_the_first_failure() {
    let upstream = vec![TaskStatus::Running, TaskStatus::Failure, TaskStatus::Pending];
    assert_eq!(decide(TriggerRule::AllSuccess, &upstream), Decision::Skip);
    let upstream = vec![TaskStatus::Running, TaskStatus::Skipped];
    assert_eq!(decide(TriggerRule::AllSuccess, &upstream), Decision::Skip);
}

#[test]
fn all_failed_is_skipped_at_the_first_success() {
    let upstream = vec![TaskStatus::Queued, TaskStatus::Success];
    assert_eq!(decide(TriggerRule::AllFailed, &upstream), Decision::Skip);
}

#[test]
fn open_upstreams_make_the_other_rules_wait() {
    let upstream = vec![TaskStatus::Success, TaskStatus::Running];
    assert_eq!(decide(TriggerRule::AllSuccess, &upstream), Decision::Wait);
    assert_eq!(decide(TriggerRule::AllDone, &upstream), Decision::Wait);
    assert_eq!(decide(TriggerRule::AnySuccess, &upstream), Decision::Wait);
    assert_eq!(decide(TriggerRule::AnyFailed, &upstream), Decision::Wait);
    let upstream = vec![TaskStatus::Failure, TaskStatus::Retrying];
    assert_eq!(decide(TriggerRule::AllFailed, &upstream), Decision::Wait);
    assert_eq!(decide(TriggerRule::AnyFailed, &upstream), Decision::Wait);
}

#[test]
fn no_upstreams_at_all() {
    let none: Vec<TaskStatus> = Vec::new();
    assert_eq!(decide(TriggerRule::AllSuccess, &none), Decision::Fire);
    assert_eq!(decide(TriggerRule::AllFailed, &none), Decision::Fire);
    assert_eq!(decide(TriggerRule::AllDone, &none), Decision::Fire);
    assert_eq!(decide(TriggerRule::AnySuccess, &none), Decision::Skip);
    assert_eq!(decide(TriggerRule::AnyFailed, &none), Decision::Skip);
}

#[test]
fn terminal_statuses() {
    assert!(TaskStatus::Success.is_terminal());
    assert!(TaskStatus::Failure.is_terminal());
    assert!(TaskStatus::Skipped.is_terminal());
    for s in [TaskStatus::Pending, TaskStatus::Queued, TaskStatus::Running, TaskStatus::Retrying] {
        assert!(!s.is_terminal());
    }
}
