//! Task statuses, trigger rules, and the decision a rule gives over the
//! statuses of a task's upstreams.

use vstd::prelude::*;

verus! {

/// Where a task stands in its lifecycle.
#[derive(Clone, Copy, Debug, PartialEq, Eq, Structural)]
pub enum TaskStatus {
    Pending,
    Queued,
    Running,
    Success,
    Failure,
    Retrying,
    Skipped,
}

/// The predicate over upstream statuses that decides whether a task runs.
#[derive(Clone, Copy, Debug, PartialEq, Eq, Structural)]
pub enum TriggerRule {
    AllSuccess,
    AllFailed,
    AllDone,
    AnySuccess,
    AnyFailed,
}

/// What a trigger rule says about a task, given its upstreams' statuses.
#[derive(Clone, Copy, Debug, PartialEq, Eq, Structural)]
pub enum Decision {
    /// The rule is satisfied: the task is to be enqueued.
    Fire,
    /// The rule can no longer be satisfied: the task is to be skipped.
    Skip,
    /// Neither is settled yet.
    Wait,
}

/// Success, Failure and Skipped are the terminal statuses.
pub open spec fn is_terminal(s: TaskStatus) -> bool {
    s == TaskStatus::Success || s == TaskStatus::Failure || s == TaskStatus::Skipped
}

pub open spec fn all_terminal(s: Seq<TaskStatus>) -> bool {
    forall|i: int| 0 <= i < s.len() ==> is_terminal(#[trigger] s[i])
}

pub open spec fn all_are(s: Seq<TaskStatus>, want: TaskStatus) -> bool {
    forall|i: int| 0 <= i < s.len() ==> #[trigger] s[i] == want
}

pub open spec fn any_is(s: Seq<TaskStatus>, want: TaskStatus) -> bool {
    exists|i: int| 0 <= i < s.len() && #[trigger] s[i] == want
}

/// Some upstream has ended in a terminal status other than `want`.
pub open spec fn any_ended_otherwise(s: Seq<TaskStatus>, want: TaskStatus) -> bool {
    exists|i: int| 0 <= i < s.len() && is_terminal(#[trigger] s[i]) && s[i] != want
}

/// The rule holds of these upstream statuses.
pub open spec fn rule_satisfied(rule: TriggerRule, s: Seq<TaskStatus>) -> bool {
    match rule {
        TriggerRule::AllSuccess => all_are(s, TaskStatus::Success),
        TriggerRule::AllFailed => all_are(s, TaskStatus::Failure),
        TriggerRule::AllDone => all_terminal(s),
        TriggerRule::AnySuccess => any_is(s, TaskStatus::Success) && all_terminal(s),
        TriggerRule::AnyFailed => any_is(s, TaskStatus::Failure) && all_terminal(s),
    }
}

/// The statuses that are already terminal rule out that the rule ever holds.
pub open spec fn rule_unsatisfiable(rule: TriggerRule, s: Seq<TaskStatus>) -> bool {
    match rule {
        TriggerRule::AllSuccess => any_ended_otherwise(s, TaskStatus::Success),
        TriggerRule::AllFailed => any_ended_otherwise(s, TaskStatus::Failure),
        TriggerRule::AllDone => false,
        TriggerRule::AnySuccess => all_terminal(s) && !any_is(s, TaskStatus::Success),
        TriggerRule::AnyFailed => all_terminal(s) && !any_is(s, TaskStatus::Failure),
    }
}

pub open spec fn rule_decision(rule: TriggerRule, s: Seq<TaskStatus>) -> Decision {
    if rule_satisfied(rule, s) {
        Decision::Fire
    } else if rule_unsatisfiable(rule, s) {
        Decision::Skip
    } else {
        Decision::Wait
    }
}

/// `later` is what `now` may become: the same upstreams, where every status
/// that is terminal in `now` has stayed as it is.
pub open spec fn may_become(now: Seq<TaskStatus>, later: Seq<TaskStatus>) -> bool {
    &&& later.len() == now.len()
    &&& forall|i: int| 0 <= i < now.len() && is_terminal(#[trigger] now[i]) ==> later[i] == now[i]
}

impl TaskStatus {
    pub fn is_terminal(&self) -> (r: bool)
        ensures
            r == is_terminal(*self),
    {
        match self {
            TaskStatus::Success | TaskStatus::Failure | TaskStatus::Skipped => true,
            _ => false,
        }
    }
}

/// Counts over a prefix of upstream statuses, as `decide` gathers them.
struct Tally {
    all_success: bool,
    all_failed: bool,
    all_done: bool,
    any_success: bool,
    any_failed: bool,
    ended_not_success: bool,
    ended_not_failed: bool,
}

impl Tally {
    spec fn describes(&self, s: Seq<TaskStatus>) -> bool {
        &&& self.all_success == all_are(s, TaskStatus::Success)
        &&& self.all_failed == all_are(s, TaskStatus::Failure)
        &&& self.all_done == all_terminal(s)
        &&& self.any_success == any_is(s, TaskStatus::Success)
        &&& self.any_failed == any_is(s, TaskStatus::Failure)
        &&& self.ended_not_success == any_ended_otherwise(s, TaskStatus::Success)
        &&& self.ended_not_failed == any_ended_otherwise(s, TaskStatus::Failure)
    }
}

/// Evaluates a trigger rule against the statuses of a task's upstreams.
pub fn decide(rule: TriggerRule, upstream: &Vec<TaskStatus>) -> (d: Decision)
    ensures
        d == rule_decision(rule, upstream@),
{
    let mut t = Tally {
        all_success: true,
        all_failed: true,
        all_done: true,
        any_success: false,
        any_failed: false,
        ended_not_success: false,
        ended_not_failed: false,
    };
    let mut i: usize = 0;
    while i < upstream.len()
        invariant
            i <= upstream.len(),
            t.describes(upstream@.subrange(0, i as int)),
        decreases upstream.len() - i,
    {
        let s = upstream[i];
        let ghost before = upstream@.subrange(0, i as int);
        let ghost after = upstream@.subrange(0, i + 1);
        proof {
            assert(after.len() == i + 1);
            assert(after[i as int] == s);
            assert(forall|k: int| 0 <= k < i ==> before[k] == after[k]);
        }
        let ended = s.is_terminal();
        t = Tally {
            all_success: t.all_success && s == TaskStatus::Success,
            all_failed: t.all_failed && s == TaskStatus::Failure,
            all_done: t.all_done && ended,
            any_success: t.any_success || s == TaskStatus::Success,
            any_failed: t.any_failed || s == TaskStatus::Failure,
            ended_not_success: t.ended_not_success || (ended && s != TaskStatus::Success),
            ended_not_failed: t.ended_not_failed || (ended && s != TaskStatus::Failure),
        };
        proof {
            lemma_tally_step(before, after, s);
        }
        i += 1;
    }
    proof {
        assert(upstream@.subrange(0, i as int) =~= upstream@);
    }
    let satisfied = match rule {
        TriggerRule::AllSuccess => t.all_success,
        TriggerRule::AllFailed => t.all_failed,
        TriggerRule::AllDone => t.all_done,
        TriggerRule::AnySuccess => t.any_success && t.all_done,
        TriggerRule::AnyFailed => t.any_failed && t.all_done,
    };
    let unsatisfiable = match rule {
        TriggerRule::AllSuccess => t.ended_not_success,
        TriggerRule::AllFailed => t.ended_not_failed,
        TriggerRule::AllDone => false,
        TriggerRule::AnySuccess => t.all_done && !t.any_success,
        TriggerRule::AnyFailed => t.all_done && !t.any_failed,
    };
    if satisfied {
        Decision::Fire
    } else if unsatisfiable {
        Decision::Skip
    } else {
        Decision::Wait
    }
}

proof fn lemma_tally_step(before: Seq<TaskStatus>, after: Seq<TaskStatus>, s: TaskStatus)
    requires
        after.len() == before.len() + 1,
        after[before.len() as int] == s,
        forall|k: int| 0 <= k < before.len() ==> before[k] == after[k],
    ensures
        forall|w: TaskStatus| all_are(after, w) == (all_are(before, w) && s == w),
        all_terminal(after) == (all_terminal(before) && is_terminal(s)),
        forall|w: TaskStatus| any_is(after, w) == (any_is(before, w) || s == w),
        forall|w: TaskStatus|
            any_ended_otherwise(after, w) == (any_ended_otherwise(before, w) || (is_terminal(s)
                && s != w)),
{
    let n = before.len() as int;
    assert forall|w: TaskStatus| all_are(after, w) == (all_are(before, w) && s == w) by {
        if all_are(after, w) {
            assert(after[n] == w);
            assert forall|k: int| 0 <= k < n implies #[trigger] before[k] == w by {
                assert(after[k] == w);
            }
        }
    }
    if all_terminal(after) {
        assert(is_terminal(after[n]));
        assert forall|k: int| 0 <= k < n implies is_terminal(#[trigger] before[k]) by {
            assert(is_terminal(after[k]));
        }
    }
    assert forall|w: TaskStatus| any_is(after, w) == (any_is(before, w) || s == w) by {
        if any_is(before, w) {
            let k = choose|k: int| 0 <= k < before.len() && #[trigger] before[k] == w;
            assert(after[k] == w);
        }
        if s == w {
            assert(after[n] == w);
        }
    }
    assert forall|w: TaskStatus|
        any_ended_otherwise(after, w) == (any_ended_otherwise(before, w) || (is_terminal(s) && s
            != w)) by {
        if any_ended_otherwise(before, w) {
            let k = choose|k: int|
                0 <= k < before.len() && is_terminal(#[trigger] before[k]) && before[k] != w;
            assert(is_terminal(after[k]) && after[k] != w);
        }
        if is_terminal(s) && s != w {
            assert(is_terminal(after[n]) && after[n] != w);
        }
    }
}

/// Once every upstream has ended, a rule never waits: the task fires exactly
/// when the rule holds of the statuses, and is skipped exactly when it does
/// not.
pub proof fn lemma_settled_rule_fires_or_skips(rule: TriggerRule, s: Seq<TaskStatus>)
    requires
        all_terminal(s),
    ensures
        rule_decision(rule, s) == Decision::Fire <==> rule_satisfied(rule, s),
        rule_decision(rule, s) == Decision::Skip <==> !rule_satisfied(rule, s),
        rule_decision(rule, s) != Decision::Wait,
{
    if !rule_satisfied(rule, s) {
        match rule {
            TriggerRule::AllSuccess => {
                let i = choose|i: int| 0 <= i < s.len() && #[trigger] s[i] != TaskStatus::Success;
                assert(is_terminal(s[i]));
            },
            TriggerRule::AllFailed => {
                let i = choose|i: int| 0 <= i < s.len() && #[trigger] s[i] != TaskStatus::Failure;
                assert(is_terminal(s[i]));
            },
            _ => {},
        }
    }
}

/// A task is skipped exactly when its rule has become unsatisfiable: whatever
/// the upstreams that are still open end in, the rule will not hold.
pub proof fn lemma_skip_iff_never_satisfied(rule: TriggerRule, s: Seq<TaskStatus>)
    ensures
        rule_decision(rule, s) == Decision::Skip <==> (forall|later: Seq<TaskStatus>|
            #[trigger] may_become(s, later) && all_terminal(later)
                ==> !rule_satisfied(rule, later)),
{
    let never = forall|later: Seq<TaskStatus>|
        #[trigger] may_become(s, later) && all_terminal(later) ==> !rule_satisfied(rule, later);
    if rule_decision(rule, s) == Decision::Skip {
        assert forall|later: Seq<TaskStatus>| #[trigger]
            may_become(s, later) && all_terminal(later) implies !rule_satisfied(rule, later) by {
            lemma_unsatisfiable_stays(rule, s, later);
        }
    } else {
        let want = match rule {
            TriggerRule::AllFailed | TriggerRule::AnyFailed => TaskStatus::Failure,
            _ => TaskStatus::Success,
        };
        let later = Seq::new(s.len(), |i: int| if is_terminal(s[i]) { s[i] } else { want });
        assert(may_become(s, later));
        assert(all_terminal(later));
        if rule_satisfied(rule, s) {
            lemma_satisfied_stays(rule, s, later);
        } else {
            match rule {
                TriggerRule::AllSuccess | TriggerRule::AllFailed => {
                    assert forall|i: int| 0 <= i < later.len() implies #[trigger] later[i]
                        == want by {
                        if is_terminal(s[i]) && s[i] != want {
                            assert(any_ended_otherwise(s, want));
                        }
                    }
                },
                TriggerRule::AllDone => {},
                TriggerRule::AnySuccess | TriggerRule::AnyFailed => {
                    if any_is(s, want) {
                        let k = choose|k: int| 0 <= k < s.len() && #[trigger] s[k] == want;
                        assert(later[k] == want);
                    } else {
                        let k = choose|k: int| 0 <= k < s.len() && !is_terminal(#[trigger] s[k]);
                        assert(later[k] == want);
                    }
                },
            }
        }
        assert(rule_satisfied(rule, later));
        assert(!never);
    }
}

/// A rule that holds goes on holding, whatever the open upstreams end in.
pub proof fn lemma_satisfied_stays(rule: TriggerRule, s: Seq<TaskStatus>, later: Seq<TaskStatus>)
    requires
        rule_satisfied(rule, s),
        may_become(s, later),
    ensures
        rule_satisfied(rule, later),
        later =~= s,
{
    assert forall|i: int| 0 <= i < s.len() implies is_terminal(#[trigger] s[i]) by {
        match rule {
            TriggerRule::AllSuccess => {
                assert(s[i] == TaskStatus::Success);
            },
            TriggerRule::AllFailed => {
                assert(s[i] == TaskStatus::Failure);
            },
            _ => {},
        }
    }
    assert forall|i: int| 0 <= i < s.len() implies later[i] == s[i] by {
        assert(is_terminal(s[i]));
    }
}

/// A rule that has become unsatisfiable stays so.
pub proof fn lemma_unsatisfiable_stays(
    rule: TriggerRule,
    s: Seq<TaskStatus>,
    later: Seq<TaskStatus>,
)
    requires
        rule_unsatisfiable(rule, s),
        may_become(s, later),
    ensures
        rule_unsatisfiable(rule, later),
        !rule_satisfied(rule, later),
{
    match rule {
        TriggerRule::AllSuccess => {
            let i = choose|i: int|
                0 <= i < s.len() && is_terminal(#[trigger] s[i]) && s[i] != TaskStatus::Success;
            assert(is_terminal(later[i]) && later[i] != TaskStatus::Success);
        },
        TriggerRule::AllFailed => {
            let i = choose|i: int|
                0 <= i < s.len() && is_terminal(#[trigger] s[i]) && s[i] != TaskStatus::Failure;
            assert(is_terminal(later[i]) && later[i] != TaskStatus::Failure);
        },
        TriggerRule::AllDone => {},
        TriggerRule::AnySuccess | TriggerRule::AnyFailed => {
            assert forall|i: int| 0 <= i < s.len() implies later[i] == s[i] by {
                assert(is_terminal(s[i]));
            }
            assert(later =~= s);
        },
    }
}

} // verus!
