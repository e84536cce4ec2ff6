//! The names under which a shared store holds the state of the runs, and
//! what the replies of the store say.
//!
//! Each name is a family and the numbers or names that tell its members
//! apart, joined by colons; numbers are written in decimal digits.

use vstd::prelude::*;
use vstd::string::StringExecFns;

verus! {

pub open spec fn digit(d: nat) -> char {
    if d == 0 {
        '0'
    } else if d == 1 {
        '1'
    } else if d == 2 {
        '2'
    } else if d == 3 {
        '3'
    } else if d == 4 {
        '4'
    } else if d == 5 {
        '5'
    } else if d == 6 {
        '6'
    } else if d == 7 {
        '7'
    } else if d == 8 {
        '8'
    } else {
        '9'
    }
}

/// The number in decimal digits, without leading zeros.
pub open spec fn decimal(n: nat) -> Seq<char>
    decreases n,
{
    if n < 10 {
        seq![digit(n)]
    } else {
        decimal(n / 10).push(digit(n % 10))
    }
}

fn digit_text(d: u8) -> (r: &'static str)
    requires
        d < 10,
    ensures
        r@ == seq![digit(d as nat)],
{
    proof {
        reveal_strlit("0");
        reveal_strlit("1");
        reveal_strlit("2");
        reveal_strlit("3");
        reveal_strlit("4");
        reveal_strlit("5");
        reveal_strlit("6");
        reveal_strlit("7");
        reveal_strlit("8");
        reveal_strlit("9");
    }
    let r = if d == 0 {
        "0"
    } else if d == 1 {
        "1"
    } else if d == 2 {
        "2"
    } else if d == 3 {
        "3"
    } else if d == 4 {
        "4"
    } else if d == 5 {
        "5"
    } else if d == 6 {
        "6"
    } else if d == 7 {
        "7"
    } else if d == 8 {
        "8"
    } else {
        "9"
    };
    proof {
        assert(r@ =~= seq![digit(d as nat)]);
    }
    r
}

/// Adds the number in decimal digits to the text.
pub fn push_decimal(text: &mut String, n: usize)
    ensures
        final(text)@ == old(text)@ + decimal(n as nat),
{
    let ghost start = text@;
    let mut rest: usize = n;
    let mut low: Vec<u8> = Vec::new();
    let ghost mut tail = Seq::<char>::empty();
    while rest >= 10
        invariant
            decimal(n as nat) == decimal(rest as nat) + tail,
            tail.len() == low@.len(),
            forall|k: int| 0 <= k < low@.len() ==> #[trigger] low@[k] < 10,
            forall|k: int| 0 <= k < low@.len()
                ==> #[trigger] tail[k] == digit(low@[low@.len() - 1 - k] as nat),
        decreases rest,
    {
        let d = (rest % 10) as u8;
        proof {
            let next = seq![digit(d as nat)] + tail;
            assert(decimal(rest as nat)
                == decimal((rest / 10) as nat).push(digit((rest % 10) as nat)));
            assert(decimal((rest / 10) as nat).push(digit(d as nat)) + tail =~= decimal((rest / 10) as nat) + next);
            let grown = low@.push(d);
            assert forall|k: int| 0 <= k < grown.len() implies #[trigger] grown[k] < 10 by {
                if k < low@.len() {
                    assert(low@[k] < 10);
                }
            }
            assert forall|k: int| 0 <= k < grown.len() implies
                #[trigger] next[k] == digit(grown[grown.len() - 1 - k] as nat) by {
                if k > 0 {
                    assert(next[k] == tail[k - 1]);
                    assert(grown[grown.len() - 1 - k] == low@[low@.len() - 1 - (k - 1)]);
                } else {
                    assert(grown[grown.len() - 1] == d);
                }
            }
            tail = next;
        }
        low.push(d);
        rest = rest / 10;
    }
    text.append(digit_text(rest as u8));
    let mut i: usize = low.len();
    while i > 0
        invariant
            i <= low@.len(),
            tail.len() == low@.len(),
            forall|k: int| 0 <= k < low@.len() ==> #[trigger] low@[k] < 10,
            forall|k: int| 0 <= k < low@.len()
                ==> #[trigger] tail[k] == digit(low@[low@.len() - 1 - k] as nat),
            text@ == start + seq![digit(rest as nat)] + tail.subrange(0, low@.len() - i),
        decreases i,
    {
        let d = low[i - 1];
        proof {
            let done = low@.len() - i;
            assert(low@[i - 1] < 10);
            assert(tail[done] == digit(low@[low@.len() - 1 - done] as nat));
            assert(tail[done] == digit(d as nat));
            assert(tail.subrange(0, done + 1) =~= tail.subrange(0, done).push(tail[done]));
            assert(start + seq![digit(rest as nat)] + tail.subrange(0, done) + seq![digit(d as nat)]
                =~= start + seq![digit(rest as nat)] + tail.subrange(0, done + 1));
        }
        text.append(digit_text(d));
        i -= 1;
    }
    proof {
        assert(tail.subrange(0, low@.len() as int) =~= tail);
        assert(decimal(rest as nat) =~= seq![digit(rest as nat)]);
        assert(start + seq![digit(rest as nat)] + tail =~= start + (decimal(rest as nat) + tail));
    }
}

/// The number in decimal digits.
pub fn decimal_text(n: usize) -> (r: String)
    ensures
        r@ == decimal(n as nat),
{
    let mut text = String::new();
    push_decimal(&mut text, n);
    proof {
        assert(Seq::<char>::empty() + decimal(n as nat) =~= decimal(n as nat));
    }
    text
}

pub open spec fn colon() -> Seq<char> {
    ":"@
}

/// The name of the member of a family that one number tells apart.
pub open spec fn key1(family: Seq<char>, a: nat) -> Seq<char> {
    family + colon() + decimal(a)
}

/// The name of the member of a family that two numbers tell apart.
pub open spec fn key2(family: Seq<char>, a: nat, b: nat) -> Seq<char> {
    family + colon() + decimal(a) + colon() + decimal(b)
}

/// The name of the member of a family that a name tells apart.
pub open spec fn named_key(family: Seq<char>, name: Seq<char>) -> Seq<char> {
    family + colon() + name
}

fn make_key1(family: &str, a: usize) -> (r: String)
    ensures
        r@ == key1(family@, a as nat),
{
    let mut key = String::from_str(family);
    key.append(":");
    push_decimal(&mut key, a);
    key
}

fn make_key2(family: &str, a: usize, b: usize) -> (r: String)
    ensures
        r@ == key2(family@, a as nat, b as nat),
{
    let mut key = make_key1(family, a);
    key.append(":");
    push_decimal(&mut key, b);
    key
}

/// The status of a task.
pub fn task_status_key(run_id: usize, task_id: usize) -> (r: String)
    ensures
        r@ == key2("ts"@, run_id as nat, task_id as nat),
{
    make_key2("ts", run_id, task_id)
}

/// The list of the results of a task.
pub fn task_results_key(run_id: usize, task_id: usize) -> (r: String)
    ensures
        r@ == key2("trs"@, run_id as nat, task_id as nat),
{
    make_key2("trs", run_id, task_id)
}

/// The latest result of a task.
pub fn task_result_key(run_id: usize, task_id: usize) -> (r: String)
    ensures
        r@ == key2("tr"@, run_id as nat, task_id as nat),
{
    make_key2("tr", run_id, task_id)
}

/// The cached depth of a task.
pub fn depth_key(run_id: usize, task_id: usize) -> (r: String)
    ensures
        r@ == key2("d"@, run_id as nat, task_id as nat),
{
    make_key2("d", run_id, task_id)
}

/// A task.
pub fn task_key(run_id: usize, task_id: usize) -> (r: String)
    ensures
        r@ == key2("t"@, run_id as nat, task_id as nat),
{
    make_key2("t", run_id, task_id)
}

/// The template arguments of a task.
pub fn template_args_key(run_id: usize, task_id: usize) -> (r: String)
    ensures
        r@ == key2("ta"@, run_id as nat, task_id as nat),
{
    make_key2("ta", run_id, task_id)
}

/// The dependency keys of a task.
pub fn dependency_keys_key(run_id: usize, task_id: usize) -> (r: String)
    ensures
        r@ == key2("dk"@, run_id as nat, task_id as nat),
{
    make_key2("dk", run_id, task_id)
}

/// The set of the edges of a run.
pub fn edges_key(run_id: usize) -> (r: String)
    ensures
        r@ == key1("e"@, run_id as nat),
{
    make_key1("e", run_id)
}

/// The set of the tasks of a run.
pub fn tasks_key(run_id: usize) -> (r: String)
    ensures
        r@ == key1("tks"@, run_id as nat),
{
    make_key1("tks", run_id)
}

/// The counter from which the tasks of a run get their ids.
pub fn task_id_key(run_id: usize) -> (r: String)
    ensures
        r@ == key1("ti"@, run_id as nat),
{
    make_key1("ti", run_id)
}

/// The log of an attempt of a task.
pub fn log_key(run_id: usize, task_id: usize, attempt: usize) -> (r: String)
    ensures
        r@ == key2("l"@, run_id as nat, task_id as nat) + colon() + decimal(attempt as nat),
{
    let mut key = make_key2("l", run_id, task_id);
    key.append(":");
    push_decimal(&mut key, attempt);
    key
}

/// The counter of the attempts of a task: one for the task, whether or not
/// it was made by an expansion.
pub fn task_attempt_key(run_id: usize, task_id: usize) -> (r: String)
    ensures
        r@ == key2("a"@, run_id as nat, task_id as nat),
{
    make_key2("a", run_id, task_id)
}

/// The list of the runs of a pipeline.
pub fn runs_key(dag_name: &str) -> (r: String)
    ensures
        r@ == named_key("runs"@, dag_name@),
{
    let mut key = String::from_str("runs");
    key.append(":");
    key.append(dag_name);
    key
}

fn make_named_key(family: &str, name: &str) -> (r: String)
    ensures
        r@ == named_key(family@, name@),
{
    let mut key = String::from_str(family);
    key.append(":");
    key.append(name);
    key
}

/// The parameters with which a run was triggered.
pub fn trigger_params_key(run_id: usize) -> (r: String)
    ensures
        r@ == key1("tp"@, run_id as nat),
{
    make_key1("tp", run_id)
}

/// The options of a pipeline.
pub fn options_key(dag_name: &str) -> (r: String)
    ensures
        r@ == named_key("options"@, dag_name@),
{
    make_named_key("options", dag_name)
}

/// The tasks from which the runs of a pipeline are made.
pub fn default_tasks_key(dag_name: &str) -> (r: String)
    ensures
        r@ == named_key("default_tasks"@, dag_name@),
{
    make_named_key("default_tasks", dag_name)
}

/// The edges from which the runs of a pipeline are made.
pub fn default_edges_key(dag_name: &str) -> (r: String)
    ensures
        r@ == named_key("default_edges"@, dag_name@),
{
    make_named_key("default_edges", dag_name)
}

/// The version of a pipeline.
pub fn hash_key(dag_name: &str) -> (r: String)
    ensures
        r@ == named_key("hash"@, dag_name@),
{
    make_named_key("hash", dag_name)
}

/// The set of the dates of the runs of a pipeline in one version.
pub fn logical_dates_key(dag_name: &str, dag_hash: &str) -> (r: String)
    ensures
        r@ == named_key("ld"@, dag_name@) + colon() + dag_hash@,
{
    let mut key = String::from_str("ld");
    key.append(":");
    key.append(dag_name);
    key.append(":");
    key.append(dag_hash);
    key
}

/// The id that a counter gives out: one less than the number to which the
/// store has just raised it. `None` where the number is 0, which the store
/// never answers.
pub fn id_from_counter(raised_to: usize) -> (r: Option<usize>)
    ensures
        r == if raised_to >= 1 {
            Some((raised_to - 1) as usize)
        } else {
            None
        },
{
    if raised_to >= 1 {
        Some(raised_to - 1)
    } else {
        None
    }
}

/// The last line that was taken from a log, or `null` where the store gave
/// none.
pub fn last_line(lines: &Vec<String>) -> (r: String)
    ensures
        r@ == if lines@.len() > 0 {
            lines@[0]@
        } else {
            "null"@
        },
{
    if lines.len() > 0 {
        lines[0].clone()
    } else {
        "null".to_owned()
    }
}

/// Where the newest `count` items of a list of `length` items begin.
pub fn recent_from(length: usize, count: usize) -> (r: usize)
    ensures
        r == if length > count {
            (length - count) as usize
        } else {
            0
        },
{
    if length > count {
        length - count
    } else {
        0
    }
}

} // verus!
