//! Command lines: how the words of a command task are split into commands,
//! and the words by which a function of a pipeline is launched.

use crate::keys::{decimal, decimal_text};
use vstd::prelude::*;

verus! {

pub open spec fn words_view(words: Seq<String>) -> Seq<Seq<char>> {
    Seq::new(words.len(), |i: int| words[i]@)
}

pub open spec fn commands_view(commands: Seq<Vec<String>>) -> Seq<Seq<Seq<char>>> {
    Seq::new(commands.len(), |i: int| words_view(commands[i]@))
}

/// The word that stands between two commands.
pub open spec fn separator() -> Seq<char> {
    "&&"@
}

/// `k` is where the first separator stands among the words, or their number
/// if there is none.
pub open spec fn is_first_separator(words: Seq<Seq<char>>, k: int) -> bool {
    &&& 0 <= k <= words.len()
    &&& k < words.len() ==> words[k] == separator()
    &&& forall|j: int| 0 <= j < k ==> words[j] != separator()
}

pub open spec fn first_separator(words: Seq<Seq<char>>) -> int {
    choose|k: int| is_first_separator(words, k)
}

/// The commands that the words spell: the runs of words between the
/// separators, in their order. Words without a separator are one command; a
/// separator at either end, or next to another, gives a command of no words.
pub open spec fn split_at_separators(words: Seq<Seq<char>>) -> Seq<Seq<Seq<char>>>
    decreases words.len(),
{
    let k = first_separator(words);
    if 0 <= k < words.len() {
        seq![words.subrange(0, k)] + split_at_separators(words.subrange(k + 1, words.len() as int))
    } else {
        seq![words]
    }
}

proof fn lemma_first_separator(words: Seq<Seq<char>>, k: int)
    requires
        is_first_separator(words, k),
    ensures
        first_separator(words) == k,
{
    let c = first_separator(words);
    assert(is_first_separator(words, c));
    if c < k {
        assert(words[c] != separator());
    }
    if k < c {
        assert(words[k] != separator());
    }
}

/// Splits the words of a command task into the commands that are to be run
/// one after the other.
pub fn split_commands(words: &Vec<String>) -> (r: Vec<Vec<String>>)
    ensures
        commands_view(r@) == split_at_separators(words_view(words@)),
{
    let ghost all = words_view(words@);
    let n = words.len();
    let sep = "&&".to_owned();
    let mut out: Vec<Vec<String>> = Vec::new();
    let mut current: Vec<String> = Vec::new();
    let mut start: usize = 0;
    let mut i: usize = 0;
    proof {
        assert(all.subrange(0, n as int) =~= all);
        assert(commands_view(out@) =~= Seq::empty());
        assert(words_view(current@) =~= all.subrange(0, 0));
        assert(Seq::<Seq<Seq<char>>>::empty() + split_at_separators(all) =~= split_at_separators(all));
    }
    while i < n
        invariant
            start <= i <= n,
            n == words@.len(),
            all == words_view(words@),
            sep@ == separator(),
            forall|j: int| start <= j < i ==> all[j] != separator(),
            words_view(current@) == all.subrange(start as int, i as int),
            split_at_separators(all) == commands_view(out@) + split_at_separators(
                all.subrange(start as int, n as int),
            ),
        decreases n - i,
    {
        let ghost rest = all.subrange(start as int, n as int);
        proof {
            assert(all[i as int] == words@[i as int]@);
        }
        if words[i] == sep {
            proof {
                lemma_first_separator(rest, i - start);
                assert(rest.subrange(0, i - start) =~= all.subrange(start as int, i as int));
                assert(rest.subrange(i - start + 1, rest.len() as int) =~= all.subrange(
                    i + 1,
                    n as int,
                ));
                let done = commands_view(out@);
                let group = words_view(current@);
                assert(commands_view(out@.push(current)) =~= done.push(group));
                assert(done.push(group) + split_at_separators(all.subrange(i + 1, n as int))
                    =~= done + (seq![group] + split_at_separators(all.subrange(i + 1, n as int))));
            }
            out.push(current);
            current = Vec::new();
            start = i + 1;
            proof {
                assert(words_view(current@) =~= all.subrange(start as int, start as int));
            }
        } else {
            let w = words[i].clone();
            proof {
                let before = words_view(current@);
                let after = words_view(current@.push(w));
                let target = all.subrange(start as int, i + 1);
                assert(after.len() == target.len());
                assert forall|k: int| 0 <= k < after.len() implies after[k] == target[k] by {
                    if k < before.len() {
                        assert(before[k] == all.subrange(start as int, i as int)[k]);
                        assert(after[k] == current@[k]@);
                    } else {
                        assert(after[k] == w@);
                    }
                }
                assert(after =~= target);
            }
            current.push(w);
        }
        i += 1;
    }
    proof {
        let rest = all.subrange(start as int, n as int);
        lemma_first_separator(rest, rest.len() as int);
        let done = commands_view(out@);
        let group = words_view(current@);
        assert(commands_view(out@.push(current)) =~= done.push(group));
        assert(done.push(group) =~= done + seq![rest]);
    }
    out.push(current);
    out
}

/// The words with which the launch of a function begins: the `timeout`
/// launcher where the run is to be timed, and else the executor and the
/// pipeline.
pub open spec fn launch_words(dag_path: Seq<char>, use_timeout: bool, tpt_path: Seq<char>) -> Seq<
    Seq<char>,
> {
    if use_timeout {
        seq!["timeout"@]
    } else {
        seq![tpt_path, dag_path]
    }
}

/// The words that follow: for a timed run the time after which the command
/// is killed, the time after which it is ended, the executor and the
/// pipeline; and in any case the words that name the function to run.
pub open spec fn function_words(
    dag_path: Seq<char>,
    use_timeout: bool,
    timeout_as_secs: Seq<char>,
    tpt_path: Seq<char>,
    function: Seq<char>,
) -> Seq<Seq<char>> {
    let tail = seq!["run"@, "function"@, function];
    if use_timeout {
        seq!["-k"@, timeout_as_secs, timeout_as_secs, tpt_path, dag_path] + tail
    } else {
        tail
    }
}

/// The words with which the launch of a function begins.
pub fn create_command(dag_path: &str, use_timeout: bool, tpt_path: &str) -> (r: Vec<String>)
    ensures
        words_view(r@) == launch_words(dag_path@, use_timeout, tpt_path@),
{
    let mut command: Vec<String> = Vec::new();
    if use_timeout {
        command.push("timeout".to_owned());
        proof {
            assert(words_view(command@) =~= launch_words(dag_path@, use_timeout, tpt_path@));
        }
    } else {
        command.push(tpt_path.to_owned());
        command.push(dag_path.to_owned());
        proof {
            assert(words_view(command@) =~= launch_words(dag_path@, use_timeout, tpt_path@));
        }
    }
    command
}

/// Adds to the command the words that time the run, where it is to be
/// timed, and the words that name the function to run.
pub fn command_timeout(
    command: &mut Vec<String>,
    dag_path: &str,
    use_timeout: bool,
    timeout_as_secs: &str,
    tpt_path: &str,
    function: &str,
)
    ensures
        words_view(final(command)@) == words_view(old(command)@) + function_words(
            dag_path@,
            use_timeout,
            timeout_as_secs@,
            tpt_path@,
            function@,
        ),
{
    let ghost before = words_view(command@);
    if use_timeout {
        command.push("-k".to_owned());
        command.push(timeout_as_secs.to_owned());
        command.push(timeout_as_secs.to_owned());
        command.push(tpt_path.to_owned());
        command.push(dag_path.to_owned());
    }
    command.push("run".to_owned());
    command.push("function".to_owned());
    command.push(function.to_owned());
    proof {
        assert(words_view(command@) =~= before + function_words(
            dag_path@,
            use_timeout,
            timeout_as_secs@,
            tpt_path@,
            function@,
        ));
    }
}

/// The seconds for which a task with this timeout, in milliseconds, may run:
/// a second that has begun counts as a whole one.
pub open spec fn timeout_seconds(timeout: u64) -> nat {
    let whole = (timeout / 1000) as nat;
    let all: nat = if timeout % 1000 == 0 {
        whole
    } else {
        whole + 1
    };
    if all <= usize::MAX {
        all
    } else {
        usize::MAX as nat
    }
}

/// The seconds for which a task with this timeout may run, in decimal
/// digits, as the `timeout` launcher takes them.
pub fn timeout_as_secs(timeout: u64) -> (r: String)
    ensures
        r@ == decimal(timeout_seconds(timeout)),
{
    let whole: u64 = timeout / 1000;
    let all: u64 = if timeout % 1000 == 0 {
        whole
    } else {
        whole + 1
    };
    if all <= usize::MAX as u64 {
        decimal_text(all as usize)
    } else {
        decimal_text(usize::MAX)
    }
}

} // verus!
