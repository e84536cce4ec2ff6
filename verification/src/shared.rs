//! What a backend over a shared store works out from the replies of the
//! store, between one command and the next.

use crate::backend::{larger, next_depth, RunRecord};
use crate::task::QueuedTask;
use vstd::prelude::*;

verus! {

/// The places, in rising order, of the members of the queue that are of the
/// given task: those that are to be taken out before the task is put in.
pub fn positions_of_task(members: &Vec<QueuedTask>, run_id: usize,
    task_id: usize) -> (r: Vec<usize>)
    ensures
        forall|i: int, j: int| 0 <= i < j < r@.len() ==> r@[i] < r@[j],
        forall|i: int|
            0 <= i < r@.len() ==> (#[trigger] r@[i]) < members@.len()
                && members@[r@[i] as int].run_id
                == run_id && members@[r@[i] as int].task_id == task_id,
        forall|k: int|
            0 <= k < members@.len() && (#[trigger] members@[k]).run_id == run_id
                && members@[k].task_id
                == task_id ==> r@.contains(k as usize),
{
    let mut out: Vec<usize> = Vec::new();
    let mut k: usize = 0;
    while k < members.len()
        invariant
            k <= members.len(),
            forall|i: int, j: int| 0 <= i < j < out@.len() ==> out@[i] < out@[j],
            forall|i: int|
                0 <= i < out@.len() ==> (#[trigger] out@[i]) < k && members@[out@[i] as int].run_id
                    == run_id && members@[out@[i] as int].task_id == task_id,
            forall|m: int|
                0 <= m < k && (#[trigger] members@[m]).run_id == run_id && members@[m].task_id
                    == task_id ==> out@.contains(m as usize),
        decreases members.len() - k,
    {
        if members[k].run_id == run_id && members[k].task_id == task_id {
            let ghost before = out@;
            out.push(k);
            proof {
                assert(out@[before.len() as int] == k);
                assert forall|m: int|
                    0 <= m < k + 1 && (#[trigger] members@[m]).run_id == run_id
                        && members@[m].task_id
                        == task_id implies out@.contains(m as usize) by {
                    if m < k {
                        let i = choose|i: int| 0 <= i < before.len() && before[i] == m as usize;
                        assert(out@[i] == m as usize);
                    }
                }
            }
        }
        k += 1;
    }
    out
}

/// The tasks at the other end of the edges that begin at the task, where
/// `downstream` is set, or end at it, in the order of the edges.
pub fn neighbours(edges: &Vec<(usize, usize)>, task_id: usize, downstream: bool) -> (r: Vec<usize>)
    ensures
        forall|x: usize|
            r@.contains(x) <==> edges@.contains(
                if downstream {
                    (task_id, x)
                } else {
                    (x, task_id)
                },
            ),
{
    let mut out: Vec<usize> = Vec::new();
    let mut i: usize = 0;
    while i < edges.len()
        invariant
            i <= edges.len(),
            forall|x: usize|
                out@.contains(x) <==> exists|k: int|
                    0 <= k < i && #[trigger] edges@[k] == if downstream {
                        (task_id, x)
                    } else {
                        (x, task_id)
                    },
        decreases edges.len() - i,
    {
        let e = edges[i];
        let hit = if downstream {
            e.0 == task_id
        } else {
            e.1 == task_id
        };
        let other = if downstream {
            e.1
        } else {
            e.0
        };
        let ghost before = out@;
        if hit {
            out.push(other);
        }
        proof {
            assert forall|x: usize|
                out@.contains(x) <==> exists|k: int|
                    0 <= k < i + 1 && #[trigger] edges@[k] == if downstream {
                        (task_id, x)
                    } else {
                        (x, task_id)
                    } by {
                let want = if downstream {
                    (task_id, x)
                } else {
                    (x, task_id)
                };
                if before.contains(x) {
                    let m = choose|m: int| 0 <= m < before.len() && before[m] == x;
                    assert(out@[m] == x);
                    let k = choose|k: int| 0 <= k < i && #[trigger] edges@[k] == want;
                    assert(0 <= k < i + 1 && edges@[k] == want);
                }
                if hit && x == other {
                    assert(out@[before.len() as int] == x);
                    assert(edges@[i as int] == want);
                }
                if out@.contains(x) && !before.contains(x) {
                    let m = choose|m: int| 0 <= m < out@.len() && out@[m] == x;
                    if m < before.len() {
                        assert(before[m] == x);
                    }
                    assert(edges@[i as int] == want);
                }
                if exists|k: int| 0 <= k < i + 1 && #[trigger] edges@[k] == want {
                    let k = choose|k: int| 0 <= k < i + 1 && #[trigger] edges@[k] == want;
                    if k < i {
                        assert(before.contains(x));
                    } else {
                        assert(hit && x == other);
                    }
                }
            }
        }
        i += 1;
    }
    proof {
        assert forall|x: usize|
            out@.contains(x) <==> edges@.contains(
                if downstream {
                    (task_id, x)
                } else {
                    (x, task_id)
                },
            ) by {
            let want = if downstream {
                (task_id, x)
            } else {
                (x, task_id)
            };
            if edges@.contains(want) {
                let k = choose|k: int| 0 <= k < edges@.len() && edges@[k] == want;
                assert(0 <= k < i && edges@[k] == want);
            }
        }
    }
    out
}

/// The depth of a task among tasks of which `cached` holds the depths that
/// are known: what is cached for it, else one more than the greatest depth
/// among its upstreams, and 0 where it has none. `fuel` bounds how far the
/// search climbs.
pub open spec fn depth_by(
    edges: Set<(usize, usize)>,
    cached: Seq<Option<usize>>,
    task: usize,
    fuel: nat,
) -> usize
    decreases fuel, 0nat,
{
    if task >= cached.len() {
        0
    } else if let Some(d) = cached[task as int] {
        d
    } else if fuel == 0 {
        0
    } else {
        depth_over_by(edges, cached, task, (fuel - 1) as nat, cached.len())
    }
}

/// The greatest of `depth + 1` over the upstreams of `task` with an id below
/// `below`, and 0 where there is none.
pub open spec fn depth_over_by(
    edges: Set<(usize, usize)>,
    cached: Seq<Option<usize>>,
    task: usize,
    fuel: nat,
    below: nat,
) -> usize
    decreases fuel, below + 1,
{
    if below == 0 {
        0
    } else {
        let rest = depth_over_by(edges, cached, task, fuel, (below - 1) as nat);
        let up = (below - 1) as usize;
        if below - 1 <= usize::MAX && edges.contains((up, task)) {
            larger(rest, next_depth(depth_by(edges, cached, up, fuel)))
        } else {
            rest
        }
    }
}

/// The depths that are cached of the tasks of a run.
pub open spec fn cached_depths(run: RunRecord) -> Seq<Option<usize>> {
    Seq::new(run.tasks.len(), |t: int| run.tasks[t].depth)
}

/// The depth of a task of a run is its depth by the edges of the run and the
/// depths that the run has cached.
pub proof fn lemma_depth_by_is_depth(run: RunRecord, task: usize, fuel: nat)
    ensures
        run.depth_within(task, fuel) == depth_by(run.edges, cached_depths(run), task, fuel),
    decreases fuel, 0nat,
{
    if run.has_task(task) && run.tasks[task as int].depth is None && fuel > 0 {
        lemma_depth_over_by_is_depth(run, task, (fuel - 1) as nat, run.tasks.len());
    }
}

proof fn lemma_depth_over_by_is_depth(run: RunRecord, task: usize, fuel: nat, below: nat)
    ensures
        run.depth_over(task, fuel, below) == depth_over_by(
            run.edges,
            cached_depths(run),
            task,
            fuel,
            below,
        ),
    decreases fuel, below + 1,
{
    if below > 0 {
        lemma_depth_over_by_is_depth(run, task, fuel, (below - 1) as nat);
        if below - 1 <= usize::MAX {
            lemma_depth_by_is_depth(run, (below - 1) as usize, fuel);
        }
    }
}

/// Whether an edge leads from `up` to `down`.
fn joins(edges: &Vec<(usize, usize)>, up: usize, down: usize) -> (r: bool)
    ensures
        r == edges@.to_set().contains((up, down)),
{
    let mut i: usize = 0;
    while i < edges.len()
        invariant
            i <= edges.len(),
            forall|k: int| 0 <= k < i ==> edges@[k] != (up, down),
        decreases edges.len() - i,
    {
        if edges[i].0 == up && edges[i].1 == down {
            proof {
                assert(edges@[i as int] == (up, down));
                assert(edges@.contains((up, down)));
            }
            return true;
        }
        i += 1;
    }
    proof {
        assert(!edges@.contains((up, down)));
    }
    false
}

/// The depth of a task, from the edges of its run and the depths that are
/// cached of the tasks of the run.
pub fn depth_of(
    edges: &Vec<(usize, usize)>,
    cached: &Vec<Option<usize>>,
    task: usize,
    fuel: usize,
) -> (d: usize)
    ensures
        d == depth_by(edges@.to_set(), cached@, task, fuel as nat),
    decreases fuel,
{
    let n = cached.len();
    if task >= n {
        return 0;
    }
    if let Some(d) = cached[task] {
        return d;
    }
    if fuel == 0 {
        return 0;
    }
    let mut acc: usize = 0;
    let mut up: usize = 0;
    while up < n
        invariant
            up <= n,
            n == cached@.len(),
            fuel > 0,
            acc == depth_over_by(edges@.to_set(), cached@, task, (fuel - 1) as nat, up as nat),
        decreases n - up,
    {
        if joins(edges, up, task) {
            let d = depth_of(edges, cached, up, fuel - 1);
            let next = if d < usize::MAX {
                d + 1
            } else {
                d
            };
            if next > acc {
                acc = next;
            }
        }
        up += 1;
    }
    acc
}

/// The place of the first of the runs, each given by its version and date,
/// that is of this version and date.
pub fn run_of_date(runs: &Vec<(String, i64)>, dag_hash: &str, date: i64) -> (r: Option<usize>)
    ensures
        match r {
            Some(i) => i < runs@.len() && runs@[i as int].0@ == dag_hash@ && runs@[i as int].1
                == date && forall|k: int|
                0 <= k < i ==> !((#[trigger] runs@[k]).0@ == dag_hash@ && runs@[k].1 == date),
            None => forall|k: int|
                0 <= k < runs@.len() ==> !((#[trigger] runs@[k]).0@ == dag_hash@ && runs@[k].1
                    == date),
        },
{
    let wanted = dag_hash.to_owned();
    let mut i: usize = 0;
    while i < runs.len()
        invariant
            i <= runs.len(),
            wanted@ == dag_hash@,
            forall|k: int|
                0 <= k < i ==> !((#[trigger] runs@[k]).0@ == dag_hash@ && runs@[k].1 == date),
        decreases runs.len() - i,
    {
        if runs[i].1 == date && runs[i].0 == wanted {
            return Some(i);
        }
        i += 1;
    }
    None
}

} // verus!
