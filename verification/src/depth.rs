//! What the depth of a task rests on: the edges of its run and the depths
//! that are cached, and that caching a depth changes the depth of no task.

use crate::backend::{next_depth, RunRecord};
use crate::graph::{acyclic, lemma_ranked_below, ranked};
use crate::shared::{cached_depths, lemma_depth_by_is_depth};
use vstd::prelude::*;

verus! {

/// Every task has the same depth in the two runs.
#[verifier::opaque]
pub open spec fn same_depths(a: RunRecord, b: RunRecord) -> bool {
    forall|t: usize| a.depth(t) == #[trigger] b.depth(t)
}

/// `b` is `a` but that the depth of the task `cached` is held, and other
/// things than edges and depths may differ.
pub open spec fn depth_cached(a: RunRecord, b: RunRecord, cached: usize) -> bool {
    &&& a.has_task(cached)
    &&& b.edges == a.edges
    &&& b.tasks.len() == a.tasks.len()
    &&& b.tasks[cached as int].depth == Some(a.depth(cached))
    &&& forall|x: usize|
        a.has_task(x) && x != cached ==> (#[trigger] b.tasks[x as int]).depth
            == a.tasks[x as int].depth
}

/// A task without upstreams has nothing above it.
proof fn lemma_over_without_upstream(run: RunRecord, task: usize, fuel: nat, below: nat)
    requires
        forall|up: usize| !run.is_upstream(up, task),
    ensures
        run.depth_over(task, fuel, below) == 0,
    decreases below,
{
    if below > 0 {
        lemma_over_without_upstream(run, task, fuel, (below - 1) as nat);
    }
}

/// With as much fuel as the rank of a task, the search for its depth has
/// all that it can use.
proof fn lemma_fuel_enough(run: RunRecord, low: spec_fn(usize) -> nat, task: usize, f: nat, g: nat)
    requires
        run.wf(),
        ranked(run.edges, low),
        run.has_task(task) ==> f >= low(task) && g >= low(task),
    ensures
        run.depth_within(task, f) == run.depth_within(task, g),
    decreases f, 0nat,
{
    if run.has_task(task) && run.tasks[task as int].depth is None {
        if f == 0 || g == 0 {
            assert forall|up: usize| !run.is_upstream(up, task) by {
                if run.is_upstream(up, task) {
                    assert(run.edges.contains((up, task)));
                    assert(low(up) < low(task));
                }
            }
            if f > 0 {
                lemma_over_without_upstream(run, task, (f - 1) as nat, run.tasks.len());
            }
            if g > 0 {
                lemma_over_without_upstream(run, task, (g - 1) as nat, run.tasks.len());
            }
        } else {
            lemma_over_fuel_enough(
                run,
                low,
                task,
                (f - 1) as nat,
                (g - 1) as nat,
                run.tasks.len(),
            );
        }
    }
}

proof fn lemma_over_fuel_enough(
    run: RunRecord,
    low: spec_fn(usize) -> nat,
    task: usize,
    f: nat,
    g: nat,
    below: nat,
)
    requires
        run.wf(),
        ranked(run.edges, low),
        run.has_task(task),
        f + 1 >= low(task),
        g + 1 >= low(task),
    ensures
        run.depth_over(task, f, below) == run.depth_over(task, g, below),
    decreases f, below + 1,
{
    if below > 0 {
        lemma_over_fuel_enough(run, low, task, f, g, (below - 1) as nat);
        let up = (below - 1) as usize;
        if below - 1 <= usize::MAX && run.is_upstream(up, task) {
            assert(run.edges.contains((up, task)));
            assert(low(up) < low(task));
            lemma_fuel_enough(run, low, up, f, g);
        }
    }
}

/// Caching the depth of a task leaves the depth that the search finds.
proof fn lemma_within_kept(
    a: RunRecord,
    b: RunRecord,
    cached: usize,
    low: spec_fn(usize) -> nat,
    task: usize,
    fuel: nat,
)
    requires
        a.wf(),
        ranked(a.edges, low),
        forall|t: usize| t < a.tasks.len() ==> #[trigger] low(t) < a.tasks.len(),
        depth_cached(a, b, cached),
        a.has_task(task) ==> fuel >= low(task),
    ensures
        b.depth_within(task, fuel) == a.depth_within(task, fuel),
    decreases fuel, 0nat,
{
    if a.has_task(task) {
        if task == cached {
            lemma_fuel_enough(a, low, task, fuel, a.tasks.len());
        } else if a.tasks[task as int].depth is None && fuel > 0 {
            lemma_over_kept(a, b, cached, low, task, (fuel - 1) as nat, a.tasks.len());
        }
    }
}

proof fn lemma_over_kept(
    a: RunRecord,
    b: RunRecord,
    cached: usize,
    low: spec_fn(usize) -> nat,
    task: usize,
    fuel: nat,
    below: nat,
)
    requires
        a.wf(),
        ranked(a.edges, low),
        forall|t: usize| t < a.tasks.len() ==> #[trigger] low(t) < a.tasks.len(),
        depth_cached(a, b, cached),
        a.has_task(task),
        fuel + 1 >= low(task),
    ensures
        b.depth_over(task, fuel, below) == a.depth_over(task, fuel, below),
    decreases fuel, below + 1,
{
    if below > 0 {
        lemma_over_kept(a, b, cached, low, task, fuel, (below - 1) as nat);
        let up = (below - 1) as usize;
        if below - 1 <= usize::MAX && a.is_upstream(up, task) {
            assert(a.edges.contains((up, task)));
            assert(low(up) < low(task));
            lemma_within_kept(a, b, cached, low, up, fuel);
        }
    }
}

/// What stands above a task is at least one more than what the search finds
/// for each of its upstreams.
proof fn lemma_over_reaches(run: RunRecord, up: usize, task: usize, fuel: nat, below: nat)
    requires
        run.is_upstream(up, task),
        up < below,
    ensures
        run.depth_over(task, fuel, below) >= next_depth(run.depth_within(up, fuel)),
    decreases below,
{
    if below - 1 != up {
        lemma_over_reaches(run, up, task, fuel, (below - 1) as nat);
    }
}

/// A task with an upstream whose depth is not cached has a depth of at
/// least 1, and one greater than that of the upstream as long as depths can
/// be counted.
pub proof fn lemma_downstream_is_deeper(run: RunRecord, up: usize, task: usize)
    requires
        run.wf(),
        acyclic(run.edges),
        run.is_upstream(up, task),
        run.tasks[task as int].depth is None,
    ensures
        run.depth(task) >= 1,
        run.depth(task) >= next_depth(run.depth(up)),
{
    let n = run.tasks.len();
    assert(run.edges.contains((up, task)));
    let low = lemma_ranked_below(run.edges, n);
    assert(low(up) < low(task));
    lemma_over_reaches(run, up, task, (n - 1) as nat, n);
    lemma_fuel_enough(run, low, up, (n - 1) as nat, n);
}

/// Caching the depth of a task of a run without a cycle changes the depth
/// of no task.
pub proof fn lemma_depth_cached(a: RunRecord, b: RunRecord, cached: usize)
    requires
        a.wf(),
        acyclic(a.edges),
        depth_cached(a, b, cached),
    ensures
        same_depths(a, b),
{
    reveal(same_depths);
    let low = lemma_ranked_below(a.edges, a.tasks.len());
    assert forall|t: usize| a.depth(t) == #[trigger] b.depth(t) by {
        lemma_within_kept(a, b, cached, low, t, a.tasks.len());
    }
}

/// Runs with the same edges and the same depths cached give every task the
/// same depth.
pub proof fn lemma_depths_read(a: RunRecord, b: RunRecord)
    requires
        b.edges == a.edges,
        b.tasks.len() == a.tasks.len(),
        forall|i: int| 0 <= i < a.tasks.len() ==> (#[trigger] b.tasks[i]).depth
            == a.tasks[i].depth,
    ensures
        same_depths(a, b),
{
    reveal(same_depths);
    assert(cached_depths(a) =~= cached_depths(b));
    assert forall|t: usize| a.depth(t) == #[trigger] b.depth(t) by {
        lemma_depth_by_is_depth(a, t, a.tasks.len());
        lemma_depth_by_is_depth(b, t, b.tasks.len());
    }
}

/// Depths that are the same in two runs and in the second and a third are
/// the same in the first and the third.
pub proof fn lemma_same_depths_chain(a: RunRecord, b: RunRecord, c: RunRecord)
    requires
        same_depths(a, b),
        same_depths(b, c),
    ensures
        same_depths(a, c),
{
    reveal(same_depths);
    assert forall|t: usize| a.depth(t) == #[trigger] c.depth(t) by {
        assert(a.depth(t) == b.depth(t));
    }
}

/// What having the same depths says of one task.
pub proof fn lemma_same_depth(a: RunRecord, b: RunRecord, task: usize)
    requires
        same_depths(a, b),
    ensures
        a.depth(task) == b.depth(task),
{
    reveal(same_depths);
}

} // verus!
