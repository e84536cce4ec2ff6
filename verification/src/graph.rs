//! Directed graphs over task ids: paths, reachability, and what it is for a
//! set of edges to have no cycle.

use vstd::prelude::*;

verus! {

/// Every edge leads from a lower rank to a higher one.
pub open spec fn ranked(edges: Set<(usize, usize)>, rank: spec_fn(usize) -> nat) -> bool {
    forall|e: (usize, usize)| #[trigger] edges.contains(e) ==> rank(e.0) < rank(e.1)
}

/// The edges have no cycle: the tasks can be ranked so that every edge leads
/// upwards.
pub open spec fn acyclic(edges: Set<(usize, usize)>) -> bool {
    exists|rank: spec_fn(usize) -> nat| ranked(edges, rank)
}

/// The tasks of `p` are joined by edges, each to the next.
pub open spec fn is_path(edges: Set<(usize, usize)>, p: Seq<usize>) -> bool {
    &&& p.len() >= 1
    &&& forall|i: int| 0 <= i < p.len() - 1 ==> edges.contains((#[trigger] p[i], p[i + 1]))
}

/// A path leads from `a` to `b`; a task reaches itself.
pub open spec fn reaches(edges: Set<(usize, usize)>, a: usize, b: usize) -> bool {
    exists|p: Seq<usize>| #[trigger] is_path(edges, p) && p[0] == a && p.last() == b
}

proof fn lemma_ranks_rise(edges: Set<(usize, usize)>, rank: spec_fn(usize) -> nat, p: Seq<usize>)
    requires
        ranked(edges, rank),
        is_path(edges, p),
    ensures
        rank(p[0]) + p.len() - 1 <= rank(p.last()),
    decreases p.len(),
{
    if p.len() > 1 {
        let front = p.drop_last();
        assert(is_path(edges, front)) by {
            assert forall|i: int| 0 <= i < front.len() - 1 implies
                edges.contains((#[trigger] front[i], front[i + 1])) by {
                assert(edges.contains((p[i], p[i + 1])));
            }
        }
        lemma_ranks_rise(edges, rank, front);
        assert(edges.contains((p[p.len() - 2], p[p.len() - 2 + 1])));
    }
}

/// Edges without a cycle hold no path of one edge or more that ends where it
/// began.
pub proof fn lemma_acyclic_has_no_cycle(edges: Set<(usize, usize)>, p: Seq<usize>)
    requires
        acyclic(edges),
        is_path(edges, p),
        p.len() >= 2,
    ensures
        p[0] != p.last(),
{
    let rank = choose|rank: spec_fn(usize) -> nat| ranked(edges, rank);
    lemma_ranks_rise(edges, rank, p);
}

pub proof fn lemma_reaches_itself(edges: Set<(usize, usize)>, a: usize)
    ensures
        reaches(edges, a, a),
{
    let p = seq![a];
    assert(is_path(edges, p));
    assert(p[0] == a && p.last() == a);
}

pub proof fn lemma_reaches_step(edges: Set<(usize, usize)>, a: usize, b: usize, c: usize)
    requires
        reaches(edges, a, b),
        edges.contains((b, c)),
    ensures
        reaches(edges, a, c),
{
    let p = choose|p: Seq<usize>| #[trigger] is_path(edges, p) && p[0] == a && p.last() == b;
    let q = p.push(c);
    assert(is_path(edges, q)) by {
        assert forall|i: int| 0 <= i < q.len() - 1 implies
            edges.contains((#[trigger] q[i], q[i + 1])) by {
            if i < p.len() - 1 {
                assert(edges.contains((p[i], p[i + 1])));
            }
        }
    }
    assert(q[0] == a && q.last() == c);
}

/// More edges reach at least as far.
pub proof fn lemma_reaches_more(edges: Set<(usize, usize)>, more: Set<(usize, usize)>, a: usize,
    b: usize)
    requires
        reaches(edges, a, b),
        forall|e: (usize, usize)| edges.contains(e) ==> more.contains(e),
    ensures
        reaches(more, a, b),
{
    let p = choose|p: Seq<usize>| #[trigger] is_path(edges, p) && p[0] == a && p.last() == b;
    assert(is_path(more, p)) by {
        assert forall|i: int| 0 <= i < p.len() - 1 implies
            more.contains((#[trigger] p[i], p[i + 1])) by {
            assert(edges.contains((p[i], p[i + 1])));
        }
    }
}

/// A task without outgoing edges reaches only itself.
pub proof fn lemma_sink_reaches_itself(edges: Set<(usize, usize)>, a: usize, b: usize)
    requires
        forall|x: usize| !edges.contains((a, x)),
        reaches(edges, a, b),
    ensures
        a == b,
{
    let p = choose|p: Seq<usize>| #[trigger] is_path(edges, p) && p[0] == a && p.last() == b;
    if p.len() > 1 {
        assert(edges.contains((p[0int], p[0int + 1])));
    }
}

/// An edge from `up` to `down` that `down` does not reach back along leaves
/// the edges without a cycle.
pub proof fn lemma_edge_keeps_acyclic(edges: Set<(usize, usize)>, up: usize, down: usize)
    requires
        acyclic(edges),
        !reaches(edges, down, up),
    ensures
        acyclic(edges.insert((up, down))),
{
    let rank = choose|rank: spec_fn(usize) -> nat| ranked(edges, rank);
    let lift = rank(up) + 1;
    let raised = |x: usize|
        if reaches(edges, down, x) {
            (rank(x) + lift) as nat
        } else {
            rank(x)
        };
    let more = edges.insert((up, down));
    assert forall|e: (usize, usize)| #[trigger] more.contains(e) implies
        raised(e.0) < raised(e.1) by {
        if e == (up, down) {
            lemma_reaches_itself(edges, down);
        } else {
            assert(edges.contains(e));
            if reaches(edges, down, e.0) {
                lemma_reaches_step(edges, down, e.0, e.1);
            }
        }
    }
    assert(ranked(more, raised));
}

/// An edge from `up` to `down` that `down` reaches back along closes a
/// cycle.
pub proof fn lemma_edge_closes_cycle(edges: Set<(usize, usize)>, up: usize, down: usize)
    requires
        reaches(edges, down, up),
    ensures
        !acyclic(edges.insert((up, down))),
{
    let more = edges.insert((up, down));
    if acyclic(more) {
        lemma_reaches_more(edges, more, down, up);
        lemma_reaches_step(more, down, up, down);
        let p = choose|p: Seq<usize>| #[trigger] is_path(more, p) && p[0] == down
            && p.last() == down;
        let rank = choose|rank: spec_fn(usize) -> nat| ranked(more, rank);
        let q = choose|q: Seq<usize>| #[trigger] is_path(more, q) && q[0] == down && q.last() == up;
        let cycle = q.push(down);
        assert(is_path(more, cycle)) by {
            assert forall|i: int| 0 <= i < cycle.len() - 1 implies
                more.contains((#[trigger] cycle[i], cycle[i + 1])) by {
                if i < q.len() - 1 {
                    assert(more.contains((q[i], q[i + 1])));
                }
            }
        }
        lemma_acyclic_has_no_cycle(more, cycle);
    }
}

/// How many of the first `k` marks are not set.
spec fn unmarked_below(marks: Seq<bool>, k: nat) -> nat
    decreases k,
{
    if k == 0 {
        0
    } else {
        unmarked_below(marks, (k - 1) as nat) + if k - 1 < marks.len() && !marks[k - 1] {
            1nat
        } else {
            0nat
        }
    }
}

proof fn lemma_mark_same(before: Seq<bool>, after: Seq<bool>, at: int, k: nat)
    requires
        after == before.update(at, true),
        0 <= at < before.len(),
        k <= at,
    ensures
        unmarked_below(after, k) == unmarked_below(before, k),
    decreases k,
{
    if k > 0 {
        lemma_mark_same(before, after, at, (k - 1) as nat);
    }
}

proof fn lemma_mark_drop(before: Seq<bool>, after: Seq<bool>, at: int, k: nat)
    requires
        after == before.update(at, true),
        0 <= at < before.len(),
        !before[at],
        at < k,
    ensures
        unmarked_below(after, k) + 1 == unmarked_below(before, k),
    decreases k,
{
    if k - 1 == at {
        lemma_mark_same(before, after, at, (k - 1) as nat);
    } else {
        lemma_mark_drop(before, after, at, (k - 1) as nat);
    }
}

/// Marks that hold the start and are carried along every edge hold all that
/// the start reaches.
proof fn lemma_closed_marks(edges: Set<(usize, usize)>, marks: Seq<bool>, from: usize,
    p: Seq<usize>)
    requires
        from < marks.len(),
        marks[from as int],
        forall|e: (usize, usize)| #[trigger] edges.contains(e) ==> e.0 < marks.len()
            && e.1 < marks.len() && (marks[e.0 as int] ==> marks[e.1 as int]),
        is_path(edges, p),
        p[0] == from,
    ensures
        p.last() < marks.len() && marks[p.last() as int],
    decreases p.len(),
{
    if p.len() > 1 {
        let front = p.drop_last();
        assert(is_path(edges, front)) by {
            assert forall|i: int| 0 <= i < front.len() - 1 implies
                edges.contains((#[trigger] front[i], front[i + 1])) by {
                assert(edges.contains((p[i], p[i + 1])));
            }
        }
        lemma_closed_marks(edges, marks, from, front);
        assert(edges.contains((p[p.len() - 2], p[p.len() - 2 + 1])));
    }
}

/// Whether a path leads from `from` to `to` along the edges, which join
/// tasks with ids below `n`.
pub fn has_path(edges: &Vec<(usize, usize)>, n: usize, from: usize, to: usize) -> (r: bool)
    requires
        from < n,
        to < n,
        forall|i: int| 0 <= i < edges@.len() ==> (#[trigger] edges@[i]).0 < n && edges@[i].1 < n,
    ensures
        r == reaches(edges@.to_set(), from, to),
{
    let ghost set = edges@.to_set();
    let mut marks: Vec<bool> = Vec::new();
    let mut k: usize = 0;
    while k < n
        invariant
            k <= n,
            marks@.len() == k,
            forall|x: int| 0 <= x < k ==> !marks@[x],
        decreases n - k,
    {
        marks.push(false);
        k += 1;
    }
    marks.set(from, true);
    let mut stack: Vec<usize> = Vec::new();
    stack.push(from);
    proof {
        lemma_reaches_itself(set, from);
        assert(stack@[0] == from);
        assert(stack@.contains(from));
        assert forall|x: int| 0 <= x < n && x != from implies !marks@[x] by {}
    }
    while stack.len() > 0
        invariant
            set == edges@.to_set(),
            from < n,
            marks@.len() == n,
            marks@[from as int],
            forall|i: int| 0 <= i < edges@.len() ==> (#[trigger] edges@[i]).0 < n
                && edges@[i].1 < n,
            forall|x: usize| x < n && marks@[x as int] ==> reaches(set, from, x),
            forall|i: int| 0 <= i < stack@.len() ==> (#[trigger] stack@[i]) < n
                && marks@[stack@[i] as int],
            forall|i: int| 0 <= i < edges@.len() && marks@[(#[trigger] edges@[i]).0 as int]
                && !stack@.contains(edges@[i].0) ==> marks@[edges@[i].1 as int],
        decreases 2 * unmarked_below(marks@, n as nat) + stack.len(),
    {
        let ghost at_start = 2 * unmarked_below(marks@, n as nat) + stack.len();
        let ghost full = stack@;
        let a = stack.pop().unwrap();
        proof {
            assert(full[full.len() - 1] == a);
            assert(stack@ =~= full.drop_last());
            assert forall|x: usize| full.contains(x) implies stack@.contains(x) || x == a by {
                let i = choose|i: int| 0 <= i < full.len() && full[i] == x;
                if i < stack@.len() {
                    assert(stack@[i] == x);
                }
            }
        }
        let mut j: usize = 0;
        while j < edges.len()
            invariant
                j <= edges.len(),
                set == edges@.to_set(),
                from < n,
                a < n,
                marks@.len() == n,
                marks@[from as int],
                marks@[a as int],
                forall|i: int| 0 <= i < edges@.len() ==> (#[trigger] edges@[i]).0 < n
                    && edges@[i].1 < n,
                forall|x: usize| x < n && marks@[x as int] ==> reaches(set, from, x),
                forall|i: int| 0 <= i < stack@.len() ==> (#[trigger] stack@[i]) < n
                    && marks@[stack@[i] as int],
                forall|i: int| 0 <= i < edges@.len() && marks@[(#[trigger] edges@[i]).0 as int]
                    && !stack@.contains(edges@[i].0) && edges@[i].0 != a
                    ==> marks@[edges@[i].1 as int],
                forall|i: int| 0 <= i < j && (#[trigger] edges@[i]).0 == a
                    ==> marks@[edges@[i].1 as int],
                2 * unmarked_below(marks@, n as nat) + stack.len() < at_start,
            decreases edges.len() - j,
        {
            let e = edges[j];
            if e.0 == a && !marks[e.1] {
                let ghost before_marks = marks@;
                let ghost before_stack = stack@;
                marks.set(e.1, true);
                stack.push(e.1);
                proof {
                    lemma_mark_drop(before_marks, marks@, e.1 as int, n as nat);
                    assert(edges@.contains(e));
                    assert(set.contains((a, e.1)));
                    lemma_reaches_step(set, from, a, e.1);
                    assert forall|x: usize| before_stack.contains(x) implies stack@.contains(x) by {
                        let i = choose|i: int| 0 <= i < before_stack.len() && before_stack[i] == x;
                        assert(stack@[i] == x);
                    }
                    assert(stack@[before_stack.len() as int] == e.1);
                    assert forall|i: int| 0 <= i < stack@.len() implies
                        (#[trigger] stack@[i]) < n && marks@[stack@[i] as int] by {
                        if i < before_stack.len() {
                            assert(stack@[i] == before_stack[i]);
                        }
                    }
                }
            }
            j += 1;
        }
    }
    proof {
        assert forall|e: (usize, usize)| #[trigger] set.contains(e) implies e.0 < marks@.len()
            && e.1 < marks@.len() && (marks@[e.0 as int] ==> marks@[e.1 as int]) by {
            let i = choose|i: int| 0 <= i < edges@.len() && edges@[i] == e;
            assert(edges@[i].0 < n);
            assert(!stack@.contains(e.0));
        }
        if reaches(set, from, to) {
            let p = choose|p: Seq<usize>| #[trigger] is_path(set, p) && p[0] == from
                && p.last() == to;
            lemma_closed_marks(set, marks@, from, p);
        }
    }
    marks[to]
}

/// How many of the first `k` tasks have a rank below `v`.
pub open spec fn ranks_below(rank: spec_fn(usize) -> nat, v: nat, k: nat) -> nat
    decreases k,
{
    if k == 0 {
        0
    } else {
        ranks_below(rank, v, (k - 1) as nat) + if k - 1 <= usize::MAX && rank((k - 1) as usize) < v {
            1nat
        } else {
            0nat
        }
    }
}

proof fn lemma_ranks_below_grows(rank: spec_fn(usize) -> nat, v: nat, w: nat, k: nat)
    requires
        v <= w,
    ensures
        ranks_below(rank, v, k) <= ranks_below(rank, w, k) <= k,
    decreases k,
{
    if k > 0 {
        lemma_ranks_below_grows(rank, v, w, (k - 1) as nat);
    }
}

/// A task among the first `k` that is not below `v` is not counted.
proof fn lemma_ranks_below_leaves(rank: spec_fn(usize) -> nat, v: nat, k: nat, x: usize)
    requires
        x < k,
        rank(x) >= v,
    ensures
        ranks_below(rank, v, k) < k,
    decreases k,
{
    if k - 1 == x {
        lemma_ranks_below_grows(rank, v, v, (k - 1) as nat);
    } else {
        lemma_ranks_below_leaves(rank, v, (k - 1) as nat, x);
    }
}

/// A task among the first `k` that is below `w` and not below `v` makes the
/// counts differ.
proof fn lemma_ranks_below_rises(rank: spec_fn(usize) -> nat, v: nat, w: nat, k: nat, x: usize)
    requires
        x < k,
        v <= rank(x) < w,
    ensures
        ranks_below(rank, v, k) < ranks_below(rank, w, k),
    decreases k,
{
    if k - 1 == x {
        lemma_ranks_below_grows(rank, v, w, (k - 1) as nat);
    } else {
        lemma_ranks_below_rises(rank, v, w, (k - 1) as nat, x);
    }
}

/// Edges without a cycle that join the first `n` tasks can be ranked with
/// ranks below `n`: a task's rank is the number of tasks that some ranking
/// puts below it.
pub proof fn lemma_ranked_below(edges: Set<(usize, usize)>, n: nat) -> (low: spec_fn(usize) -> nat)
    requires
        acyclic(edges),
        forall|e: (usize, usize)| #[trigger] edges.contains(e) ==> e.0 < n && e.1 < n,
    ensures
        ranked(edges, low),
        forall|t: usize| t < n ==> #[trigger] low(t) < n,
{
    let rank = choose|rank: spec_fn(usize) -> nat| ranked(edges, rank);
    let low = |t: usize| ranks_below(rank, rank(t), n);
    assert forall|e: (usize, usize)| #[trigger] edges.contains(e) implies low(e.0) < low(e.1) by {
        lemma_ranks_below_rises(rank, rank(e.0), rank(e.1), n, e.0);
    }
    assert forall|t: usize| t < n implies #[trigger] low(t) < n by {
        lemma_ranks_below_leaves(rank, rank(t), n, t);
    }
    low
}

/// Edges without a cycle have none where some are left out.
pub proof fn lemma_fewer_edges_acyclic(edges: Set<(usize, usize)>, fewer: Set<(usize, usize)>)
    requires
        acyclic(edges),
        fewer.subset_of(edges),
    ensures
        acyclic(fewer),
{
    let rank = choose|rank: spec_fn(usize) -> nat| ranked(edges, rank);
    assert forall|e: (usize, usize)| #[trigger] fewer.contains(e) implies rank(e.0) < rank(
        e.1,
    ) by {
        assert(edges.contains(e));
    }
    assert(ranked(fewer, rank));
}

/// Whether the edges, which join tasks with ids below `n`, have no cycle.
pub fn has_no_cycle(edges: &Vec<(usize, usize)>, n: usize) -> (r: bool)
    requires
        forall|i: int| 0 <= i < edges@.len() ==> (#[trigger] edges@[i]).0 < n && edges@[i].1 < n,
    ensures
        r == acyclic(edges@.to_set()),
{
    let mut seen: Vec<(usize, usize)> = Vec::new();
    let mut i: usize = 0;
    proof {
        assert(ranked(seen@.to_set(), |x: usize| 0nat));
    }
    while i < edges.len()
        invariant
            i <= edges.len(),
            seen@ == edges@.subrange(0, i as int),
            acyclic(seen@.to_set()),
            forall|k: int|
                0 <= k < edges@.len() ==> (#[trigger] edges@[k]).0 < n && edges@[k].1 < n,
        decreases edges.len() - i,
    {
        let up = edges[i].0;
        let down = edges[i].1;
        let ghost before = seen@.to_set();
        proof {
            assert forall|k: int| 0 <= k < seen@.len() implies (#[trigger] seen@[k]).0 < n
                && seen@[k].1 < n by {
                assert(seen@[k] == edges@[k]);
            }
        }
        if has_path(&seen, n, down, up) {
            proof {
                lemma_edge_closes_cycle(before, up, down);
                let more = before.insert((up, down));
                assert(more.subset_of(edges@.to_set())) by {
                    assert forall|e: (usize, usize)| more.contains(e) implies edges@.to_set().contains(
                        e,
                    ) by {
                        if e == (up, down) {
                            assert(edges@[i as int] == e);
                            assert(edges@.contains(e));
                        } else {
                            assert(seen@.contains(e));
                            let k = choose|k: int| 0 <= k < seen@.len() && seen@[k] == e;
                            assert(edges@[k] == e);
                            assert(edges@.contains(e));
                        }
                    }
                }
                if acyclic(edges@.to_set()) {
                    lemma_fewer_edges_acyclic(edges@.to_set(), more);
                }
            }
            return false;
        }
        seen.push((up, down));
        proof {
            lemma_edge_keeps_acyclic(before, up, down);
            assert(seen@ =~= edges@.subrange(0, i + 1));
            assert(seen@.to_set() =~= before.insert((up, down))) by {
                assert forall|e: (usize, usize)| seen@.to_set().contains(e) <==> before.insert(
                    (up, down),
                ).contains(e) by {
                    if seen@.contains(e) {
                        let k = choose|k: int| 0 <= k < seen@.len() && seen@[k] == e;
                        if k < i {
                            assert(edges@.subrange(0, i as int)[k] == e);
                            assert(edges@.subrange(0, i as int).contains(e));
                        }
                    }
                    if before.contains(e) {
                        let k = choose|k: int|
                            0 <= k < i && edges@.subrange(0, i as int)[k] == e;
                        assert(seen@[k] == e);
                    }
                    if e == (up, down) {
                        assert(seen@[i as int] == e);
                    }
                }
            }
        }
        i += 1;
    }
    proof {
        assert(seen@ =~= edges@);
    }
    true
}

} // verus!
