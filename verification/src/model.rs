//! The search as a function of its input: one step at a time, over plain
//! maps and sequences. The engine computes exactly this.

use crate::frontier::{first_min, lemma_first_min};
use crate::graph::{outgoing, Edge};
use vstd::prelude::*;

verus! {

/// What the search holds between two steps.
pub struct Progress {
    /// The best cost found so far for each discovered node.
    pub costs: Map<u64, u64>,
    /// The node from which each discovered node was reached at that cost.
    pub pred: Map<u64, u64>,
    /// The candidates `(cost, node)` not yet looked at, oldest first.
    pub frontier: Seq<(u64, u64)>,
    /// Whether the search goes on.
    pub running: bool,
}

/// The search before its first step: the origin at cost 0, and nothing else.
pub open spec fn start(origin: u64) -> Progress {
    Progress {
        costs: Map::empty().insert(origin, 0u64),
        pred: Map::empty(),
        frontier: Seq::empty().push((0u64, origin)),
        running: true,
    }
}

/// Relaxing one edge that leaves `position`, which was taken from the
/// frontier at `cost`: the edge's target is recorded, and becomes a
/// candidate, where the way over the edge is its first or is cheaper than
/// the one known. A way whose cost a `u64` cannot hold is left alone.
pub open spec fn relax_edge(p: Progress, cost: u64, position: u64, e: Edge) -> Progress {
    if cost + e.weight > u64::MAX {
        p
    } else {
        let c = (cost + e.weight) as u64;
        if !p.costs.contains_key(e.to) || c < p.costs[e.to] {
            Progress {
                costs: p.costs.insert(e.to, c),
                pred: p.pred.insert(e.to, position),
                frontier: p.frontier.push((c, e.to)),
                running: p.running,
            }
        } else {
            p
        }
    }
}

/// Relaxing the edges of `bucket` in order.
pub open spec fn relax(bucket: Seq<Edge>, cost: u64, position: u64, p: Progress) -> Progress
    decreases bucket.len(),
{
    if bucket.len() == 0 {
        p
    } else {
        relax_edge(relax(bucket.drop_last(), cost, position, p), cost, position, bucket.last())
    }
}

/// One step: the first cheapest candidate leaves the frontier. The search
/// stops when there is none or when it names the destination. A candidate
/// above its node's recorded cost is dropped; of any other, the node's
/// edges are relaxed.
pub open spec fn step(edges: Seq<Edge>, destination: u64, p: Progress) -> Progress {
    if !p.running {
        p
    } else if p.frontier.len() == 0 {
        Progress { costs: p.costs, pred: p.pred, frontier: p.frontier, running: false }
    } else {
        let i = first_min(p.frontier);
        let cost = p.frontier[i].0;
        let position = p.frontier[i].1;
        let rest = p.frontier.remove(i);
        if position == destination {
            Progress { costs: p.costs, pred: p.pred, frontier: rest, running: false }
        } else if p.costs.contains_key(position) && cost > p.costs[position] {
            Progress { costs: p.costs, pred: p.pred, frontier: rest, running: true }
        } else {
            relax(
                outgoing(edges, position),
                cost,
                position,
                Progress { costs: p.costs, pred: p.pred, frontier: rest, running: true },
            )
        }
    }
}

/// The search after `n` steps.
pub open spec fn run(edges: Seq<Edge>, origin: u64, destination: u64, n: nat) -> Progress
    decreases n,
{
    if n == 0 {
        start(origin)
    } else {
        step(edges, destination, run(edges, origin, destination, (n - 1) as nat))
    }
}

/// The search has stopped after `n` steps.
pub open spec fn halted(edges: Seq<Edge>, origin: u64, destination: u64, n: nat) -> bool {
    !run(edges, origin, destination, n).running
}

/// The search where it has stopped.
pub open spec fn outcome(edges: Seq<Edge>, origin: u64, destination: u64) -> Progress {
    run(edges, origin, destination, choose|n: nat| halted(edges, origin, destination, n))
}

/// From `a` to the later `b` nothing was lost: each node known in `a` is
/// known in `b` at a cost no higher, each predecessor set in `a` is still
/// set in `b`, and a predecessor that is new or has changed comes with a
/// cost that is new or strictly lower.
pub open spec fn no_worse(a: Progress, b: Progress) -> bool {
    &&& forall|v: u64| #[trigger]
        a.costs.contains_key(v) ==> b.costs.contains_key(v) && b.costs[v] <= a.costs[v]
    &&& forall|v: u64| #[trigger] a.pred.contains_key(v) ==> b.pred.contains_key(v)
    &&& forall|v: u64| #[trigger]
        b.pred.contains_key(v) && (!a.pred.contains_key(v) || b.pred[v] != a.pred[v])
            ==> b.costs.contains_key(v) && (a.costs.contains_key(v) ==> b.costs[v]
            < a.costs[v])
}

/// Relaxing edges loses nothing.
pub proof fn lemma_relax_no_worse(bucket: Seq<Edge>, cost: u64, position: u64, p: Progress)
    ensures
        no_worse(p, relax(bucket, cost, position, p)),
    decreases bucket.len(),
{
    if bucket.len() > 0 {
        let q = relax(bucket.drop_last(), cost, position, p);
        lemma_relax_no_worse(bucket.drop_last(), cost, position, p);
        assert(no_worse(q, relax_edge(q, cost, position, bucket.last())));
    }
}

/// A step of the search loses nothing: costs only fall, and a predecessor
/// changes only together with a fall of its node's cost.
pub proof fn lemma_step_no_worse(edges: Seq<Edge>, destination: u64, p: Progress)
    ensures
        no_worse(p, step(edges, destination, p)),
{
    if p.running && p.frontier.len() > 0 {
        let i = first_min(p.frontier);
        let rest = Progress {
            costs: p.costs,
            pred: p.pred,
            frontier: p.frontier.remove(i),
            running: true,
        };
        lemma_first_min(p.frontier);
        let cost = p.frontier[i].0;
        let position = p.frontier[i].1;
        let bucket = outgoing(edges, position);
        lemma_relax_no_worse(bucket, cost, position, rest);
        assert(no_worse(p, rest));
        assert(no_worse(rest, relax(bucket, cost, position, rest)));
    }
}

/// Once stopped, the search stays as it is.
pub proof fn lemma_halted_stays(edges: Seq<Edge>, origin: u64, destination: u64, n: nat, m: nat)
    requires
        halted(edges, origin, destination, n),
        n <= m,
    ensures
        run(edges, origin, destination, m) == run(edges, origin, destination, n),
    decreases m,
{
    if n < m {
        lemma_halted_stays(edges, origin, destination, n, (m - 1) as nat);
    }
}

/// Wherever the search is seen to have stopped, it is at its outcome.
pub proof fn lemma_outcome(edges: Seq<Edge>, origin: u64, destination: u64, n: nat)
    requires
        halted(edges, origin, destination, n),
    ensures
        outcome(edges, origin, destination) == run(edges, origin, destination, n),
{
    let k = choose|k: nat| halted(edges, origin, destination, k);
    if k <= n {
        lemma_halted_stays(edges, origin, destination, k, n);
    } else {
        lemma_halted_stays(edges, origin, destination, n, k);
    }
}

} // verus!
