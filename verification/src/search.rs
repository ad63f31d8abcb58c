//! The shortest-path engine: a cost-ordered search from one origin.

use crate::frontier::{first_min, lemma_first_min, Frontier};
use crate::graph::{
    is_lower_bound, is_shortest_route, is_walk, lemma_outgoing_contains,
    lemma_walk_cost_nonnegative, outgoing, reachable_within, reached_at, walk_cost, walk_nodes,
    Edge, GraphIndex,
};
use crate::model::{halted, lemma_outcome, outcome, relax, run, Progress};
use crate::route::chain;
use std::collections::HashMap;
use vstd::prelude::*;
use vstd::std_specs::hash::*;

verus! {

broadcast use group_hash_axioms;

/// What a search knows at one moment: the best cost found for each
/// discovered node, the node each was reached from, the nodes whose cost is
/// final, and the order in which those became final.
pub struct SearchState {
    pub costs: Map<u64, u64>,
    pub pred: Map<u64, u64>,
    pub done: Set<u64>,
    pub rank: Map<u64, nat>,
}

/// The edge `e` offers no improvement: its target is known at a cost no
/// higher than the way over `e`, unless that way costs more than a `u64`
/// holds.
pub open spec fn relaxed(costs: Map<u64, u64>, e: Edge) -> bool {
    &&& costs.contains_key(e.from)
    &&& costs[e.from] + e.weight <= u64::MAX ==> costs.contains_key(e.to) && costs[e.to]
        <= costs[e.from] + e.weight
}

/// Some edge leads from `p` to `v` and accounts for the difference of
/// their costs.
pub open spec fn linked(edges: Seq<Edge>, p: u64, v: u64, cp: int, cv: int) -> bool {
    exists|e: Edge| edges.contains(e) && e.from == p && e.to == v && cp + e.weight == cv
}

/// The costs are costs of walks, the predecessors form a tree rooted at
/// the origin whose finished part is ordered by rank, and the costs of
/// finished nodes are least.
pub open spec fn tree_inv(edges: Seq<Edge>, origin: u64, st: SearchState) -> bool {
    &&& st.costs.contains_key(origin)
    &&& st.costs[origin] == 0
    &&& !st.pred.contains_key(origin)
    &&& st.done.finite()
    &&& forall|v: u64| #[trigger]
        st.costs.contains_key(v) ==> reached_at(edges, origin, v, st.costs[v] as int) && (v
            != origin ==> st.pred.contains_key(v))
    &&& forall|v: u64| #[trigger]
        st.pred.contains_key(v) ==> {
            &&& st.costs.contains_key(v)
            &&& st.done.contains(st.pred[v])
            &&& linked(edges, st.pred[v], v, st.costs[st.pred[v]] as int, st.costs[v] as int)
            &&& st.done.contains(v) ==> st.rank[st.pred[v]] < st.rank[v]
        }
    &&& forall|u: u64| #[trigger]
        st.done.contains(u) ==> {
            &&& st.costs.contains_key(u)
            &&& is_lower_bound(edges, origin, u, st.costs[u] as int)
            &&& st.rank[u] < st.done.len()
        }
}

/// Every edge that leaves a finished node outside `skip` is relaxed.
pub open spec fn relaxed_inv(edges: Seq<Edge>, st: SearchState, skip: Set<u64>) -> bool {
    forall|e: Edge| #[trigger]
        edges.contains(e) && st.done.contains(e.from) && !skip.contains(e.from) ==> relaxed(
            st.costs,
            e,
        )
}

/// No candidate undercuts the cost of its node, those of finished nodes
/// exceed it, every unfinished discovered node has a candidate at its
/// cost, and no candidate occurs twice.
pub open spec fn frontier_inv(st: SearchState, f: Seq<(u64, u64)>) -> bool {
    &&& forall|i: int|
        0 <= i < f.len() ==> {
            &&& st.costs.contains_key((#[trigger] f[i]).1)
            &&& f[i].0 >= st.costs[f[i].1]
            &&& st.done.contains(f[i].1) ==> f[i].0 > st.costs[f[i].1]
        }
    &&& forall|v: u64| #[trigger]
        st.costs.contains_key(v) && !st.done.contains(v) ==> f.contains((st.costs[v], v))
    &&& forall|i: int, j: int| 0 <= i < j < f.len() ==> #[trigger] f[i] != #[trigger] f[j]
}

/// The number of edges whose origin is not finished.
pub open spec fn pending(edges: Seq<Edge>, done: Set<u64>) -> nat
    decreases edges.len(),
{
    if edges.len() == 0 {
        0
    } else {
        pending(edges.drop_last(), done) + if done.contains(edges.last().from) {
            0nat
        } else {
            1nat
        }
    }
}

/// The running search that holds these costs, predecessors and candidates.
pub open spec fn snapshot(
    costs: Map<u64, u64>,
    pred: Map<u64, u64>,
    frontier: Seq<(u64, u64)>,
) -> Progress {
    Progress { costs, pred, frontier, running: true }
}

/// The state after `u` has become final.
pub open spec fn settled(st: SearchState, u: u64) -> SearchState {
    SearchState {
        costs: st.costs,
        pred: st.pred,
        done: st.done.insert(u),
        rank: st.rank.insert(u, st.done.len()),
    }
}

/// The state after `v` has been found at cost `c` over an edge from `u`.
pub open spec fn improved(st: SearchState, u: u64, v: u64, c: u64) -> SearchState {
    SearchState {
        costs: st.costs.insert(v, c),
        pred: st.pred.insert(v, u),
        done: st.done,
        rank: st.rank,
    }
}

/// Finishing a node takes its outgoing edges out of the pending ones.
proof fn lemma_pending_settle(edges: Seq<Edge>, done: Set<u64>, u: u64)
    requires
        !done.contains(u),
    ensures
        pending(edges, done.insert(u)) + outgoing(edges, u).len() == pending(edges, done),
    decreases edges.len(),
{
    if edges.len() > 0 {
        lemma_pending_settle(edges.drop_last(), done, u);
    }
}

/// Any walk that ends outside the finished nodes and whose cost a `u64`
/// holds costs at least as much as the cheapest candidate.
proof fn lemma_frontier_bound(
    edges: Seq<Edge>,
    origin: u64,
    st: SearchState,
    f: Seq<(u64, u64)>,
    bound: int,
    w: Seq<Edge>,
    v: u64,
)
    requires
        tree_inv(edges, origin, st),
        relaxed_inv(edges, st, Set::empty()),
        frontier_inv(st, f),
        forall|j: int| 0 <= j < f.len() ==> bound <= (#[trigger] f[j]).0,
        is_walk(edges, w, origin, v),
        !st.done.contains(v),
        walk_cost(w) <= u64::MAX,
    ensures
        bound <= walk_cost(w),
    decreases w.len(),
{
    if w.len() == 0 {
        assert(st.costs.contains_key(origin));
        assert(f.contains((st.costs[origin], origin)));
        let j = choose|j: int| 0 <= j < f.len() && f[j] == (st.costs[origin], origin);
        assert(bound <= f[j].0);
    } else {
        let e = w.last();
        let init = w.drop_last();
        lemma_walk_cost_nonnegative(init);
        if st.done.contains(e.from) {
            assert(is_lower_bound(edges, origin, e.from, st.costs[e.from] as int));
            assert(is_walk(edges, init, origin, e.from));
            assert(st.costs[e.from] <= walk_cost(init));
            assert(edges.contains(e));
            assert(!Set::<u64>::empty().contains(e.from));
            assert(relaxed(st.costs, e));
            assert(st.costs.contains_key(v));
            assert(f.contains((st.costs[v], v)));
            let j = choose|j: int| 0 <= j < f.len() && f[j] == (st.costs[v], v);
            assert(bound <= f[j].0);
        } else {
            lemma_frontier_bound(edges, origin, st, f, bound, init, e.from);
        }
    }
}

/// Taking out a candidate that is not the one at its node's cost keeps
/// the frontier in order.
proof fn lemma_drop_stale(st: SearchState, f: Seq<(u64, u64)>, i: int)
    requires
        frontier_inv(st, f),
        0 <= i < f.len(),
        f[i].0 != st.costs[f[i].1] || st.done.contains(f[i].1),
    ensures
        frontier_inv(st, f.remove(i)),
{
    let g = f.remove(i);
    assert forall|k: int| 0 <= k < g.len() implies {
        &&& st.costs.contains_key((#[trigger] g[k]).1)
        &&& g[k].0 >= st.costs[g[k].1]
        &&& st.done.contains(g[k].1) ==> g[k].0 > st.costs[g[k].1]
    } by {
        if k < i {
            assert(g[k] == f[k]);
        } else {
            assert(g[k] == f[k + 1]);
        }
    }
    assert forall|v: u64| #[trigger]
        st.costs.contains_key(v) && !st.done.contains(v) implies g.contains((st.costs[v], v)) by {
        let j = choose|j: int| 0 <= j < f.len() && f[j] == (st.costs[v], v);
        if j < i {
            assert(g[j] == f[j]);
        } else {
            assert(j != i);
            assert(g[j - 1] == f[j]);
        }
    }
    assert forall|a: int, b: int| 0 <= a < b < g.len() implies #[trigger] g[a] != #[trigger] g[b] by {
        let fa = if a < i { a } else { a + 1 };
        let fb = if b < i { b } else { b + 1 };
        assert(g[a] == f[fa]);
        assert(g[b] == f[fb]);
        assert(f[fa] != f[fb]);
    }
}

/// The cheapest candidate, where it stands at its node's cost, names a
/// node that was not finished and whose cost is least; finishing it keeps
/// the search in order, with that node's edges still to relax.
proof fn lemma_settle(edges: Seq<Edge>, origin: u64, st: SearchState, f: Seq<(u64, u64)>, u: u64)
    requires
        tree_inv(edges, origin, st),
        relaxed_inv(edges, st, Set::empty()),
        frontier_inv(st, f),
        f.len() > 0,
        f[first_min(f)].1 == u,
        f[first_min(f)].0 == st.costs[u],
    ensures
        !st.done.contains(u),
        st.done.insert(u).len() == st.done.len() + 1,
        tree_inv(edges, origin, settled(st, u)),
        relaxed_inv(edges, settled(st, u), set![u]),
        frontier_inv(settled(st, u), f.remove(first_min(f))),
{
    let i = first_min(f);
    let c = f[i].0;
    let nx = settled(st, u);
    lemma_first_min(f);
    assert(st.costs.contains_key(f[i].1));
    assert(!st.done.contains(u));
    assert forall|w: Seq<Edge>| is_walk(edges, w, origin, u) implies c <= walk_cost(w) by {
        if walk_cost(w) <= u64::MAX {
            lemma_frontier_bound(edges, origin, st, f, c as int, w, u);
        }
    }
    assert(is_lower_bound(edges, origin, u, st.costs[u] as int));
    assert(nx.done.len() == st.done.len() + 1);
    assert forall|v: u64| #[trigger] nx.pred.contains_key(v) implies {
        &&& nx.costs.contains_key(v)
        &&& nx.done.contains(nx.pred[v])
        &&& linked(edges, nx.pred[v], v, nx.costs[nx.pred[v]] as int, nx.costs[v] as int)
        &&& nx.done.contains(v) ==> nx.rank[nx.pred[v]] < nx.rank[v]
    } by {
        assert(st.pred.contains_key(v));
        assert(st.done.contains(st.pred[v]));
    }
    assert(tree_inv(edges, origin, nx));
    let g = f.remove(i);
    assert forall|k: int| 0 <= k < g.len() implies {
        &&& nx.costs.contains_key((#[trigger] g[k]).1)
        &&& g[k].0 >= nx.costs[g[k].1]
        &&& nx.done.contains(g[k].1) ==> g[k].0 > nx.costs[g[k].1]
    } by {
        let fk = if k < i { k } else { k + 1 };
        assert(g[k] == f[fk]);
        if fk < i {
            assert(f[fk] != f[i]);
        } else {
            assert(f[i] != f[fk]);
        }
    }
    assert forall|v: u64| #[trigger]
        nx.costs.contains_key(v) && !nx.done.contains(v) implies g.contains((nx.costs[v], v)) by {
        assert(st.costs.contains_key(v) && !st.done.contains(v));
        let j = choose|j: int| 0 <= j < f.len() && f[j] == (st.costs[v], v);
        if j < i {
            assert(g[j] == f[j]);
        } else {
            assert(j != i);
            assert(g[j - 1] == f[j]);
        }
    }
    assert forall|a: int, b: int| 0 <= a < b < g.len() implies #[trigger] g[a] != #[trigger] g[b] by {
        let fa = if a < i { a } else { a + 1 };
        let fb = if b < i { b } else { b + 1 };
        assert(g[a] == f[fa]);
        assert(g[b] == f[fb]);
        assert(f[fa] != f[fb]);
    }
}

/// Recording a cheaper way to `e.to` over the edge `e`, which leaves the
/// finished node `e.from`, keeps the search in order, relaxes `e` and
/// undoes no relaxation.
proof fn lemma_improve(
    edges: Seq<Edge>,
    origin: u64,
    st: SearchState,
    f: Seq<(u64, u64)>,
    e: Edge,
    c: u64,
)
    requires
        tree_inv(edges, origin, st),
        frontier_inv(st, f),
        edges.contains(e),
        st.done.contains(e.from),
        c == st.costs[e.from] + e.weight,
        !st.costs.contains_key(e.to) || c < st.costs[e.to],
    ensures
        !st.done.contains(e.to),
        tree_inv(edges, origin, improved(st, e.from, e.to, c)),
        frontier_inv(improved(st, e.from, e.to, c), f.push((c, e.to))),
        relaxed(improved(st, e.from, e.to, c).costs, e),
        forall|d: Edge|
            st.done.contains(d.from) && #[trigger] relaxed(st.costs, d) ==> relaxed(
                improved(st, e.from, e.to, c).costs,
                d,
            ),
{
    let u = e.from;
    let v = e.to;
    let nx = improved(st, u, v, c);
    assert(st.costs.contains_key(u));
    let wu = choose|w: Seq<Edge>| is_walk(edges, w, origin, u) && walk_cost(w) == st.costs[u];
    let wv = wu.push(e);
    assert(wv.drop_last() =~= wu);
    assert(wv.last() == e);
    assert(is_walk(edges, wv, origin, v));
    assert(walk_cost(wv) == c);
    if st.done.contains(v) {
        assert(is_lower_bound(edges, origin, v, st.costs[v] as int));
        assert(false);
    }
    assert(v != u);
    assert(v != origin);
    assert forall|x: u64| #[trigger] nx.costs.contains_key(x) implies reached_at(
        edges,
        origin,
        x,
        nx.costs[x] as int,
    ) && (x != origin ==> nx.pred.contains_key(x)) by {
        if x != v {
            assert(st.costs.contains_key(x));
        }
    }
    assert forall|x: u64| #[trigger] nx.pred.contains_key(x) implies {
        &&& nx.costs.contains_key(x)
        &&& nx.done.contains(nx.pred[x])
        &&& linked(edges, nx.pred[x], x, nx.costs[nx.pred[x]] as int, nx.costs[x] as int)
        &&& nx.done.contains(x) ==> nx.rank[nx.pred[x]] < nx.rank[x]
    } by {
        if x != v {
            assert(st.pred.contains_key(x));
            assert(st.done.contains(st.pred[x]));
        }
    }
    assert forall|x: u64| #[trigger] nx.done.contains(x) implies {
        &&& nx.costs.contains_key(x)
        &&& is_lower_bound(edges, origin, x, nx.costs[x] as int)
        &&& nx.rank[x] < nx.done.len()
    } by {
        assert(st.done.contains(x));
    }
    assert(tree_inv(edges, origin, nx));
    let g = f.push((c, v));
    assert forall|k: int| 0 <= k < g.len() implies {
        &&& nx.costs.contains_key((#[trigger] g[k]).1)
        &&& g[k].0 >= nx.costs[g[k].1]
        &&& nx.done.contains(g[k].1) ==> g[k].0 > nx.costs[g[k].1]
    } by {
        if k < f.len() {
            assert(g[k] == f[k]);
        }
    }
    assert forall|x: u64| #[trigger]
        nx.costs.contains_key(x) && !nx.done.contains(x) implies g.contains((nx.costs[x], x)) by {
        if x == v {
            assert(g[f.len() as int] == (c, v));
        } else {
            assert(st.costs.contains_key(x));
            let j = choose|j: int| 0 <= j < f.len() && f[j] == (st.costs[x], x);
            assert(g[j] == f[j]);
        }
    }
    assert forall|a: int, b: int| 0 <= a < b < g.len() implies #[trigger] g[a] != #[trigger] g[b] by {
        assert(g[a] == f[a]);
        if b < f.len() {
            assert(g[b] == f[b]);
        }
    }
}

/// A finished node is the end of a walk at its cost, and following the
/// predecessors back from it gives the nodes of that walk.
proof fn lemma_chain(edges: Seq<Edge>, origin: u64, st: SearchState, v: u64, fuel: nat) -> (w: Seq<
    Edge,
>)
    requires
        tree_inv(edges, origin, st),
        st.done.contains(v),
        fuel >= st.rank[v],
    ensures
        is_walk(edges, w, origin, v),
        walk_cost(w) == st.costs[v],
        chain(st.pred, origin, v, fuel) == Some(walk_nodes(origin, w)),
    decreases st.rank[v],
{
    if v == origin {
        Seq::empty()
    } else {
        assert(st.costs.contains_key(v));
        assert(st.pred.contains_key(v));
        let p = st.pred[v];
        let e = choose|e: Edge|
            edges.contains(e) && e.from == p && e.to == v && st.costs[p] + e.weight
                == st.costs[v];
        let wp = lemma_chain(edges, origin, st, p, (fuel - 1) as nat);
        let w = wp.push(e);
        assert(w.drop_last() =~= wp);
        assert(w.last() == e);
        w
    }
}

/// What a finished search has to show for `destination`: it has a cost
/// exactly if some walk reaches it at a cost that a `u64` holds, that cost
/// is the least of any walk, and the predecessors lead back along a
/// cheapest walk.
pub open spec fn search_result(
    edges: Seq<Edge>,
    origin: u64,
    destination: u64,
    costs: Map<u64, u64>,
    pred: Map<u64, u64>,
) -> bool {
    &&& costs.contains_key(destination) <==> reachable_within(
        edges,
        origin,
        destination,
        u64::MAX as int,
    )
    &&& costs.contains_key(destination) ==> {
        &&& reached_at(edges, origin, destination, costs[destination] as int)
        &&& is_lower_bound(edges, origin, destination, costs[destination] as int)
    }
    &&& match chain(pred, origin, destination, pred.len()) {
        Some(r) => costs.contains_key(destination) && is_shortest_route(
            edges,
            r,
            origin,
            destination,
        ),
        None => !costs.contains_key(destination),
    }
}

/// A search that has finished `destination` has its result.
proof fn lemma_result_reached(edges: Seq<Edge>, origin: u64, st: SearchState, destination: u64)
    requires
        tree_inv(edges, origin, st),
        st.done.contains(destination),
        st.costs.dom().finite(),
        st.pred.dom().finite(),
    ensures
        search_result(edges, origin, destination, st.costs, st.pred),
{
    assert(st.done.subset_of(st.costs.dom())) by {
        assert forall|u: u64| st.done.contains(u) implies st.costs.dom().contains(u) by {
            assert(st.costs.contains_key(u));
        }
    }
    vstd::set_lib::lemma_len_subset(st.done, st.costs.dom());
    assert(st.costs.dom() =~= st.pred.dom().insert(origin)) by {
        assert forall|v: u64| st.costs.dom().contains(v) <==> st.pred.dom().insert(
            origin,
        ).contains(v) by {
            if st.costs.contains_key(v) {
            }
            if st.pred.contains_key(v) {
            }
        }
    }
    assert(st.costs.dom().len() == st.pred.dom().len() + 1);
    let w = lemma_chain(edges, origin, st, destination, st.pred.len());
    assert(is_lower_bound(edges, origin, destination, st.costs[destination] as int));
    assert(is_shortest_route(edges, walk_nodes(origin, w), origin, destination));
}

/// A search that has run out of candidates without discovering
/// `destination` has its result.
proof fn lemma_result_exhausted(edges: Seq<Edge>, origin: u64, st: SearchState, destination: u64)
    requires
        tree_inv(edges, origin, st),
        relaxed_inv(edges, st, Set::empty()),
        frontier_inv(st, Seq::empty()),
        !st.done.contains(destination),
    ensures
        search_result(edges, origin, destination, st.costs, st.pred),
{
    let f = Seq::<(u64, u64)>::empty();
    if st.costs.contains_key(destination) {
        assert(f.contains((st.costs[destination], destination)));
        assert(false);
    }
    assert forall|w: Seq<Edge>| is_walk(edges, w, origin, destination) implies walk_cost(w)
        > u64::MAX by {
        if walk_cost(w) <= u64::MAX {
            lemma_frontier_bound(edges, origin, st, f, u64::MAX + 1, w, destination);
        }
    }
    assert(destination != origin);
    assert(!st.pred.contains_key(destination));
}

/// Relaxes the edges of `bucket`, the edges that leave `position`, which
/// was taken from the frontier at `cost`: each target that the way over
/// its edge reaches for the first time, or at a lower cost than known, is
/// recorded with `position` as its predecessor and becomes a candidate.
fn relax_bucket(
    bucket: &Vec<Edge>,
    cost: u64,
    position: u64,
    costs: &mut HashMap<u64, u64>,
    pred: &mut HashMap<u64, u64>,
    frontier: &mut Frontier,
    Ghost(edges): Ghost<Seq<Edge>>,
    Ghost(origin): Ghost<u64>,
    Ghost(before): Ghost<SearchState>,
) -> (after: Ghost<SearchState>)
    requires
        bucket@ == outgoing(edges, position),
        before.costs == old(costs)@,
        before.pred == old(pred)@,
        tree_inv(edges, origin, before),
        frontier_inv(before, old(frontier)@),
        relaxed_inv(edges, before, set![position]),
        before.done.contains(position),
        before.costs[position] == cost,
    ensures
        after@.costs == final(costs)@,
        after@.pred == final(pred)@,
        after@.done == before.done,
        tree_inv(edges, origin, after@),
        frontier_inv(after@, final(frontier)@),
        relaxed_inv(edges, after@, Set::empty()),
        final(frontier)@.len() <= old(frontier)@.len() + bucket@.len(),
        snapshot(final(costs)@, final(pred)@, final(frontier)@) == relax(
            bucket@,
            cost,
            position,
            snapshot(old(costs)@, old(pred)@, old(frontier)@),
        ),
{
    let ghost base = snapshot(costs@, pred@, frontier@);
    let ghost start_len = frontier@.len();
    let ghost mut st = before;
    proof {
        assert forall|j: int| 0 <= j < bucket@.len() implies (#[trigger] bucket@[j]).from
            == position && edges.contains(bucket@[j]) by {
            assert(bucket@.contains(bucket@[j]));
            lemma_outgoing_contains(edges, position, bucket@[j]);
        }
    }
    let mut k: usize = 0;
    while k < bucket.len()
        invariant
            k <= bucket.len(),
            st.costs == costs@,
            st.pred == pred@,
            st.done == before.done,
            st.done.contains(position),
            st.costs[position] == cost,
            tree_inv(edges, origin, st),
            frontier_inv(st, frontier@),
            relaxed_inv(edges, st, set![position]),
            frontier@.len() <= start_len + k,
            snapshot(costs@, pred@, frontier@) == relax(
                bucket@.take(k as int),
                cost,
                position,
                base,
            ),
            forall|j: int|
                0 <= j < bucket@.len() ==> (#[trigger] bucket@[j]).from == position
                    && edges.contains(bucket@[j]),
            forall|j: int| 0 <= j < k ==> relaxed(st.costs, #[trigger] bucket@[j]),
        decreases bucket.len() - k,
    {
        let edge = bucket[k];
        proof {
            assert(edge == bucket@[k as int]);
            assert(st.costs.contains_key(position));
            let next = bucket@.take(k as int + 1);
            assert(next.drop_last() =~= bucket@.take(k as int));
            assert(next.last() == edge);
        }
        match cost.checked_add(edge.weight) {
            None => {},
            Some(candidate) => {
                let better = match costs.get(&edge.to) {
                    Some(known) => candidate < *known,
                    None => true,
                };
                if better {
                    proof {
                        lemma_improve(edges, origin, st, frontier@, edge, candidate);
                        st = improved(st, position, edge.to, candidate);
                    }
                    frontier.push(candidate, edge.to);
                    costs.insert(edge.to, candidate);
                    pred.insert(edge.to, position);
                }
            },
        }
        k += 1;
    }
    proof {
        assert(bucket@.take(bucket@.len() as int) =~= bucket@);
        assert forall|e: Edge| #[trigger] edges.contains(e) && e.from == position implies relaxed(
            st.costs,
            e,
        ) by {
            lemma_outgoing_contains(edges, position, e);
            let j = choose|j: int| 0 <= j < bucket@.len() && bucket@[j] == e;
            assert(relaxed(st.costs, bucket@[j]));
        }
    }
    Ghost(st)
}

/// Searches from `origin` in order of cost until `destination` comes up or
/// nothing is left to look at. Returns the best cost found for each
/// discovered node and the node each was reached from. A way whose cost a
/// `u64` cannot hold is not followed.
pub fn find(graph: &GraphIndex, origin: u64, destination: u64) -> (r: (
    HashMap<u64, u64>,
    HashMap<u64, u64>,
))
    requires
        graph.wf(),
    ensures
        r.0@ == outcome(graph@, origin, destination).costs,
        r.1@ == outcome(graph@, origin, destination).pred,
        search_result(graph@, origin, destination, r.0@, r.1@),
{
    let mut costs: HashMap<u64, u64> = HashMap::new();
    let mut pred: HashMap<u64, u64> = HashMap::new();
    let mut frontier = Frontier::new();
    costs.insert(origin, 0);
    frontier.push(0, origin);
    let ghost mut st = SearchState {
        costs: costs@,
        pred: pred@,
        done: Set::empty(),
        rank: Map::empty(),
    };
    proof {
        let e: Seq<Edge> = Seq::empty();
        assert(is_walk(graph@, e, origin, origin) && walk_cost(e) == 0);
        assert(frontier@[0] == (0u64, origin));
        assert(tree_inv(graph@, origin, st));
        assert(frontier_inv(st, frontier@));
    }
    let mut running = true;
    let ghost mut steps: nat = 0;
    while running
        invariant
            graph.wf(),
            running ==> snapshot(costs@, pred@, frontier@) == run(
                graph@,
                origin,
                destination,
                steps,
            ),
            !running ==> halted(graph@, origin, destination, steps),
            !running ==> costs@ == run(graph@, origin, destination, steps).costs,
            !running ==> pred@ == run(graph@, origin, destination, steps).pred,
            st.costs == costs@,
            st.pred == pred@,
            tree_inv(graph@, origin, st),
            running ==> relaxed_inv(graph@, st, Set::empty()) && frontier_inv(st, frontier@),
            !running ==> search_result(graph@, origin, destination, costs@, pred@),
        decreases pending(graph@, st.done) + frontier@.len() + if running { 1nat } else { 0nat },
    {
        let ghost before = frontier@;
        let ghost at = first_min(before);
        proof {
            steps = steps + 1;
        }
        match frontier.pop_min() {
            None => {
                proof {
                    if st.done.contains(destination) {
                        lemma_result_reached(graph@, origin, st, destination);
                    } else {
                        assert(frontier@ =~= Seq::empty());
                        lemma_result_exhausted(graph@, origin, st, destination);
                    }
                }
                running = false;
            },
            Some((cost, position)) => {
                proof {
                    lemma_first_min(before);
                    assert(st.costs.contains_key(before[at].1));
                }
                if position == destination {
                    proof {
                        if !st.done.contains(destination) {
                            assert(before.contains((st.costs[destination], destination)));
                            let j = choose|j: int|
                                0 <= j < before.len() && before[j] == (
                                    st.costs[destination],
                                    destination,
                                );
                            assert(before[at].0 <= before[j].0);
                            lemma_settle(graph@, origin, st, before, destination);
                            lemma_pending_settle(graph@, st.done, destination);
                            st = settled(st, destination);
                        }
                        lemma_result_reached(graph@, origin, st, destination);
                    }
                    running = false;
                } else {
                    let stale = match costs.get(&position) {
                        Some(known) => cost > *known,
                        None => false,
                    };
                    if stale {
                        proof {
                            lemma_drop_stale(st, before, at);
                        }
                    } else {
                        proof {
                            lemma_settle(graph@, origin, st, before, position);
                            lemma_pending_settle(graph@, st.done, position);
                            st = settled(st, position);
                        }
                        match graph.outgoing(position) {
                            None => {
                                proof {
                                    assert forall|e: Edge| #[trigger]
                                        graph@.contains(e) && e.from == position implies false by {
                                        lemma_outgoing_contains(graph@, position, e);
                                    }
                                    assert(outgoing(graph@, position) =~= Seq::empty());
                                }
                            },
                            Some(bucket) => {
                                let next = relax_bucket(
                                    bucket,
                                    cost,
                                    position,
                                    &mut costs,
                                    &mut pred,
                                    &mut frontier,
                                    Ghost(graph@),
                                    Ghost(origin),
                                    Ghost(st),
                                );
                                proof {
                                    st = next@;
                                }
                            },
                        }
                    }
                }
            },
        }
    }
    proof {
        lemma_outcome(graph@, origin, destination, steps);
    }
    (costs, pred)
}

} // verus!
