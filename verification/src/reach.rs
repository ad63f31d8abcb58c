//! Graphs whose weights add up to what a `u64` holds: there, whatever can
//! be reached at all can be reached at a cost that a `u64` holds.

use crate::graph::{is_walk, lemma_walk_cost_nonnegative, reachable_within, walk_cost, Edge};
use vstd::prelude::*;

verus! {

/// The weights of all edges, added up.
pub open spec fn total_weight(edges: Seq<Edge>) -> int {
    walk_cost(edges)
}

/// The edges that do not leave `node`, in order.
pub open spec fn without_source(edges: Seq<Edge>, node: u64) -> Seq<Edge>
    decreases edges.len(),
{
    if edges.len() == 0 {
        Seq::empty()
    } else {
        let rest = without_source(edges.drop_last(), node);
        if edges.last().from == node {
            rest
        } else {
            rest.push(edges.last())
        }
    }
}

proof fn lemma_without_source_smaller(edges: Seq<Edge>, node: u64)
    ensures
        without_source(edges, node).len() <= edges.len(),
        total_weight(without_source(edges, node)) <= total_weight(edges),
    decreases edges.len(),
{
    if edges.len() > 0 {
        let rest = without_source(edges.drop_last(), node);
        lemma_without_source_smaller(edges.drop_last(), node);
        assert(rest.push(edges.last()).drop_last() =~= rest);
    }
}

proof fn lemma_without_source_contains(edges: Seq<Edge>, node: u64, e: Edge)
    ensures
        without_source(edges, node).contains(e) ==> edges.contains(e),
        edges.contains(e) && e.from != node ==> without_source(edges, node).contains(e),
    decreases edges.len(),
{
    if edges.len() > 0 {
        let init = edges.drop_last();
        let rest = without_source(init, node);
        let out = without_source(edges, node);
        lemma_without_source_contains(init, node, e);
        assert(edges[edges.len() - 1] == edges.last());
        if out.contains(e) {
            let i = choose|i: int| 0 <= i < out.len() && out[i] == e;
            if i < rest.len() {
                assert(rest[i] == e);
                let j = choose|j: int| 0 <= j < init.len() && init[j] == e;
                assert(edges[j] == e);
            }
        }
        if edges.contains(e) && e.from != node {
            let j = choose|j: int| 0 <= j < edges.len() && edges[j] == e;
            if j < init.len() {
                assert(init[j] == e);
                let i = choose|i: int| 0 <= i < rest.len() && rest[i] == e;
                assert(out[i] == e);
            } else {
                assert(out[rest.len() as int] == e);
            }
        }
    }
}

/// Leaving out the edges from `e.from` frees at least the weight of `e`.
proof fn lemma_without_source_frees(edges: Seq<Edge>, e: Edge)
    requires
        edges.contains(e),
    ensures
        without_source(edges, e.from).len() < edges.len(),
        total_weight(without_source(edges, e.from)) + e.weight <= total_weight(edges),
    decreases edges.len(),
{
    let init = edges.drop_last();
    let rest = without_source(init, e.from);
    lemma_without_source_smaller(init, e.from);
    assert(rest.push(edges.last()).drop_last() =~= rest);
    if edges.last() != e {
        let j = choose|j: int| 0 <= j < edges.len() && edges[j] == e;
        assert(init[j] == e);
        lemma_without_source_frees(init, e);
    }
}

/// A walk over fewer edges is a walk over all of them.
proof fn lemma_walk_with_source(edges: Seq<Edge>, node: u64, w: Seq<Edge>, from: u64, to: u64)
    requires
        is_walk(without_source(edges, node), w, from, to),
    ensures
        is_walk(edges, w, from, to),
    decreases w.len(),
{
    if w.len() > 0 {
        lemma_without_source_contains(edges, node, w.last());
        lemma_walk_with_source(edges, node, w.drop_last(), from, w.last().from);
    }
}

/// A walk with at least one edge can be cut down to an edge that leaves
/// its origin and a walk that never leaves the origin again.
proof fn lemma_last_departure(edges: Seq<Edge>, w: Seq<Edge>, from: u64, to: u64) -> (r: (
    Edge,
    Seq<Edge>,
))
    requires
        is_walk(edges, w, from, to),
        w.len() > 0,
    ensures
        edges.contains(r.0),
        r.0.from == from,
        is_walk(without_source(edges, from), r.1, r.0.to, to),
    decreases w.len(),
{
    let last = w.last();
    if last.from == from {
        (last, Seq::empty())
    } else {
        let init = w.drop_last();
        assert(is_walk(edges, init, from, last.from));
        assert(init.len() > 0) by {
            if init.len() == 0 {
                assert(from == last.from);
            }
        }
        let (e, s) = lemma_last_departure(edges, init, from, last.from);
        let longer = s.push(last);
        lemma_without_source_contains(edges, from, last);
        assert(longer.drop_last() =~= s);
        assert(longer.last() == last);
        (e, longer)
    }
}

/// Where a walk leads from `from` to `to`, one does that costs no more
/// than all edges together.
pub proof fn lemma_light_walk(edges: Seq<Edge>, w: Seq<Edge>, from: u64, to: u64) -> (v: Seq<Edge>)
    requires
        is_walk(edges, w, from, to),
    ensures
        is_walk(edges, v, from, to),
        walk_cost(v) <= total_weight(edges),
    decreases edges.len(),
{
    if w.len() == 0 {
        lemma_walk_cost_nonnegative(edges);
        w
    } else {
        let (e, s) = lemma_last_departure(edges, w, from, to);
        let fewer = without_source(edges, from);
        lemma_without_source_frees(edges, e);
        let t = lemma_light_walk(fewer, s, e.to, to);
        lemma_walk_with_source(edges, from, t, e.to, to);
        let v = seq![e] + t;
        lemma_walk_prepend(edges, e, t, to);
        v
    }
}

/// An edge of the graph in front of a walk from its target is a walk from
/// its origin, at the cost of both.
proof fn lemma_walk_prepend(edges: Seq<Edge>, e: Edge, t: Seq<Edge>, to: u64)
    requires
        edges.contains(e),
        is_walk(edges, t, e.to, to),
    ensures
        is_walk(edges, seq![e] + t, e.from, to),
        walk_cost(seq![e] + t) == e.weight + walk_cost(t),
    decreases t.len(),
{
    let v = seq![e] + t;
    if t.len() == 0 {
        assert(v.drop_last() =~= Seq::<Edge>::empty());
        assert(v.last() == e);
        assert(is_walk(edges, v.drop_last(), e.from, e.from));
        assert(walk_cost(v.drop_last()) == 0);
    } else {
        lemma_walk_prepend(edges, e, t.drop_last(), t.last().from);
        assert(v.drop_last() =~= seq![e] + t.drop_last());
        assert(v.last() == t.last());
    }
}

/// In a graph whose weights add up to what a `u64` holds, every node that
/// a walk reaches is reached at a cost that a `u64` holds: there, a
/// journey without an answer is one that no walk connects.
pub proof fn lemma_light_graph_reach(edges: Seq<Edge>, from: u64, to: u64)
    requires
        total_weight(edges) <= u64::MAX,
    ensures
        reachable_within(edges, from, to, u64::MAX as int) <==> exists|w: Seq<Edge>|
            is_walk(edges, w, from, to),
{
    if exists|w: Seq<Edge>| is_walk(edges, w, from, to) {
        let w = choose|w: Seq<Edge>| is_walk(edges, w, from, to);
        let v = lemma_light_walk(edges, w, from, to);
        assert(is_walk(edges, v, from, to) && walk_cost(v) <= u64::MAX);
    }
}

} // verus!
