//! Journeys: requests for a route between two nodes, and their answers.

use crate::graph::{
    is_cheapest_walk, is_lower_bound, is_shortest_route, is_walk, lemma_walk_cost_nonnegative,
    lemma_walk_nodes_ends, reachable_within, walk_cost, walk_nodes, Edge, GraphIndex,
};
use crate::model::outcome;
use crate::reach::{lemma_light_graph_reach, total_weight};
use crate::route::{chain, reconstruct};
use crate::search::find;
use vstd::prelude::*;

verus! {

/// A request for a route from `from` to `to`, and, once answered, the
/// route: the nodes of a cheapest walk, or `None` where there is none.
#[derive(Clone, Debug, PartialEq, Eq)]
pub struct Journey {
    pub from: u64,
    pub to: u64,
    pub route: Option<Vec<u64>>,
}

/// `route` is the right answer for a journey from `from` to `to`: the
/// nodes of a cheapest walk where one exists at a cost that a `u64` holds,
/// nothing where none does.
pub open spec fn is_answer(edges: Seq<Edge>, from: u64, to: u64, route: Option<Vec<u64>>) -> bool {
    match route {
        Some(r) => is_shortest_route(edges, r@, from, to) && reachable_within(
            edges,
            from,
            to,
            u64::MAX as int,
        ),
        None => !reachable_within(edges, from, to, u64::MAX as int),
    }
}

/// The route that the search gives for a journey from `from` to `to`: the
/// way back from `to` along the predecessors that the search ends with.
pub open spec fn route_of(edges: Seq<Edge>, from: u64, to: u64) -> Option<Seq<u64>> {
    let pred = outcome(edges, from, to).pred;
    chain(pred, from, to, pred.len())
}

/// A route as a sequence of nodes.
pub open spec fn route_view(route: Option<Vec<u64>>) -> Option<Seq<u64>> {
    match route {
        Some(r) => Some(r@),
        None => None,
    }
}

/// `out` answers `journeys` over `edges`: one answer for each request, in
/// the same order, between the same two nodes, with the route that the
/// search gives.
pub open spec fn solved(edges: Seq<Edge>, journeys: Seq<Journey>, out: Seq<Journey>) -> bool {
    &&& out.len() == journeys.len()
    &&& forall|i: int|
        0 <= i < out.len() ==> {
            &&& (#[trigger] out[i]).from == journeys[i].from
            &&& out[i].to == journeys[i].to
            &&& route_view(out[i].route) == route_of(edges, out[i].from, out[i].to)
        }
}

/// The nodes of a cheapest walk from `start` to `goal`; `None` exactly when
/// no walk leads from `start` to `goal` at a cost that a `u64` holds. A
/// journey from a node to itself is that node alone.
pub fn shortest_path(graph: &GraphIndex, start: u64, goal: u64) -> (r: Option<Vec<u64>>)
    requires
        graph.wf(),
    ensures
        route_view(r) == route_of(graph@, start, goal),
        is_answer(graph@, start, goal, r),
        start == goal ==> r.is_some() && r.unwrap()@ == seq![start],
{
    let (_costs, pred) = find(graph, start, goal);
    reconstruct(&pred, start, goal)
}

/// Answers each journey on its own, in the order given. What a request
/// holds as its route is not read.
pub fn solve_journeys(graph: &GraphIndex, journeys: &Vec<Journey>) -> (out: Vec<Journey>)
    requires
        graph.wf(),
    ensures
        solved(graph@, journeys@, out@),
        forall|i: int|
            0 <= i < out@.len() ==> {
                &&& (#[trigger] out@[i]).from == journeys@[i].from
                &&& out@[i].to == journeys@[i].to
                &&& is_answer(graph@, out@[i].from, out@[i].to, out@[i].route)
                &&& out@[i].from == out@[i].to ==> out@[i].route.is_some()
                    && out@[i].route.unwrap()@ == seq![out@[i].from]
            },
{
    let mut out: Vec<Journey> = Vec::new();
    let mut i: usize = 0;
    while i < journeys.len()
        invariant
            graph.wf(),
            i <= journeys.len(),
            out@.len() == i,
            forall|k: int|
                0 <= k < i ==> route_view((#[trigger] out@[k]).route) == route_of(
                    graph@,
                    out@[k].from,
                    out@[k].to,
                ),
            forall|k: int|
                0 <= k < i ==> {
                    &&& (#[trigger] out@[k]).from == journeys@[k].from
                    &&& out@[k].to == journeys@[k].to
                    &&& is_answer(graph@, out@[k].from, out@[k].to, out@[k].route)
                    &&& out@[k].from == out@[k].to ==> out@[k].route.is_some()
                        && out@[k].route.unwrap()@ == seq![out@[k].from]
                },
        decreases journeys.len() - i,
    {
        let from = journeys[i].from;
        let to = journeys[i].to;
        let route = shortest_path(graph, from, to);
        out.push(Journey { from, to, route });
        i += 1;
    }
    out
}

/// Solving the same journeys over the same graph again gives the same
/// answers: any two results of it agree entry by entry.
pub proof fn lemma_solving_is_repeatable(
    edges: Seq<Edge>,
    journeys: Seq<Journey>,
    a: Seq<Journey>,
    b: Seq<Journey>,
)
    requires
        solved(edges, journeys, a),
        solved(edges, journeys, b),
    ensures
        a.len() == b.len(),
        forall|i: int|
            0 <= i < a.len() ==> {
                &&& (#[trigger] a[i]).from == b[i].from
                &&& a[i].to == b[i].to
                &&& route_view(a[i].route) == route_view(b[i].route)
            },
{
    assert forall|i: int| 0 <= i < a.len() implies {
        &&& (#[trigger] a[i]).from == b[i].from
        &&& a[i].to == b[i].to
        &&& route_view(a[i].route) == route_view(b[i].route)
    } by {
        assert(b[i].from == journeys[i].from);
    }
}

/// In a graph whose weights add up to what a `u64` holds, a journey is
/// left without a route exactly if no walk leads from its origin to its
/// destination.
pub proof fn lemma_absent_route_means_unconnected(
    edges: Seq<Edge>,
    from: u64,
    to: u64,
    route: Option<Vec<u64>>,
)
    requires
        total_weight(edges) <= u64::MAX,
        is_answer(edges, from, to, route),
    ensures
        route.is_none() <==> forall|w: Seq<Edge>| !is_walk(edges, w, from, to),
{
    lemma_light_graph_reach(edges, from, to);
}

/// Along a walk, each node is joined to the next by the walk's edge
/// between them.
pub proof fn lemma_walk_nodes_step(edges: Seq<Edge>, w: Seq<Edge>, from: u64, to: u64, i: int)
    requires
        is_walk(edges, w, from, to),
        0 <= i < w.len(),
    ensures
        walk_nodes(from, w).len() == w.len() + 1,
        edges.contains(w[i]),
        w[i].from == walk_nodes(from, w)[i],
        w[i].to == walk_nodes(from, w)[i + 1],
    decreases w.len(),
{
    let init = w.drop_last();
    lemma_walk_nodes_ends(edges, w, from, to);
    lemma_walk_nodes_ends(edges, init, from, w.last().from);
    if i < w.len() - 1 {
        lemma_walk_nodes_step(edges, init, from, w.last().from, i);
        assert(init[i] == w[i]);
    }
}

/// A shortest route starts at its origin, ends at its destination, and
/// each of its nodes is joined to the next by an edge of the graph.
pub proof fn lemma_route_follows_edges(edges: Seq<Edge>, route: Seq<u64>, from: u64, to: u64)
    requires
        is_shortest_route(edges, route, from, to),
    ensures
        route.len() >= 1,
        route.first() == from,
        route.last() == to,
        forall|i: int|
            0 <= i < route.len() - 1 ==> exists|e: Edge|
                edges.contains(e) && e.from == #[trigger] route[i] && e.to == route[i + 1],
{
    let w = choose|w: Seq<Edge>|
        is_cheapest_walk(edges, w, from, to) && walk_nodes(from, w) == route;
    lemma_walk_nodes_ends(edges, w, from, to);
    assert forall|i: int| 0 <= i < route.len() - 1 implies exists|e: Edge|
        edges.contains(e) && e.from == #[trigger] route[i] && e.to == route[i + 1] by {
        lemma_walk_nodes_step(edges, w, from, to, i);
        let e = w[i];
        assert(edges.contains(e) && e.from == route[i] && e.to == route[i + 1]);
    }
}

/// The cheapest walks between two nodes all cost the same: whichever of
/// them an answer follows, its cost is the least that the graph allows.
pub proof fn lemma_cheapest_cost_unique(
    edges: Seq<Edge>,
    from: u64,
    to: u64,
    a: Seq<Edge>,
    b: Seq<Edge>,
)
    requires
        is_cheapest_walk(edges, a, from, to),
        is_cheapest_walk(edges, b, from, to),
    ensures
        walk_cost(a) == walk_cost(b),
{
}

/// From a node to itself the one-node route is a shortest route in every
/// graph, and a cheapest walk between the two costs nothing.
pub proof fn lemma_same_node_route(edges: Seq<Edge>, node: u64)
    ensures
        is_shortest_route(edges, seq![node], node, node),
        reachable_within(edges, node, node, 0),
        forall|w: Seq<Edge>| is_cheapest_walk(edges, w, node, node) ==> walk_cost(w) == 0,
{
    let empty: Seq<Edge> = Seq::empty();
    assert(is_walk(edges, empty, node, node));
    assert(walk_cost(empty) == 0);
    assert forall|w: Seq<Edge>| is_walk(edges, w, node, node) implies 0 <= walk_cost(w) by {
        lemma_walk_cost_nonnegative(w);
    }
    assert(is_lower_bound(edges, node, node, 0));
    assert(is_cheapest_walk(edges, empty, node, node));
    assert(walk_nodes(node, empty) == seq![node]);
    assert forall|w: Seq<Edge>| is_cheapest_walk(edges, w, node, node) implies walk_cost(w)
        == 0 by {
        lemma_walk_cost_nonnegative(w);
    }
}

} // verus!
