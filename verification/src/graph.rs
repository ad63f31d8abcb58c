//! Edges, walks over them, and the adjacency index that the search reads.

use std::collections::HashMap;
use vstd::prelude::*;
use vstd::std_specs::hash::*;

verus! {

broadcast use group_hash_axioms;

/// A directed connection `from -> to` with a non-negative weight.
#[derive(Clone, Copy, Debug)]
pub struct Edge {
    pub from: u64,
    pub to: u64,
    pub weight: u64,
}

/// The edges of `edges` that leave `node`, in the order in which they occur.
pub open spec fn outgoing(edges: Seq<Edge>, node: u64) -> Seq<Edge>
    decreases edges.len(),
{
    if edges.len() == 0 {
        Seq::empty()
    } else {
        let rest = outgoing(edges.drop_last(), node);
        if edges.last().from == node {
            rest.push(edges.last())
        } else {
            rest
        }
    }
}

/// The sum of the weights along a walk.
pub open spec fn walk_cost(w: Seq<Edge>) -> int
    decreases w.len(),
{
    if w.len() == 0 {
        0
    } else {
        walk_cost(w.drop_last()) + w.last().weight
    }
}

/// `w` is a chain of edges of `edges` that leads from `from` to `to`.
/// The empty walk leads from a node to itself.
pub open spec fn is_walk(edges: Seq<Edge>, w: Seq<Edge>, from: u64, to: u64) -> bool
    decreases w.len(),
{
    if w.len() == 0 {
        from == to
    } else {
        &&& edges.contains(w.last())
        &&& w.last().to == to
        &&& is_walk(edges, w.drop_last(), from, w.last().from)
    }
}

/// The nodes that a walk from `from` visits, in order, `from` included.
pub open spec fn walk_nodes(from: u64, w: Seq<Edge>) -> Seq<u64>
    decreases w.len(),
{
    if w.len() == 0 {
        seq![from]
    } else {
        walk_nodes(from, w.drop_last()).push(w.last().to)
    }
}

/// Some walk from `from` to `to` costs at most `limit`.
pub open spec fn reachable_within(edges: Seq<Edge>, from: u64, to: u64, limit: int) -> bool {
    exists|w: Seq<Edge>| is_walk(edges, w, from, to) && walk_cost(w) <= limit
}

/// Some walk from `from` to `to` costs exactly `cost`.
pub open spec fn reached_at(edges: Seq<Edge>, from: u64, to: u64, cost: int) -> bool {
    exists|w: Seq<Edge>| is_walk(edges, w, from, to) && walk_cost(w) == cost
}

/// No walk from `from` to `to` costs less than `cost`.
pub open spec fn is_lower_bound(edges: Seq<Edge>, from: u64, to: u64, cost: int) -> bool {
    forall|w: Seq<Edge>| is_walk(edges, w, from, to) ==> cost <= walk_cost(w)
}

/// `w` leads from `from` to `to` and no walk between the two is cheaper.
pub open spec fn is_cheapest_walk(edges: Seq<Edge>, w: Seq<Edge>, from: u64, to: u64) -> bool {
    is_walk(edges, w, from, to) && is_lower_bound(edges, from, to, walk_cost(w))
}

/// `route` is the node sequence of a cheapest walk from `from` to `to`.
pub open spec fn is_shortest_route(edges: Seq<Edge>, route: Seq<u64>, from: u64, to: u64) -> bool {
    exists|w: Seq<Edge>| is_cheapest_walk(edges, w, from, to) && walk_nodes(from, w) == route
}

/// A walk never costs less than nothing.
pub proof fn lemma_walk_cost_nonnegative(w: Seq<Edge>)
    ensures
        walk_cost(w) >= 0,
    decreases w.len(),
{
    if w.len() > 0 {
        lemma_walk_cost_nonnegative(w.drop_last());
    }
}

/// A walk starts where it says and ends where it says.
pub proof fn lemma_walk_nodes_ends(edges: Seq<Edge>, w: Seq<Edge>, from: u64, to: u64)
    requires
        is_walk(edges, w, from, to),
    ensures
        walk_nodes(from, w).len() == w.len() + 1,
        walk_nodes(from, w).first() == from,
        walk_nodes(from, w).last() == to,
    decreases w.len(),
{
    if w.len() > 0 {
        lemma_walk_nodes_ends(edges, w.drop_last(), from, w.last().from);
    }
}

/// An edge is among those leaving `node` exactly if it is an edge of the
/// list and starts at `node`.
pub proof fn lemma_outgoing_contains(edges: Seq<Edge>, node: u64, e: Edge)
    ensures
        outgoing(edges, node).contains(e) <==> edges.contains(e) && e.from == node,
    decreases edges.len(),
{
    if edges.len() > 0 {
        let init = edges.drop_last();
        let rest = outgoing(init, node);
        lemma_outgoing_contains(init, node, e);
        if edges.contains(e) {
            let i = choose|i: int| 0 <= i < edges.len() && edges[i] == e;
            if i < edges.len() - 1 {
                assert(init[i] == e);
            }
        }
        if init.contains(e) {
            let i = choose|i: int| 0 <= i < init.len() && init[i] == e;
            assert(edges[i] == e);
        }
        assert(edges[edges.len() - 1] == edges.last());
        if edges.last().from == node {
            let out = rest.push(edges.last());
            assert(out[rest.len() as int] == edges.last());
            if rest.contains(e) {
                let i = choose|i: int| 0 <= i < rest.len() && rest[i] == e;
                assert(out[i] == e);
            }
            if out.contains(e) {
                let i = choose|i: int| 0 <= i < out.len() && out[i] == e;
                if i < rest.len() {
                    assert(rest[i] == e);
                }
            }
        }
    }
}

/// The bucket that a map of buckets holds for `node`: empty where it has none.
pub open spec fn bucket_of(buckets: Map<u64, Vec<Edge>>, node: u64) -> Seq<Edge> {
    if buckets.contains_key(node) {
        buckets[node]@
    } else {
        Seq::empty()
    }
}

/// The adjacency index: for each node that has outgoing edges, those edges
/// in input order. Its view is the edge list that it was built from.
pub struct GraphIndex {
    buckets: HashMap<u64, Vec<Edge>>,
    edges: Ghost<Seq<Edge>>,
}

impl View for GraphIndex {
    type V = Seq<Edge>;

    closed spec fn view(&self) -> Seq<Edge> {
        self.edges@
    }
}

impl GraphIndex {
    /// Every bucket holds exactly the edges that leave its node, and no
    /// bucket is empty.
    pub closed spec fn wf(&self) -> bool {
        &&& forall|n: u64| #[trigger] bucket_of(self.buckets@, n) == outgoing(self.edges@, n)
        &&& forall|n: u64| #[trigger]
            self.buckets@.contains_key(n) ==> self.buckets@[n]@.len() > 0
    }

    /// The edges that leave `node`, or `None` where there are none.
    pub fn outgoing(&self, node: u64) -> (r: Option<&Vec<Edge>>)
        requires
            self.wf(),
        ensures
            match r {
                Some(b) => b@ == outgoing(self@, node) && b@.len() > 0,
                None => outgoing(self@, node).len() == 0,
            },
    {
        let r = self.buckets.get(&node);
        proof {
            assert(bucket_of(self.buckets@, node) == outgoing(self.edges@, node));
        }
        r
    }
}

/// Groups a flat edge list by origin node, keeping input order within each
/// group.
pub fn build_index(edges: &Vec<Edge>) -> (g: GraphIndex)
    ensures
        g.wf(),
        g@ == edges@,
{
    let mut buckets: HashMap<u64, Vec<Edge>> = HashMap::new();
    let mut i: usize = 0;
    while i < edges.len()
        invariant
            i <= edges.len(),
            forall|n: u64| #[trigger] bucket_of(buckets@, n) == outgoing(edges@.take(i as int), n),
            forall|n: u64| #[trigger] buckets@.contains_key(n) ==> buckets@[n]@.len() > 0,
        decreases edges.len() - i,
    {
        let e = edges[i];
        let ghost before = buckets@;
        let mut bucket = match buckets.remove(&e.from) {
            Some(b) => b,
            None => Vec::new(),
        };
        bucket.push(e);
        buckets.insert(e.from, bucket);
        proof {
            let prefix = edges@.take(i as int + 1);
            assert(prefix.drop_last() =~= edges@.take(i as int));
            assert(prefix.last() == e);
            assert forall|n: u64| #[trigger]
                bucket_of(buckets@, n) == outgoing(prefix, n) by {
                assert(bucket_of(before, n) == outgoing(edges@.take(i as int), n));
            }
        }
        i += 1;
    }
    proof {
        assert(edges@.take(edges.len() as int) =~= edges@);
    }
    GraphIndex { buckets, edges: Ghost(edges@) }
}

} // verus!
