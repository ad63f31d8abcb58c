//! Reading a route off a predecessor map.

use std::collections::HashMap;
use vstd::prelude::*;
use vstd::std_specs::hash::*;

verus! {

broadcast use group_hash_axioms;

/// The nodes from `origin` to `node` that following `pred` backwards from
/// `node` gives, in forward order, if `origin` is met within `fuel` steps;
/// `None` where a node other than `origin` has no predecessor or the steps
/// run out.
pub open spec fn chain(pred: Map<u64, u64>, origin: u64, node: u64, fuel: nat) -> Option<Seq<u64>>
    decreases fuel,
{
    if node == origin {
        Some(seq![origin])
    } else if fuel == 0 || !pred.contains_key(node) {
        None
    } else {
        match chain(pred, origin, pred[node], (fuel - 1) as nat) {
            Some(s) => Some(s.push(node)),
            None => None,
        }
    }
}

/// `tail` appended to a chain, where there is one.
pub open spec fn extended(head: Option<Seq<u64>>, tail: Seq<u64>) -> Option<Seq<u64>> {
    match head {
        Some(s) => Some(s + tail),
        None => None,
    }
}

/// Walks `pred` backwards from `destination` until `origin` is met and
/// returns the nodes in forward order. A journey from a node to itself is
/// the one-node route, whatever `pred` holds. The walk takes at most as many
/// steps as `pred` has entries, so a map with a cycle gives `None`, as does
/// a node on the way that has no predecessor.
pub fn reconstruct(pred: &HashMap<u64, u64>, origin: u64, destination: u64) -> (r: Option<
    Vec<u64>,
>)
    ensures
        match chain(pred@, origin, destination, pred@.len()) {
            Some(s) => r.is_some() && r.unwrap()@ == s,
            None => r.is_none(),
        },
{
    let mut reverse: Vec<u64> = Vec::new();
    reverse.push(destination);
    let mut current: u64 = destination;
    let mut remaining: usize = pred.len();
    let ghost mut tail: Seq<u64> = Seq::empty();
    let ghost whole = chain(pred@, origin, destination, pred@.len());
    proof {
        match whole {
            Some(s) => {
                assert(s + tail =~= s);
            },
            None => {},
        }
    }
    while current != origin
        invariant
            reverse@.len() == tail.len() + 1,
            reverse@[tail.len() as int] == current,
            forall|i: int| 0 <= i < tail.len() ==> reverse@[i] == tail[tail.len() - 1 - i],
            whole == chain(pred@, origin, destination, pred@.len()),
            whole == extended(chain(pred@, origin, current, remaining as nat), tail),
        decreases remaining,
    {
        if remaining == 0 {
            return None;
        }
        match pred.get(&current) {
            None => {
                return None;
            },
            Some(p) => {
                proof {
                    let before = chain(pred@, origin, *p, (remaining - 1) as nat);
                    let longer = seq![current] + tail;
                    match before {
                        Some(s) => {
                            assert(s.push(current) + tail =~= s + longer);
                        },
                        None => {},
                    }
                    assert forall|i: int| 0 <= i < longer.len() implies (if i < tail.len() {
                        reverse@[i]
                    } else {
                        current
                    }) == longer[longer.len() - 1 - i] by {
                        if i < tail.len() {
                            assert(longer[tail.len() - i] == tail[tail.len() - i - 1]);
                        }
                    }
                    tail = longer;
                }
                reverse.push(*p);
                current = *p;
                remaining = remaining - 1;
            },
        }
    }
    let ghost full = seq![origin] + tail;
    proof {
        assert(whole == Some(full));
    }
    let mut path: Vec<u64> = Vec::new();
    while reverse.len() > 0
        invariant
            full.len() == tail.len() + 1,
            path@.len() + reverse@.len() == full.len(),
            forall|i: int| 0 <= i < path@.len() ==> path@[i] == full[i],
            forall|i: int| 0 <= i < reverse@.len() ==> reverse@[i] == full[full.len() - 1 - i],
        decreases reverse@.len(),
    {
        let node = reverse.pop().unwrap();
        path.push(node);
    }
    proof {
        assert(path@ =~= full);
    }
    Some(path)
}

} // verus!
