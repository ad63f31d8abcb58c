use journey_planner::frontier::Frontier;
use journey_planner::graph::{build_index, Edge};
use journey_planner::journey::{shortest_path, solve_journeys, Journey};
use journey_planner::route::reconstruct;
use journey_planner::search::find;
use std::collections::HashMap;

fn edges(list: &[(u64, u64, u64)]) -> Vec<Edge> {
    list.iter().map(|&(from, to, weight)| Edge { from, to, weight }).collect()
}

fn request(from: u64, to: u64) -> Journey {
    Journey { from, to, route: None }
}

/// The cheapest edge from `a` to `b`, if any.
fn cheapest_edge(list: &[Edge], a: u64, b: u64) -> Option<u64> {
    list.iter().filter(|e| e.from == a && e.to == b).map(|e| e.weight).min()
}

fn route_cost(list: &[Edge], route: &[u64]) -> u64 {
    let mut total = 0;
    for pair in route.windows(2) {
        total += cheapest_edge(list, pair[0], pair[1]).expect("route follows an edge");
    }
    total
}

/// Least cost from `from` to every node below `n`, by repeated relaxation.
fn least_costs(list: &[Edge], n: u64, from: u64) -> Vec<Option<u64>> {
    let mut best: Vec<Option<u64>> = vec![None; n as usize];
    best[from as usize] = Some(0);
    for _ in 0..n {
        for e in list {
            if let Some(c) = best[e.from as usize] {
                let via = c + e.weight;
                if best[e.to as usize].map_or(true, |known| via < known) {
                    best[e.to as usize] = Some(via);
                }
            }
        }
    }
    best
}

#[test]
fn detour_beats_direct_edge() {
    let list = edges(&[(1, 2, 5), (2, 3, 5), (1, 3, 20)]);
    let graph = build_index(&list);
    let route = shortest_path(&graph, 1, 3);
    assert_eq!(route, Some(vec![1, 2, 3]));
    assert_eq!(route_cost(&list, &route.unwrap()), 10);
}

#[test]
fn edges_are_directed() {
    let graph = build_index(&edges(&[(1, 2, 1)]));
    assert_eq!(shortest_path(&graph, 2, 1), None);
    assert_eq!(shortest_path(&graph, 1, 2), Some(vec![1, 2]));
}

#[test]
fn same_node_in_empty_graph() {
    let graph = build_index(&edges(&[]));
    assert_eq!(shortest_path(&graph, 1, 1), Some(vec![1]));
}

#[test]
fn same_node_is_one_node_route_even_on_a_cycle() {
    let list = edges(&[(1, 2, 3), (2, 1, 3), (1, 1, 0)]);
    let graph = build_index(&list);
    let route = shortest_path(&graph, 1, 1).unwrap();
    assert_eq!(route, vec![1]);
    assert_eq!(route_cost(&list, &route), 0);
}

#[test]
fn two_journeys_in_one_batch_are_independent() {
    let list = edges(&[(1, 2, 3), (2, 1, 3)]);
    let graph = build_index(&list);
    let out = solve_journeys(&graph, &vec![request(1, 2), request(2, 1)]);
    assert_eq!(out.len(), 2);
    assert_eq!(out[0], Journey { from: 1, to: 2, route: Some(vec![1, 2]) });
    assert_eq!(out[1], Journey { from: 2, to: 1, route: Some(vec![2, 1]) });
    assert_eq!(route_cost(&list, out[0].route.as_ref().unwrap()), 3);
    assert_eq!(route_cost(&list, out[1].route.as_ref().unwrap()), 3);
}

#[test]
fn unknown_node_is_unreachable() {
    let graph = build_index(&edges(&[(1, 2, 1), (2, 3, 1)]));
    assert_eq!(shortest_path(&graph, 1, 9), None);
    assert_eq!(shortest_path(&graph, 9, 1), None);
    assert_eq!(shortest_path(&graph, 9, 9), Some(vec![9]));
}

#[test]
fn absent_route_means_no_connection() {
    let list = edges(&[(0, 1, 2), (1, 2, 2), (3, 4, 1), (4, 3, 1), (2, 0, 7)]);
    let graph = build_index(&list);
    for from in 0..5u64 {
        let best = least_costs(&list, 5, from);
        for to in 0..5u64 {
            let route = shortest_path(&graph, from, to);
            assert_eq!(route.is_some(), best[to as usize].is_some());
        }
    }
}

#[test]
fn route_cost_is_the_least_of_any_path() {
    let list = edges(&[
        (0, 1, 7),
        (0, 2, 9),
        (0, 5, 14),
        (1, 2, 10),
        (1, 3, 15),
        (2, 3, 11),
        (2, 5, 2),
        (3, 4, 6),
        (5, 4, 9),
        (4, 0, 1),
        (3, 3, 0),
        (1, 0, 0),
        (0, 1, 3),
    ]);
    let graph = build_index(&list);
    for from in 0..6u64 {
        let best = least_costs(&list, 6, from);
        for to in 0..6u64 {
            let route = shortest_path(&graph, from, to).expect("every node reaches every node");
            assert_eq!(route[0], from);
            assert_eq!(*route.last().unwrap(), to);
            assert_eq!(Some(route_cost(&list, &route)), best[to as usize]);
        }
    }
    assert_eq!(shortest_path(&graph, 0, 4), Some(vec![0, 2, 5, 4]));
}

#[test]
fn cheaper_of_two_parallel_edges_counts() {
    let list = edges(&[(1, 2, 9), (1, 2, 4), (2, 3, 1), (1, 3, 6)]);
    let graph = build_index(&list);
    let (costs, pred) = find(&graph, 1, 3);
    assert_eq!(costs.get(&3), Some(&5));
    assert_eq!(pred.get(&3), Some(&2));
    assert_eq!(shortest_path(&graph, 1, 3), Some(vec![1, 2, 3]));
}

#[test]
fn later_cheaper_way_replaces_an_earlier_one() {
    let list = edges(&[(1, 2, 10), (1, 3, 1), (3, 2, 1), (2, 4, 1)]);
    let graph = build_index(&list);
    let (costs, pred) = find(&graph, 1, 4);
    assert_eq!(costs.get(&1), Some(&0));
    assert_eq!(costs.get(&2), Some(&2));
    assert_eq!(costs.get(&4), Some(&3));
    assert_eq!(pred.get(&2), Some(&3));
    assert_eq!(pred.get(&1), None);
    assert_eq!(shortest_path(&graph, 1, 4), Some(vec![1, 3, 2, 4]));
}

#[test]
fn zero_weight_edges_are_followed() {
    let list = edges(&[(1, 2, 0), (2, 3, 0), (3, 1, 0), (3, 4, 0)]);
    let graph = build_index(&list);
    assert_eq!(shortest_path(&graph, 1, 4), Some(vec![1, 2, 3, 4]));
}

#[test]
fn equal_costs_keep_the_way_found_first() {
    let list = edges(&[(1, 2, 1), (1, 3, 1), (2, 4, 1), (3, 4, 1)]);
    let graph = build_index(&list);
    assert_eq!(shortest_path(&graph, 1, 4), Some(vec![1, 2, 4]));
}

#[test]
fn cost_beyond_u64_is_not_followed() {
    let list = edges(&[(1, 2, u64::MAX), (2, 3, 1), (1, 4, u64::MAX - 1), (4, 5, 1)]);
    let graph = build_index(&list);
    assert_eq!(shortest_path(&graph, 1, 2), Some(vec![1, 2]));
    assert_eq!(shortest_path(&graph, 1, 3), None);
    assert_eq!(shortest_path(&graph, 1, 5), Some(vec![1, 4, 5]));
    let (costs, _) = find(&graph, 1, 5);
    assert_eq!(costs.get(&5), Some(&u64::MAX));
}

#[test]
fn solving_twice_gives_the_same_answers() {
    let list = edges(&[(1, 2, 1), (1, 3, 1), (2, 4, 1), (3, 4, 1), (4, 5, 2), (6, 1, 1)]);
    let graph = build_index(&list);
    let journeys = vec![request(1, 5), request(5, 1), request(6, 4), request(2, 2)];
    let first = solve_journeys(&graph, &journeys);
    let second = solve_journeys(&graph, &journeys);
    assert_eq!(first, second);
}

#[test]
fn answers_keep_the_order_of_the_requests() {
    let graph = build_index(&edges(&[(1, 2, 1), (2, 3, 1)]));
    let journeys = vec![
        request(3, 1),
        request(1, 3),
        Journey { from: 2, to: 2, route: Some(vec![7, 7]) },
        request(1, 2),
    ];
    let out = solve_journeys(&graph, &journeys);
    assert_eq!(out.len(), 4);
    for (answer, asked) in out.iter().zip(journeys.iter()) {
        assert_eq!(answer.from, asked.from);
        assert_eq!(answer.to, asked.to);
    }
    assert_eq!(out[0].route, None);
    assert_eq!(out[1].route, Some(vec![1, 2, 3]));
    assert_eq!(out[2].route, Some(vec![2]));
    assert_eq!(out[3].route, Some(vec![1, 2]));
}

#[test]
fn no_journeys_no_answers() {
    let graph = build_index(&edges(&[(1, 2, 1)]));
    assert_eq!(solve_journeys(&graph, &Vec::new()), Vec::new());
}

#[test]
fn index_groups_edges_by_origin_in_input_order() {
    let graph = build_index(&edges(&[(1, 2, 5), (2, 3, 1), (1, 3, 7), (1, 2, 2)]));
    let from_one: Vec<(u64, u64)> =
        graph.outgoing(1).unwrap().iter().map(|e| (e.to, e.weight)).collect();
    assert_eq!(from_one, vec![(2, 5), (3, 7), (2, 2)]);
    let from_two: Vec<(u64, u64)> =
        graph.outgoing(2).unwrap().iter().map(|e| (e.to, e.weight)).collect();
    assert_eq!(from_two, vec![(3, 1)]);
    assert!(graph.outgoing(3).is_none());
    assert!(graph.outgoing(8).is_none());
}

#[test]
fn frontier_gives_cheapest_first_and_oldest_among_equals() {
    let mut frontier = Frontier::new();
    assert_eq!(frontier.pop_min(), None);
    frontier.push(5, 10);
    frontier.push(3, 11);
    frontier.push(5, 12);
    frontier.push(3, 13);
    frontier.push(9, 14);
    assert_eq!(frontier.pop_min(), Some((3, 11)));
    assert_eq!(frontier.pop_min(), Some((3, 13)));
    frontier.push(1, 15);
    assert_eq!(frontier.pop_min(), Some((1, 15)));
    assert_eq!(frontier.pop_min(), Some((5, 10)));
    assert_eq!(frontier.pop_min(), Some((5, 12)));
    assert_eq!(frontier.pop_min(), Some((9, 14)));
    assert_eq!(frontier.pop_min(), None);
}

#[test]
fn reconstruct_walks_back_to_the_origin() {
    let mut pred: HashMap<u64, u64> = HashMap::new();
    pred.insert(4, 3);
    pred.insert(3, 2);
    pred.insert(2, 1);
    assert_eq!(reconstruct(&pred, 1, 4), Some(vec![1, 2, 3, 4]));
    assert_eq!(reconstruct(&pred, 2, 4), Some(vec![2, 3, 4]));
    assert_eq!(reconstruct(&pred, 1, 1), Some(vec![1]));
}

#[test]
fn reconstruct_without_predecessor_is_absent() {
    let mut pred: HashMap<u64, u64> = HashMap::new();
    pred.insert(4, 3);
    assert_eq!(reconstruct(&pred, 1, 4), None);
    assert_eq!(reconstruct(&pred, 1, 5), None);
    assert_eq!(reconstruct(&HashMap::new(), 1, 2), None);
    assert_eq!(reconstruct(&HashMap::new(), 2, 2), Some(vec![2]));
}

#[test]
fn reconstruct_gives_up_on_a_cycle() {
    let mut pred: HashMap<u64, u64> = HashMap::new();
    pred.insert(2, 3);
    pred.insert(3, 2);
    assert_eq!(reconstruct(&pred, 1, 2), None);
}

#[test]
fn search_leaves_unreached_nodes_out() {
    let graph = build_index(&edges(&[(1, 2, 4), (3, 4, 1)]));
    let (costs, pred) = find(&graph, 1, 4);
    assert_eq!(costs.get(&1), Some(&0));
    assert_eq!(costs.get(&2), Some(&4));
    assert_eq!(costs.get(&3), None);
    assert_eq!(costs.get(&4), None);
    assert_eq!(pred.get(&2), Some(&1));
    assert_eq!(pred.get(&4), None);
    assert_eq!(pred.len(), 1);
}

#[test]
fn generated_graphs_agree_with_repeated_relaxation() {
    let mut seed: u64 = 0x2545_F491_4F6C_DD1D;
    let mut next = move |bound: u64| {
        seed ^= seed << 13;
        seed ^= seed >> 7;
        seed ^= seed << 17;
        seed % bound
    };
    for _ in 0..40 {
        let n = 2 + next(7);
        let m = next(20);
        let mut list = Vec::new();
        for _ in 0..m {
            list.push(Edge { from: next(n), to: next(n), weight: next(12) });
        }
        let graph = build_index(&list);
        for from in 0..n {
            let best = least_costs(&list, n, from);
            for to in 0..n {
                match shortest_path(&graph, from, to) {
                    Some(route) => {
                        assert_eq!(route[0], from);
                        assert_eq!(*route.last().unwrap(), to);
                        assert_eq!(Some(route_cost(&list, &route)), best[to as usize]);
                    }
                    None => assert_eq!(best[to as usize], None),
                }
            }
        }
    }
}

#[test]
fn search_stops_at_the_destination() {
    let graph = build_index(&edges(&[(1, 2, 1), (2, 3, 1), (3, 4, 1)]));
    let (costs, pred) = find(&graph, 1, 2);
    assert_eq!(costs.get(&2), Some(&1));
    assert_eq!(costs.get(&3), None);
    assert_eq!(pred.len(), 1);
    let (costs, _) = find(&graph, 1, 1);
    assert_eq!(costs.len(), 1);
    assert_eq!(costs.get(&1), Some(&0));
}
