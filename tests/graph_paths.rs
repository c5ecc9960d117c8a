use route_graph::{adj_list, all_simple_paths, eager_dijkstra, shortest_path, Edge, PathError};

fn chain_graph() -> Vec<Vec<Edge>> {
    let route_tuples = [
        ("A", "B", 1),
        ("B", "C", 1),
        ("C", "D", 1),
        ("B", "D", 1),
        ("E", "A", 1),
    ];
    adj_list(&route_tuples)
}

fn cyclic_graph() -> Vec<Vec<Edge>> {
    let route_tuples = [
        ("A", "B", 6),
        ("A", "E", 4),
        ("B", "A", 6),
        ("B", "C", 2),
        ("B", "D", 4),
        ("C", "B", 3),
        ("C", "D", 1),
        ("C", "E", 7),
        ("D", "B", 8),
        ("E", "B", 5),
        ("E", "D", 7),
    ];
    adj_list(&route_tuples)
}

fn sorted(mut paths: Vec<Vec<usize>>) -> Vec<Vec<usize>> {
    paths.sort();
    paths
}

fn cheapest_edge(g: &[Vec<Edge>], u: usize, v: usize) -> Option<usize> {
    g[u].iter().filter(|e| e.to == v).map(|e| e.cost).min()
}

fn path_cost(g: &[Vec<Edge>], p: &[usize]) -> usize {
    p.windows(2).map(|w| cheapest_edge(g, w[0], w[1]).unwrap()).sum()
}

#[test]
fn shortest_path_should_correctly_return_lesser_cost_possibility() {
    let route_tuples = [
        ("A", "B", 6),
        ("A", "E", 4),
        ("B", "A", 6),
        ("B", "C", 2),
        ("B", "D", 4),
        ("C", "B", 3),
        ("C", "D", 1),
        ("C", "E", 7),
        ("D", "B", 8),
        ("E", "B", 5),
        ("E", "D", 7),
    ];

    let adj_list = adj_list(&route_tuples);

    let mut cost = shortest_path(0, 3, adj_list.clone()).ok();
    assert_eq!(cost, Some(9));

    cost = shortest_path(3, 0, adj_list.clone()).ok();
    assert_eq!(cost, Some(14));

    cost = shortest_path(4, 0, adj_list.clone()).ok();
    assert_eq!(cost, Some(11));
}

#[test]
fn adj_list_indexes_labels_in_order_and_keeps_edge_order() {
    let g = chain_graph();
    assert_eq!(g.len(), 5);
    let shape: Vec<Vec<(usize, usize)>> =
        g.iter().map(|l| l.iter().map(|e| (e.to, e.cost)).collect()).collect();
    assert_eq!(
        shape,
        vec![
            vec![(1, 1)],
            vec![(2, 1), (3, 1)],
            vec![(3, 1)],
            vec![],
            vec![(0, 1)],
        ]
    );
}

#[test]
fn adj_list_sorts_labels_that_come_unsorted() {
    let g = adj_list(&[("pear", "apple", 2), ("apple", "fig", 3), ("pear", "fig", 5)]);
    // apple = 0, fig = 1, pear = 2
    let shape: Vec<Vec<(usize, usize)>> =
        g.iter().map(|l| l.iter().map(|e| (e.to, e.cost)).collect()).collect();
    assert_eq!(shape, vec![vec![(1, 3)], vec![], vec![(0, 2), (1, 5)]]);
}

#[test]
fn adj_list_of_no_edges_is_empty() {
    let g = adj_list(&[]);
    assert!(g.is_empty());
}

#[test]
fn chain_graph_distance_goes_through_the_shortcut() {
    let g = chain_graph();
    assert_eq!(shortest_path(4, 3, g.clone()), Ok(3));
    assert_eq!(eager_dijkstra(4, 3, &g), Some(3));
}

#[test]
fn chain_graph_paths_to_a_and_to_d() {
    let g = chain_graph();
    assert_eq!(all_simple_paths(4, 0, &g), vec![vec![4, 0]]);
    assert_eq!(
        sorted(all_simple_paths(4, 3, &g)),
        vec![vec![4, 0, 1, 2, 3], vec![4, 0, 1, 3]]
    );
}

#[test]
fn same_endpoints_are_refused() {
    let g = cyclic_graph();
    for s in 0..5 {
        assert_eq!(shortest_path(s, s, g.clone()), Err(PathError::SameEndpoint));
    }
    assert_eq!(shortest_path(9, 9, g.clone()), Err(PathError::SameEndpoint));
}

#[test]
fn endpoints_outside_the_graph_are_refused() {
    let g = cyclic_graph();
    assert_eq!(shortest_path(0, 5, g.clone()), Err(PathError::InvalidNode));
    assert_eq!(shortest_path(5, 0, g.clone()), Err(PathError::InvalidNode));
    assert_eq!(shortest_path(7, 100, g.clone()), Err(PathError::InvalidNode));
}

#[test]
fn unreachable_target_is_reported() {
    let g = chain_graph();
    assert_eq!(shortest_path(3, 4, g.clone()), Err(PathError::Unreachable));
    assert_eq!(shortest_path(0, 4, g.clone()), Err(PathError::Unreachable));
    assert_eq!(eager_dijkstra(3, 0, &g), None);
}

#[test]
fn distance_from_a_node_to_itself_is_zero() {
    let g = cyclic_graph();
    assert_eq!(eager_dijkstra(2, 2, &g), Some(0));
}

#[test]
fn distance_sums_stop_at_the_largest_value() {
    let g = adj_list(&[("A", "B", usize::MAX), ("B", "C", usize::MAX), ("A", "C", 7)]);
    assert_eq!(shortest_path(0, 1, g.clone()), Ok(usize::MAX));
    assert_eq!(shortest_path(0, 2, g.clone()), Ok(7));
    let h = adj_list(&[("A", "B", usize::MAX), ("B", "C", usize::MAX)]);
    assert_eq!(shortest_path(0, 2, h), Ok(usize::MAX));
}

#[test]
fn parallel_edges_take_the_cheaper_one() {
    let g = vec![
        vec![Edge { to: 1, cost: 9 }, Edge { to: 1, cost: 2 }],
        vec![Edge { to: 2, cost: 1 }],
        vec![],
    ];
    assert_eq!(shortest_path(0, 2, g.clone()), Ok(3));
    assert_eq!(all_simple_paths(0, 2, &g), vec![vec![0, 1, 2]]);
}

#[test]
fn distance_equals_cheapest_simple_path() {
    for g in [chain_graph(), cyclic_graph()] {
        let n = g.len();
        for s in 0..n {
            for d in 0..n {
                if s == d {
                    continue;
                }
                let paths = all_simple_paths(s, d, &g);
                let best = paths.iter().map(|p| path_cost(&g, p)).min();
                match best {
                    Some(c) => assert_eq!(shortest_path(s, d, g.clone()), Ok(c)),
                    None => assert_eq!(shortest_path(s, d, g.clone()), Err(PathError::Unreachable)),
                }
            }
        }
    }
}

#[test]
fn enumerated_paths_are_simple_and_follow_edges() {
    let g = cyclic_graph();
    for s in 0..5 {
        for d in 0..5 {
            for p in all_simple_paths(s, d, &g) {
                assert_eq!(p[0], s);
                assert_eq!(*p.last().unwrap(), d);
                let mut seen = p.clone();
                seen.sort();
                seen.dedup();
                assert_eq!(seen.len(), p.len());
                for w in p.windows(2) {
                    assert!(g[w[0]].iter().any(|e| e.to == w[1]));
                }
            }
        }
    }
}

#[test]
fn cyclic_graph_has_all_its_simple_paths() {
    let g = cyclic_graph();
    assert_eq!(
        sorted(all_simple_paths(0, 3, &g)),
        vec![
            vec![0, 1, 2, 3],
            vec![0, 1, 2, 4, 3],
            vec![0, 1, 3],
            vec![0, 4, 1, 2, 3],
            vec![0, 4, 1, 3],
            vec![0, 4, 3],
        ]
    );
}

#[test]
fn enumerating_twice_gives_the_same_paths() {
    let g = cyclic_graph();
    for s in 0..5 {
        for d in 0..5 {
            assert_eq!(
                sorted(all_simple_paths(s, d, &g)),
                sorted(all_simple_paths(s, d, &g))
            );
        }
    }
}

#[test]
fn enumeration_edge_cases() {
    let g = chain_graph();
    assert_eq!(all_simple_paths(2, 2, &g), vec![vec![2]]);
    assert!(all_simple_paths(3, 0, &g).is_empty());
    assert!(all_simple_paths(0, 9, &g).is_empty());
    assert!(all_simple_paths(9, 9, &g).is_empty());
}
