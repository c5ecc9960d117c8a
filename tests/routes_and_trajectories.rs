use route_graph::{adj_list, route_tuple, Route, Routes, Trajectories};

fn mock_routes() -> Vec<Route> {
    let route_tuples = [
        ("A".to_string(), "B".to_string(), 1),
        ("B".to_string(), "C".to_string(), 1),
        ("C".to_string(), "D".to_string(), 1),
        ("B".to_string(), "D".to_string(), 1),
        ("E".to_string(), "A".to_string(), 1),
    ];
    route_tuples
        .iter()
        .map(|x| Route::new(x.0.clone(), x.1.clone(), x.2).ok().unwrap())
        .collect()
}

#[test]
fn instantiation_should_fail_if_source_and_destination_are_the_same() {
    let attempt_route = Route::new(String::from("A"), String::from("A"), 5);
    assert_eq!(attempt_route, Err("Impossible to have a route to itself"));
}

#[test]
fn instantiation_should_fail_if_distance_is_zero() {
    let attempt_route = Route::new(String::from("A"), String::from("B"), 0);
    assert_eq!(
        attempt_route,
        Err("A route with zero distance is a route to itself")
    );
}

#[test]
fn route_instantiation_should_succeed_if_parameters_are_acceptable() {
    let attempt_route = Route::new(String::from("A"), String::from("B"), 1);
    let route = attempt_route.unwrap();
    assert_eq!(
        (route.source(), route.destination(), route.distance()),
        ("A".to_string(), "B".to_string(), 1)
    );
}

#[test]
fn instantiation_should_succeed_when_parameters_come_from_tuple() {
    let route_tuple = ("A".to_string(), "B".to_string(), 2);
    let route = Route::from_tuple(&route_tuple).ok().unwrap();
    assert_eq!(
        (route.source(), route.destination(), route.distance()),
        ("A".to_string(), "B".to_string(), 2)
    );
}

#[test]
fn from_tuple_refuses_as_new_does() {
    let same = ("X".to_string(), "X".to_string(), 4);
    assert_eq!(Route::from_tuple(&same), Err("Impossible to have a route to itself"));
    let free = ("X".to_string(), "Y".to_string(), 0);
    assert_eq!(
        Route::from_tuple(&free),
        Err("A route with zero distance is a route to itself")
    );
}

#[test]
fn format_should_print_route_message() {
    let route = Route::new(String::from("A"), String::from("B"), 1);
    assert_eq!(route.ok().unwrap().message(), "Route to A from B, costing 1");
}

#[test]
fn message_writes_the_whole_distance() {
    let route = Route::new(String::from("Oslo"), String::from("Bergen"), 4070).unwrap();
    assert_eq!(route.message(), "Route to Oslo from Bergen, costing 4070");
    let far = Route::new(String::from("a"), String::from("b"), usize::MAX).unwrap();
    assert_eq!(far.message(), format!("Route to a from b, costing {}", usize::MAX));
}

#[test]
fn endpoints_should_return_route_source_and_destiny() {
    let route = Route::new(String::from("A"), String::from("B"), 1)
        .ok()
        .unwrap();
    let endpoints = route.endpoints();
    assert_eq!(endpoints, ("A".to_string(), "B".to_string()))
}

#[test]
fn routes_with_same_endpoints_are_equal_whatever_the_distance() {
    let a = Route::new("A".to_string(), "B".to_string(), 1).unwrap();
    let b = Route::new("A".to_string(), "B".to_string(), 9).unwrap();
    let c = Route::new("B".to_string(), "A".to_string(), 1).unwrap();
    assert_eq!(a, b);
    assert_ne!(a, c);
}

#[test]
fn nodes_count_should_return_the_exact_number_of_nodes() {
    let rt = route_tuple();
    let routes = Routes::from(rt);

    assert_eq!(routes.nodes_count(), 5);
}

#[test]
fn routes_adjacency_matches_adj_list() {
    let rt = vec![
        ("pear".to_string(), "apple".to_string(), 2),
        ("apple".to_string(), "fig".to_string(), 3),
        ("pear".to_string(), "fig".to_string(), 5),
        ("fig".to_string(), "kiwi".to_string(), 1),
    ];
    let borrowed: Vec<(&str, &str, usize)> =
        rt.iter().map(|t| (t.0.as_str(), t.1.as_str(), t.2)).collect();
    let expected: Vec<Vec<(usize, usize)>> = adj_list(&borrowed)
        .iter()
        .map(|l| l.iter().map(|e| (e.to, e.cost)).collect())
        .collect();
    let routes = Routes::from(rt);
    assert_eq!(routes.nodes_count(), 4);
    let got: Vec<Vec<(usize, usize)>> = routes
        .adj_list()
        .iter()
        .map(|l| l.iter().map(|e| (e.to, e.cost)).collect())
        .collect();
    assert_eq!(got, expected);
    assert_eq!(got, vec![vec![(1, 3)], vec![(2, 1)], vec![], vec![(0, 2), (1, 5)]]);
}

#[test]
fn route_tuple_is_the_sample_graph() {
    let rt = route_tuple();
    assert_eq!(
        rt,
        vec![
            ("A".to_string(), "B".to_string(), 1),
            ("B".to_string(), "C".to_string(), 1),
            ("C".to_string(), "D".to_string(), 1),
            ("B".to_string(), "D".to_string(), 1),
            ("E".to_string(), "A".to_string(), 1),
        ]
    );
}

#[test]
fn instantiation_should_fail_if_there_are_no_routes() {
    let empty_routes_array: Vec<Route> = Vec::new();
    let attempt_trajectories = Trajectories::new(empty_routes_array);
    assert_eq!(attempt_trajectories, Err("There cannot be no routes"))
}

#[test]
fn instantiation_should_fail_if_there_are_repeated_routes() {
    let routes = mock_routes();
    let mut trajectories = Trajectories::new(routes).ok().unwrap();

    let repeated_route = Route::new("E".to_string(), "A".to_string(), 2)
        .ok()
        .unwrap();

    let result = trajectories.append(&mut Vec::from([repeated_route]));
    assert_eq!(result, Err("There cannot be repetition of a given route"))
}

#[test]
fn trajectory_instantiation_should_succeed_if_parameters_are_acceptable() {
    let routes = mock_routes();
    let trajectories = Trajectories::new(routes[..1].to_vec()).ok().unwrap();

    assert_eq!(trajectories.routes(), &routes[..1].to_vec())
}

#[test]
fn count_nodes_should_return_unique_count() {
    let routes = mock_routes();
    let trajectories = Trajectories::new(routes).ok().unwrap();

    assert_eq!(trajectories.nodes().len(), 5);
}

#[test]
fn nodes_come_in_label_order() {
    let routes = vec![
        Route::new("delta".to_string(), "alpha".to_string(), 3).unwrap(),
        Route::new("charlie".to_string(), "delta".to_string(), 1).unwrap(),
    ];
    let trajectories = Trajectories::new(routes).unwrap();
    assert_eq!(trajectories.nodes(), vec!["alpha", "charlie", "delta"]);
}

#[test]
fn new_refuses_repeated_routes() {
    let mut routes = mock_routes();
    routes.push(Route::new("B".to_string(), "C".to_string(), 7).unwrap());
    assert_eq!(
        Trajectories::new(routes),
        Err("There cannot be repetition of a given route")
    );
}

#[test]
fn append_adds_new_routes_and_empties_the_argument() {
    let mut trajectories = Trajectories::new(mock_routes()).unwrap();
    let mut more = vec![Route::new("D".to_string(), "E".to_string(), 2).unwrap()];
    assert_eq!(trajectories.append(&mut more), Ok(()));
    assert!(more.is_empty());
    assert_eq!(trajectories.routes().len(), 6);
    assert_eq!(trajectories.nodes().len(), 5);
}

#[test]
fn append_refuses_a_repetition_among_the_new_routes() {
    let mut trajectories = Trajectories::new(mock_routes()).unwrap();
    let mut more = vec![
        Route::new("D".to_string(), "E".to_string(), 2).unwrap(),
        Route::new("D".to_string(), "E".to_string(), 3).unwrap(),
    ];
    assert_eq!(
        trajectories.append(&mut more),
        Err("There cannot be repetition of a given route")
    );
    assert_eq!(more.len(), 2);
    assert_eq!(trajectories.routes().len(), 5);
}

#[test]
fn from_routes_tuples_builds_or_refuses() {
    let t = Trajectories::from_routes_tuples(route_tuple()).unwrap();
    assert_eq!(t.routes().len(), 5);
    assert_eq!(
        Trajectories::from_routes_tuples(Vec::new()),
        Err("There cannot be no routes")
    );
    let mut twice = route_tuple();
    twice.push(("A".to_string(), "B".to_string(), 3));
    assert_eq!(
        Trajectories::from_routes_tuples(twice),
        Err("There cannot be repetition of a given route")
    );
}
