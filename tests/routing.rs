use phonebook::dense::{dijkstra_cost, INF};
use phonebook::graph::{build_graph, roads_usable, Graph};
use phonebook::models::{City, Road};
use phonebook::paths::{dijkstra, format_path, shortest_paths};

fn city(id: i32, name: &str) -> City {
    City { id: Some(id), name: name.to_string() }
}

fn road(a: i32, b: i32, length: i32) -> Road {
    Road { id: None, city_a: a, city_b: b, length }
}

fn pairs(g: &Graph, name: &str) -> Vec<(i32, String)> {
    g.neighbours(name).expect("node is present")
}

fn four_nodes() -> Graph {
    build_graph(
        vec![city(1, "A"), city(2, "B"), city(3, "C"), city(4, "D")],
        vec![road(1, 2, 1), road(2, 3, 2), road(1, 3, 10), road(3, 4, 1)],
    )
}

#[test]
fn start_maps_to_no_predecessor_and_zero() {
    let paths = shortest_paths("A".to_string(), four_nodes());
    assert_eq!(paths.get("A"), Some((None, 0)));
}

#[test]
fn every_edge_is_listed_under_both_ends() {
    let g = build_graph(vec![city(1, "A"), city(2, "B")], vec![road(1, 2, 5)]);
    assert_eq!(pairs(&g, "A"), vec![(5, "B".to_string())]);
    assert_eq!(pairs(&g, "B"), vec![(5, "A".to_string())]);
}

#[test]
fn neighbours_keep_edge_order() {
    let g = four_nodes();
    assert_eq!(pairs(&g, "A"), vec![(1, "B".to_string()), (10, "C".to_string())]);
    assert_eq!(
        pairs(&g, "C"),
        vec![(2, "B".to_string()), (10, "A".to_string()), (1, "D".to_string())]
    );
    assert_eq!(pairs(&g, "D"), vec![(1, "C".to_string())]);
    assert_eq!(g.neighbours("Z"), None);
}

#[test]
fn rebuilding_gives_the_same_map() {
    let first = four_nodes();
    let second = four_nodes();
    for name in ["A", "B", "C", "D", "E"] {
        assert_eq!(first.neighbours(name), second.neighbours(name));
    }
}

#[test]
fn unreachable_nodes_have_no_entry() {
    let g = build_graph(
        vec![city(1, "A"), city(2, "B"), city(3, "E")],
        vec![road(1, 2, 3)],
    );
    let paths = shortest_paths("A".to_string(), g);
    assert!(paths.contains_key("B"));
    assert!(!paths.contains_key("E"));
    assert_eq!(paths.get("E"), None);
    assert_eq!(paths.get("nowhere"), None);
}

#[test]
fn chain_renders_and_costs_seven() {
    let g = build_graph(
        vec![city(1, "A"), city(2, "B"), city(3, "C")],
        vec![road(1, 2, 3), road(2, 3, 4)],
    );
    let paths = shortest_paths("A".to_string(), g);
    assert_eq!(paths.get("C"), Some((Some("B".to_string()), 7)));
    let text = format_path("A".to_string(), "C".to_string(), &paths);
    assert_eq!(text, "Path from A to C: \nA ---> B ---> C ");
}

#[test]
fn four_node_route_goes_round_the_long_edge() {
    let paths = shortest_paths("A".to_string(), four_nodes());
    assert_eq!(paths.get("D"), Some((Some("C".to_string()), 4)));
    assert_eq!(paths.get("C"), Some((Some("B".to_string()), 3)));
    assert_eq!(paths.get("B"), Some((Some("A".to_string()), 1)));
    let text = format_path("A".to_string(), "D".to_string(), &paths);
    assert_eq!(text, "Path from A to D: \nA ---> B ---> C ---> D ");
}

#[test]
fn disconnected_node_is_absent() {
    let g = build_graph(
        vec![city(1, "A"), city(2, "B"), city(3, "C"), city(4, "D"), city(5, "E")],
        vec![road(1, 2, 1), road(2, 3, 2), road(1, 3, 10), road(3, 4, 1)],
    );
    let paths = shortest_paths("A".to_string(), g);
    assert!(!paths.contains_key("E"));
    assert!(paths.contains_key("D"));
}

#[test]
fn self_loop_changes_nothing() {
    let g = build_graph(
        vec![city(1, "A"), city(2, "B")],
        vec![road(1, 1, 5), road(1, 2, 2)],
    );
    assert_eq!(
        pairs(&g, "A"),
        vec![(5, "A".to_string()), (5, "A".to_string()), (2, "B".to_string())]
    );
    let paths = shortest_paths("A".to_string(), g);
    assert_eq!(paths.get("A"), Some((None, 0)));
    assert_eq!(paths.get("B"), Some((Some("A".to_string()), 2)));
}

#[test]
fn route_to_the_start_is_the_start_alone() {
    let paths = shortest_paths("B".to_string(), four_nodes());
    let text = format_path("B".to_string(), "B".to_string(), &paths);
    assert_eq!(text, "Path from B to B: \nB ");
    assert_eq!(paths.get("A"), Some((Some("B".to_string()), 1)));
    assert_eq!(paths.get("D"), Some((Some("C".to_string()), 3)));
}

#[test]
fn goal_search_gives_the_goal_least_cost() {
    let paths = dijkstra("A".to_string(), "D".to_string(), four_nodes());
    assert_eq!(paths.get("D"), Some((Some("C".to_string()), 4)));
    assert_eq!(paths.get("A"), Some((None, 0)));
    let text = format_path("A".to_string(), "D".to_string(), &paths);
    assert_eq!(text, "Path from A to D: \nA ---> B ---> C ---> D ");
}

#[test]
fn goal_search_stops_without_unreachable_goal() {
    let g = build_graph(
        vec![city(1, "A"), city(2, "B"), city(3, "E")],
        vec![road(1, 2, 3)],
    );
    let paths = dijkstra("A".to_string(), "E".to_string(), g);
    assert!(!paths.contains_key("E"));
    assert_eq!(paths.get("B"), Some((Some("A".to_string()), 3)));
    assert_eq!(paths.get("A"), Some((None, 0)));
}

#[test]
fn goal_equal_to_start_costs_nothing() {
    let paths = dijkstra("C".to_string(), "C".to_string(), four_nodes());
    assert_eq!(paths.get("C"), Some((None, 0)));
}

#[test]
fn nodes_sharing_a_name_share_an_entry() {
    let g = build_graph(
        vec![city(1, "A"), city(2, "B"), city(3, "B")],
        vec![road(1, 2, 4), road(1, 3, 6)],
    );
    assert_eq!(pairs(&g, "B"), vec![(4, "A".to_string()), (6, "A".to_string())]);
    assert_eq!(pairs(&g, "A"), vec![(4, "B".to_string()), (6, "B".to_string())]);
    let paths = shortest_paths("A".to_string(), g);
    assert_eq!(paths.get("B"), Some((Some("A".to_string()), 4)));
}

#[test]
fn zero_weight_edges_are_followed() {
    let g = build_graph(
        vec![city(1, "A"), city(2, "B"), city(3, "C")],
        vec![road(1, 2, 0), road(2, 3, 0), road(1, 3, 1)],
    );
    let paths = shortest_paths("A".to_string(), g);
    assert_eq!(paths.get("C").map(|e| e.1), Some(0));
}

#[test]
fn large_weights_do_not_overflow() {
    let g = build_graph(
        vec![city(1, "A"), city(2, "B"), city(3, "C")],
        vec![road(1, 2, i32::MAX), road(2, 3, i32::MAX)],
    );
    let paths = shortest_paths("A".to_string(), g);
    assert_eq!(paths.get("C").map(|e| e.1), Some(2 * i32::MAX as i64));
}

#[test]
fn dense_costs_take_each_entering_weight() {
    assert_eq!(dijkstra_cost(3, 0, vec![5, 2, 7]), vec![0, 2, 7]);
}

#[test]
fn dense_node_past_the_weights_keeps_inf() {
    assert_eq!(dijkstra_cost(3, 1, vec![4]), vec![4, 0, INF]);
}

#[test]
fn dense_weight_above_inf_is_capped() {
    assert_eq!(dijkstra_cost(3, 2, vec![i32::MAX, INF, 0]), vec![INF, INF, 0]);
    assert_eq!(dijkstra_cost(2, 0, vec![]), vec![0, INF]);
}

#[test]
fn dense_single_node() {
    assert_eq!(dijkstra_cost(1, 0, vec![3]), vec![0]);
}

#[test]
fn both_variants_agree_on_a_star() {
    // roads from node 0 weigh what enters each other node
    let weights = vec![5, 2, 7];
    let g = build_graph(
        vec![city(1, "n0"), city(2, "n1"), city(3, "n2")],
        vec![road(1, 2, weights[1]), road(1, 3, weights[2])],
    );
    let paths = shortest_paths("n0".to_string(), g);
    let dense = dijkstra_cost(3, 0, weights);
    for (i, name) in ["n0", "n1", "n2"].iter().enumerate() {
        assert_eq!(paths.get(name).map(|e| e.1), Some(dense[i] as i64));
    }
}

#[test]
fn goal_that_names_no_node_searches_everything() {
    let paths = dijkstra("A".to_string(), "Z".to_string(), four_nodes());
    assert_eq!(paths.get("D"), Some((Some("C".to_string()), 4)));
    assert!(!paths.contains_key("Z"));
}

#[test]
fn five_node_costs() {
    let names = ["A", "B", "C", "D", "E"];
    let roads = [(0, 1, 7), (0, 2, 9), (0, 4, 14), (1, 2, 10), (1, 3, 15), (2, 3, 11), (2, 4, 2), (3, 4, 6)];
    let nodes: Vec<City> = names.iter().enumerate().map(|(i, s)| city(i as i32 + 1, s)).collect();
    let edges: Vec<Road> = roads.iter().map(|&(a, b, w)| road(a + 1, b + 1, w)).collect();
    let paths = shortest_paths("A".to_string(), build_graph(nodes, edges));
    let expected = [0, 7, 9, 17, 11];
    for (i, name) in names.iter().enumerate() {
        assert_eq!(paths.get(name).map(|e| e.1), Some(expected[i]));
    }
    let text = format_path("A".to_string(), "D".to_string(), &paths);
    assert_eq!(text, "Path from A to D: \nA ---> C ---> E ---> D ");
}

#[test]
fn costs_are_the_same_both_ways() {
    let from_a = dijkstra("A".to_string(), "Z".to_string(), four_nodes());
    let from_d = dijkstra("D".to_string(), "Z".to_string(), four_nodes());
    assert_eq!(from_a.get("D").map(|e| e.1), from_d.get("A").map(|e| e.1));
    assert_eq!(from_d.get("A"), Some((Some("B".to_string()), 4)));
}

#[test]
fn usable_lists_are_recognised() {
    let nodes = vec![city(1, "A"), city(2, "B")];
    assert!(roads_usable(&nodes, &vec![road(1, 2, 3), road(2, 2, 0)]));
    assert!(roads_usable(&nodes, &vec![]));
    assert!(!roads_usable(&nodes, &vec![road(1, 3, 3)]));
    assert!(!roads_usable(&nodes, &vec![road(1, 2, -1)]));
    let unsaved = vec![city(1, "A"), City { id: None, name: "B".to_string() }];
    assert!(!roads_usable(&unsaved, &vec![]));
}
