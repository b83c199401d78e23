use netflixgraph::graph::YearGraph;

#[test]
fn test_graph_construction() {
    let mut year_graph = YearGraph::new();
    year_graph.add_year(2019, 100);
    year_graph.add_year(2020, 150);
    year_graph.connect_all_years();

    assert!(year_graph.contains_year(2019));
    assert!(year_graph.contains_year(2020));

    // are 2019 and 2020 connected?
    let edge_weight = year_graph.edge_weight_between(2019, 2020);

    assert!(edge_weight.is_some(), "Edge between 2019 and 2020 should exist");

    assert_eq!(edge_weight.unwrap(), 150, "Edge weight between 2019 and 2020 should be 150");
}

#[test]
fn test_add_year_last_write_wins() {
    let mut g = YearGraph::new();
    g.add_year(2019, 100);
    g.add_year(2020, 150);
    g.add_year(2020, 999);
    assert_eq!(g.edge_weight_between(2019, 2020), Some(999));
    assert_eq!(g.node_count(), 2);
    assert_eq!(g.edge_count(), 1);
}

#[test]
fn test_adjacent_years_connected() {
    let mut g = YearGraph::new();
    let counts: Vec<(i32, usize)> = vec![(2019, 100), (2020, 150), (2021, 150)];
    g.add_sorted_years(&counts);
    g.connect_all_years();

    assert_eq!(g.node_count(), 3);
    assert_eq!(g.edge_count(), 2);
    assert_eq!(g.edge_weight_between(2019, 2020), Some(150));
    assert_eq!(g.edge_weight_between(2020, 2021), Some(150));
    assert_eq!(g.edge_weight_between(2019, 2021), None);
}

#[test]
fn test_gap_year_bridged_not_materialized() {
    let mut g = YearGraph::new();
    let counts: Vec<(i32, usize)> = vec![(2019, 100), (2020, 500), (2022, 10)];
    g.add_sorted_years(&counts);
    g.connect_all_years();

    assert!(g.contains_year(2019));
    assert!(g.contains_year(2020));
    assert!(g.contains_year(2022));
    assert!(!g.contains_year(2021));
    assert_eq!(g.node_count(), 3);
    assert_eq!(g.edge_count(), 2);
    assert_eq!(g.edge_weight_between(2019, 2020), Some(500));
    assert_eq!(g.edge_weight_between(2020, 2022), Some(0));
    assert_eq!(g.edge_weight_between(2021, 2022), None);
}

#[test]
fn test_unsorted_input_builds_ascending_nodes() {
    let mut g = YearGraph::new();
    let counts: Vec<(i32, usize)> = vec![(2021, 150), (2019, 100), (2020, 150)];
    g.add_sorted_years(&counts);
    g.connect_all_years();

    assert_eq!(g.node_count(), 3);
    assert_eq!(g.year_at(0), 2019);
    assert_eq!(g.year_at(1), 2020);
    assert_eq!(g.year_at(2), 2021);
    assert_eq!(g.edge_weight_between(2019, 2020), Some(150));
    assert_eq!(g.edge_weight_between(2020, 2021), Some(150));
    assert_eq!(g.edge_count(), 2);
}
