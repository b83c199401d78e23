use netflixgraph::analysis::{analyze_graph, per_year_additions, year_with_greatest_change};
use netflixgraph::graph::YearGraph;

fn built(counts: Vec<(i32, usize)>) -> YearGraph {
    let mut g = YearGraph::new();
    g.add_sorted_years(&counts);
    g.connect_all_years();
    g
}

#[test]
fn test_analyze_totals() {
    let g = built(vec![(2019, 100), (2020, 150), (2021, 150)]);
    let s = analyze_graph(&g);
    assert_eq!(s.total_years, 3);
    assert_eq!(s.total_transitions, 2);
    assert_eq!(s.total_additions, 300);
}

#[test]
fn test_analyze_empty_graph() {
    let g = YearGraph::new();
    let s = analyze_graph(&g);
    assert_eq!(s.total_years, 0);
    assert_eq!(s.total_transitions, 0);
    assert_eq!(s.total_additions, 0);
    assert!(per_year_additions(&g).is_empty());
    assert_eq!(year_with_greatest_change(&g), (-1, 0, 0));
}

#[test]
fn test_first_year_reaching_maximum_wins() {
    // outgoing sums per node: 2019 -> 100, 2020 -> 150, 2021 -> 150, 2022 -> 0
    let g = built(vec![(2019, 50), (2020, 100), (2021, 150), (2022, 150)]);
    assert_eq!(year_with_greatest_change(&g), (2019, 2020, 150));
}

#[test]
fn test_per_year_additions_order_and_values() {
    let g = built(vec![(2019, 100), (2020, 500), (2022, 10)]);
    let per_year = per_year_additions(&g);
    assert_eq!(per_year, vec![(2019, 500), (2020, 0), (2022, 0)]);
}

#[test]
fn test_no_positive_weight_degenerate_result() {
    let single = built(vec![(2020, 5)]);
    assert_eq!(year_with_greatest_change(&single), (-1, 0, 0));

    let zero_weights = built(vec![(2019, 0), (2020, 0)]);
    assert_eq!(zero_weights.edge_weight_between(2019, 2020), Some(0));
    assert_eq!(year_with_greatest_change(&zero_weights), (-1, 0, 0));
}
