use graph_stats::graph::Graph;
use graph_stats::stats::degree_distribution;
use graph_stats::stats::distance2_distribution;

fn four_node_two_edge_graph() -> Graph {
    let mut g = Graph::new();
    g.add_node();
    g.add_node();
    g.add_node();
    g.add_node();
    g.add_edge(0, 1);
    g.add_edge(1, 2);
    g
}

#[test]
fn test_degree_distribution() {
    let g = four_node_two_edge_graph();
    let dist = degree_distribution(&g);
    let expected = vec![(0, 2), (1, 2)];
    assert_eq!(dist, expected);
}

#[test]
fn test_distance2_distribution() {
    let g = four_node_two_edge_graph();
    let dist2 = distance2_distribution(&g);
    let expected2 = vec![(0, 3), (1, 1)];
    assert_eq!(dist2, expected2);
}

#[test]
fn empty_graph_has_empty_distributions() {
    let g = Graph::new();
    assert_eq!(g.node_count(), 0);
    assert_eq!(g.edge_count(), 0);
    assert_eq!(degree_distribution(&g), vec![]);
    assert_eq!(distance2_distribution(&g), vec![]);
}

#[test]
fn degree_counts_sum_to_node_count() {
    let mut g = Graph::new();
    for _ in 0..5 {
        g.add_node();
    }
    g.add_edge(0, 1);
    g.add_edge(0, 2);
    g.add_edge(3, 4);
    let dist = degree_distribution(&g);
    assert_eq!(dist, vec![(0, 3), (1, 1), (2, 1)]);
    let total: usize = dist.iter().map(|&(_, c)| c).sum();
    assert_eq!(total, g.node_count());
    let dist2 = distance2_distribution(&g);
    let total2: usize = dist2.iter().map(|&(_, c)| c).sum();
    assert_eq!(total2, g.node_count());
}

#[test]
fn duplicate_edge_insertion_collapses() {
    let mut g = Graph::new();
    g.add_node();
    g.add_node();
    g.add_edge(0, 1);
    g.add_edge(0, 1);
    assert_eq!(g.edge_count(), 1);
    assert_eq!(degree_distribution(&g), vec![(0, 1), (1, 1)]);
}

#[test]
fn self_loop_counts_as_one_successor() {
    let mut g = Graph::new();
    g.add_node();
    g.add_edge(0, 0);
    assert_eq!(g.edge_count(), 1);
    assert!(g.has_edge(0, 0));
    assert_eq!(degree_distribution(&g), vec![(1, 1)]);
    // the node itself is excluded from its own distance-2 set
    assert_eq!(distance2_distribution(&g), vec![(0, 1)]);
}

#[test]
fn distance2_excludes_direct_successors() {
    // 0 -> 1, 0 -> 2, 1 -> 2: node 2 is two hops from 0 but also a direct
    // successor of 0, so it does not count for node 0
    let mut g = Graph::new();
    g.add_node();
    g.add_node();
    g.add_node();
    g.add_edge(0, 1);
    g.add_edge(0, 2);
    g.add_edge(1, 2);
    assert_eq!(distance2_distribution(&g), vec![(0, 3)]);
}

#[test]
fn distance2_on_a_chain() {
    // 0 -> 1 -> 2 -> 3: nodes 0 and 1 each reach exactly one node in two hops
    let mut g = Graph::new();
    g.add_node();
    g.add_node();
    g.add_node();
    g.add_node();
    g.add_edge(0, 1);
    g.add_edge(1, 2);
    g.add_edge(2, 3);
    assert_eq!(distance2_distribution(&g), vec![(0, 2), (1, 2)]);
}

#[test]
fn recomputing_distributions_is_idempotent() {
    let g = four_node_two_edge_graph();
    assert_eq!(degree_distribution(&g), degree_distribution(&g));
    assert_eq!(distance2_distribution(&g), distance2_distribution(&g));
}
