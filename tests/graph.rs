use nodes::distance::DistanceMetric;
use nodes::graph::{EdgeWeight, VectorGraph, VectorNode};

fn node(id: u64, layer: usize) -> VectorNode {
    VectorNode::new(id, vec![id as u32, 1], layer, 4)
}

fn w(d: u32) -> EdgeWeight {
    EdgeWeight::new(d, DistanceMetric::Euclidean)
}

#[test]
fn nodes_are_added_once() {
    let mut g = VectorGraph::new(DistanceMetric::Euclidean, 8);
    assert!(g.add_node(node(10, 0)));
    assert!(!g.add_node(node(10, 3)));
    assert_eq!(g.node_count(), 1);
    assert_eq!(g.get_node(10).unwrap().layer, 0);
    assert_eq!(g.get_node(10).unwrap().dimension(), 2);
    assert!(g.contains_node(10));
    assert!(!g.contains_node(11));
    assert!(g.get_node(11).is_none());
}

#[test]
fn params_use_the_default_cap() {
    let mut g = VectorGraph::new(DistanceMetric::Cosine, 8);
    assert!(g.add_node_with_params(1, vec![1, 2], 2, None));
    assert!(g.add_node_with_params(2, vec![1, 2], 0, Some(3)));
    assert!(!g.add_node_with_params(2, vec![], 0, Some(3)));
    assert_eq!(g.get_node(1).unwrap().max_connections, 8);
    assert_eq!(g.get_node(2).unwrap().max_connections, 3);
    assert!(g.add_edge_with_distance(1, 2, 77));
    assert_eq!(g.get_edge_weight(2, 1), Some(EdgeWeight::new(77, DistanceMetric::Cosine)));
}

#[test]
fn edges_are_never_duplicated() {
    let mut g = VectorGraph::new(DistanceMetric::Euclidean, 8);
    g.add_node(node(1, 0));
    g.add_node(node(2, 0));
    assert!(g.add_edge(1, 2, w(5)));
    assert!(!g.add_edge(1, 2, w(6)));
    assert!(!g.add_edge(2, 1, w(6)));
    assert!(!g.add_edge(1, 3, w(6)));
    assert_eq!(g.edge_count(), 1);
    assert_eq!(g.get_edge_weight(1, 2), Some(w(5)));
    assert!(g.has_edge(2, 1));
}

#[test]
fn neighbors_distinguish_missing_nodes() {
    let mut g = VectorGraph::new(DistanceMetric::Euclidean, 8);
    g.add_node(node(1, 0));
    assert_eq!(g.get_neighbors(1), Some(vec![]));
    assert_eq!(g.get_neighbors(2), None);
    g.add_node(node(2, 0));
    g.add_node(node(3, 0));
    g.add_edge(1, 2, w(1));
    g.add_edge(3, 1, w(2));
    let mut n = g.get_neighbors(1).unwrap();
    n.sort();
    assert_eq!(n, vec![2, 3]);
    let mut nw = g.get_neighbors_with_weights(1).unwrap();
    nw.sort_by_key(|p| p.0);
    assert_eq!(nw, vec![(2, w(1)), (3, w(2))]);
    assert!(g.get_neighbors_with_weights(9).is_none());
}

#[test]
fn edges_are_removed_and_reweighted() {
    let mut g = VectorGraph::new(DistanceMetric::Euclidean, 8);
    for i in 1..=3 {
        g.add_node(node(i, 0));
    }
    g.add_edge(1, 2, w(1));
    g.add_edge(2, 3, w(2));
    assert!(g.update_edge_weight(3, 2, w(9)));
    assert_eq!(g.get_edge_weight(2, 3), Some(w(9)));
    assert!(!g.update_edge_weight(1, 3, w(9)));
    assert!(g.remove_edge(2, 1));
    assert!(!g.remove_edge(1, 2));
    assert!(!g.has_edge(1, 2));
    assert_eq!(g.edge_count(), 1);
    assert_eq!(g.get_edge_weight(2, 3), Some(w(9)));
}

#[test]
fn removing_a_node_keeps_the_others_reachable() {
    let mut g = VectorGraph::new(DistanceMetric::Euclidean, 8);
    for i in 1..=4 {
        g.add_node(node(i, i as usize));
    }
    g.add_edge(1, 2, w(1));
    g.add_edge(1, 4, w(2));
    g.add_edge(3, 4, w(3));
    assert!(g.remove_node(1));
    assert!(!g.remove_node(1));
    assert_eq!(g.node_count(), 3);
    assert_eq!(g.edge_count(), 1);
    assert!(g.get_node(1).is_none());
    // the node stored last is moved by the removal; it must still be found
    assert_eq!(g.get_node(4).unwrap().id, 4);
    assert_eq!(g.get_node(4).unwrap().layer, 4);
    assert_eq!(g.get_neighbors(4), Some(vec![3]));
    assert_eq!(g.get_neighbors(2), Some(vec![]));
    assert!(g.has_edge(4, 3));
    assert!(g.add_edge(2, 4, w(5)));
    assert!(g.has_edge(4, 2));
}

#[test]
fn layer_queries() {
    let mut g = VectorGraph::new(DistanceMetric::Euclidean, 8);
    assert_eq!(g.max_layer(), None);
    g.add_node(node(1, 0));
    g.add_node(node(2, 3));
    g.add_node(node(3, 0));
    assert_eq!(g.max_layer(), Some(3));
    let mut at0 = g.get_nodes_at_layer(0);
    at0.sort();
    assert_eq!(at0, vec![1, 3]);
    assert_eq!(g.get_nodes_at_layer(3), vec![2]);
    assert!(g.get_nodes_at_layer(1).is_empty());
}

#[test]
fn clear_empties_the_graph() {
    let mut g = VectorGraph::new(DistanceMetric::Euclidean, 8);
    g.add_node(node(1, 0));
    g.add_node(node(2, 0));
    g.add_edge(1, 2, w(1));
    g.clear();
    assert_eq!(g.node_count(), 0);
    assert_eq!(g.edge_count(), 0);
    assert!(!g.contains_node(1));
    assert!(g.add_node(node(1, 0)));
}

#[test]
fn weights_hold_from_either_end_and_survive_other_changes() {
    let mut g = VectorGraph::new(DistanceMetric::Euclidean, 8);
    for i in 1..=4 {
        g.add_node(node(i, 0));
    }
    g.add_edge(1, 2, w(1));
    g.add_edge(2, 3, w(2));
    g.add_edge(3, 4, w(3));
    assert!(g.update_edge_weight(2, 1, w(7)));
    assert_eq!(g.get_edge_weight(1, 2), Some(w(7)));
    assert_eq!(g.get_edge_weight(2, 1), Some(w(7)));
    assert!(g.remove_edge(3, 2));
    assert_eq!(g.get_edge_weight(4, 3), Some(w(3)));
    assert!(g.remove_node(1));
    assert_eq!(g.get_edge_weight(3, 4), Some(w(3)));
    assert!(g.add_edge_with_distance(2, 4, 11));
    assert_eq!(g.get_edge_weight(4, 2), Some(w(11)));
    assert_eq!(g.edge_count(), 2);
}

#[test]
fn single_node_layer_query_is_exact() {
    let mut g = VectorGraph::new(DistanceMetric::Euclidean, 16);
    assert!(g.add_node(node(42, 0)));
    assert_eq!(g.max_layer(), Some(0));
    assert_eq!(g.get_nodes_at_layer(g.max_layer().unwrap()), vec![42]);
}
