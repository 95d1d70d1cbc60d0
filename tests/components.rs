use citation_components::component_functions::{
    components_by_size, count_components, get_component_scale, mark_component_bfs,
};
use citation_components::graph::{Graph, GraphError, NodeData};
use std::collections::HashMap;

fn graph(n: usize, edges: &[(usize, usize)]) -> Graph {
    Graph::create_directed(n, &edges.to_vec(), HashMap::new(), HashMap::new()).unwrap()
}

fn symmetric(n: usize, edges: &[(usize, usize)]) -> Graph {
    let mut all = Vec::new();
    for &(a, b) in edges {
        all.push((a, b));
        all.push((b, a));
    }
    graph(n, &all)
}

fn fractions(curve: &[usize], n: usize) -> Vec<f64> {
    curve.iter().map(|&c| c as f64 / n as f64).collect()
}

fn node(label: &str, subject: &str) -> NodeData {
    NodeData {
        mapped_node: 0,
        label: label.to_string(),
        subject: subject.to_string(),
        features: vec![1, 0],
    }
}

#[test]
fn five_vertex_scenario() {
    let g = graph(5, &[(0, 1), (1, 0), (1, 2), (2, 1), (3, 4), (4, 3)]);
    let (labels, k) = g.connected_components();
    assert_eq!(k, 2);
    let c = labels[0].unwrap();
    let d = labels[3].unwrap();
    assert_ne!(c, d);
    assert_eq!(labels, vec![Some(c), Some(c), Some(c), Some(d), Some(d)]);
    let counts = count_components(&labels, k);
    assert_eq!(counts[c], 3);
    assert_eq!(counts[d], 2);
    let scale = get_component_scale(&labels, k, true);
    assert_eq!(scale, vec![0, 3, 5]);
    assert_eq!(fractions(&scale, 5), vec![0.0, 0.6, 1.0]);
}

#[test]
fn two_disjoint_clusters() {
    // a cluster of three (0, 2, 4) and one of two (1, 3), interleaved
    let g = symmetric(5, &[(0, 2), (2, 4), (4, 0), (1, 3)]);
    let (labels, k) = g.connected_components();
    assert_eq!(k, 2);
    let mut counts = count_components(&labels, k);
    counts.sort();
    assert_eq!(counts, vec![2, 3]);
    assert_eq!(labels[0], labels[2]);
    assert_eq!(labels[0], labels[4]);
    assert_eq!(labels[1], labels[3]);
    assert_ne!(labels[0], labels[1]);
    let scale = get_component_scale(&labels, k, true);
    assert_eq!(fractions(&scale, 5), vec![0.0, 0.6, 1.0]);
}

#[test]
fn empty_graph() {
    let g = graph(0, &[]);
    let (labels, k) = g.connected_components();
    assert!(labels.is_empty());
    assert_eq!(k, 0);
    assert!(count_components(&labels, k).is_empty());
    assert!(get_component_scale(&labels, k, true).is_empty());
    assert!(get_component_scale(&labels, k, false).is_empty());
}

#[test]
fn cycle_is_one_component() {
    let n = 7;
    let edges: Vec<(usize, usize)> = (0..n).map(|v| (v, (v + 1) % n)).collect();
    let g = symmetric(n, &edges);
    let (labels, k) = g.connected_components();
    assert_eq!(k, 1);
    assert!(labels.iter().all(|l| *l == Some(0)));
    assert_eq!(count_components(&labels, k), vec![7]);
}

#[test]
fn labels_are_total_and_numbered_in_order_of_first_vertex() {
    let g = symmetric(8, &[(5, 6), (0, 7), (2, 3), (3, 4)]);
    let (labels, k) = g.connected_components();
    assert_eq!(k, 4);
    assert_eq!(
        labels,
        vec![Some(0), Some(1), Some(2), Some(2), Some(2), Some(3), Some(3), Some(0)]
    );
    let counts = count_components(&labels, k);
    assert_eq!(counts.iter().sum::<usize>(), 8);
}

#[test]
fn traversal_follows_out_edges_only() {
    // 1 -> 0 only: starting at 0 does not reach 1
    let g = graph(2, &[(1, 0)]);
    let (labels, k) = g.connected_components();
    assert_eq!(k, 2);
    assert_eq!(labels, vec![Some(0), Some(1)]);
}

#[test]
fn bfs_marks_reachable_unlabelled_vertices() {
    let g = graph(4, &[(0, 1), (1, 2), (3, 0)]);
    let mut labels = vec![None; 4];
    mark_component_bfs(0, &g, &mut labels, 0);
    assert_eq!(labels, vec![Some(0), Some(0), Some(0), None]);
    mark_component_bfs(3, &g, &mut labels, 1);
    assert_eq!(labels, vec![Some(0), Some(0), Some(0), Some(1)]);
}

#[test]
fn count_sums_to_vertex_count() {
    let g = symmetric(10, &[(0, 1), (2, 3), (3, 4), (6, 7), (7, 8), (8, 9)]);
    let (labels, k) = g.connected_components();
    let counts = count_components(&labels, k);
    assert_eq!(counts.len(), k);
    assert_eq!(counts.iter().sum::<usize>(), 10);
}

#[test]
fn coverage_curve_shape() {
    let g = symmetric(10, &[(0, 1), (2, 3), (3, 4), (6, 7), (7, 8), (8, 9)]);
    let (labels, k) = g.connected_components();
    let sorted = get_component_scale(&labels, k, true);
    assert_eq!(sorted, vec![0, 4, 7, 9, 10]);
    let unsorted = get_component_scale(&labels, k, false);
    assert_eq!(unsorted, vec![0, 2, 5, 6, 10]);
    for curve in [&sorted, &unsorted] {
        assert_eq!(curve[0], 0);
        assert_eq!(*curve.last().unwrap(), 10);
        assert!(curve.windows(2).all(|w| w[0] <= w[1]));
    }
    let f = fractions(&sorted, 10);
    assert_eq!(f, vec![0.0, 0.4, 0.7, 0.9, 1.0]);
}

#[test]
fn components_by_size_orders_largest_first() {
    let order = components_by_size(&vec![2, 5, 1, 5]);
    assert_eq!(order, vec![(1, 5), (3, 5), (0, 2), (2, 1)]);
    assert!(components_by_size(&vec![]).is_empty());
}

#[test]
fn create_directed_keeps_duplicates_and_refuses_out_of_range() {
    let g = graph(3, &[(0, 1), (0, 1), (2, 2), (1, 0)]);
    assert_eq!(g.outedges, vec![vec![1, 1], vec![0], vec![2]]);
    let bad = Graph::create_directed(2, &vec![(0, 2)], HashMap::new(), HashMap::new());
    assert_eq!(bad.unwrap_err(), GraphError::EdgeOutOfRange { from: 0, to: 2 });
}

#[test]
fn from_records_maps_paper_ids_to_vertices() {
    let nodes = vec![(31, node("a", "x")), (7, node("b", "y")), (12, node("c", "x"))];
    let g = Graph::from_records(nodes, &vec![(31, 12), (12, 7), (7, 31)]).unwrap();
    assert_eq!(g.n, 3);
    assert_eq!(g.outedges, vec![vec![2], vec![0], vec![1]]);
    assert_eq!(g.reverse_map[&0], 31);
    assert_eq!(g.reverse_map[&1], 7);
    assert_eq!(g.reverse_map[&2], 12);
    assert_eq!(g.node_data[&7].mapped_node, 1);
    assert_eq!(g.node_data[&12].label, "c");
}

#[test]
fn from_records_errors() {
    let dup = Graph::from_records(vec![(1, node("a", "x")), (1, node("b", "x"))], &vec![]);
    assert_eq!(dup.unwrap_err(), GraphError::DuplicateNode { id: 1 });
    let nodes = || vec![(1, node("a", "x")), (2, node("b", "x"))];
    let src = Graph::from_records(nodes(), &vec![(1, 2), (9, 2)]);
    assert_eq!(src.unwrap_err(), GraphError::UnknownSource { id: 9 });
    let tgt = Graph::from_records(nodes(), &vec![(1, 8)]);
    assert_eq!(tgt.unwrap_err(), GraphError::UnknownTarget { id: 8 });
    let first = Graph::from_records(nodes(), &vec![(1, 2), (2, 8), (9, 1)]);
    assert_eq!(first.unwrap_err(), GraphError::UnknownTarget { id: 8 });
    let both = Graph::from_records(nodes(), &vec![(5, 6)]);
    assert_eq!(both.unwrap_err(), GraphError::UnknownSource { id: 5 });
}

#[test]
fn bfs_relabels_the_start_and_stops_at_labelled_vertices() {
    // 0 -> 1 -> 2 -> 3, with 1 already labelled: 2 and 3 are reached only through it
    let g = graph(4, &[(0, 1), (1, 2), (2, 3)]);
    let mut labels = vec![Some(5), Some(4), None, None];
    mark_component_bfs(0, &g, &mut labels, 9);
    assert_eq!(labels, vec![Some(9), Some(4), None, None]);
    let mut labels = vec![None, None, Some(1), None];
    mark_component_bfs(0, &g, &mut labels, 2);
    assert_eq!(labels, vec![Some(2), Some(2), Some(1), None]);
}
