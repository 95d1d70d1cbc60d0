use citation_components::component_functions::count_components;
use citation_components::graph::Graph;
use citation_components::visualization_support::{
    advance_cursor, get_graph_dimensions, isqrt, ClusterRegion, MIN_RADIUS,
};
use rand::rngs::StdRng;
use rand::SeedableRng;
use std::collections::HashMap;

const BOUNDS: (i32, i32, i32, i32) = (-500, 500, -500, 500);

fn labels_of(n: usize, edges: &[(usize, usize)]) -> (Vec<Option<usize>>, usize) {
    let mut all = Vec::new();
    for &(a, b) in edges {
        all.push((a, b));
        all.push((b, a));
    }
    Graph::create_directed(n, &all, HashMap::new(), HashMap::new())
        .unwrap()
        .connected_components()
}

fn many_components() -> (Vec<Option<usize>>, usize) {
    // 40 vertices: pairs, triples and singletons
    let mut edges = Vec::new();
    for v in (0..20).step_by(2) {
        edges.push((v, v + 1));
    }
    for v in (20..32).step_by(3) {
        edges.push((v, v + 1));
        edges.push((v + 1, v + 2));
    }
    labels_of(40, &edges)
}

fn separated(a: &ClusterRegion, b: &ClusterRegion) -> bool {
    let dx = (a.center_x - b.center_x) as i128;
    let dy = (a.center_y - b.center_y) as i128;
    let rs = (a.radius + b.radius) as i128;
    dx * dx + dy * dy >= rs * rs
}

#[test]
fn accepted_regions_do_not_overlap() {
    let (labels, k) = many_components();
    for seed in 0..5 {
        let mut rng = StdRng::seed_from_u64(seed);
        let regions = get_graph_dimensions(&labels, k, BOUNDS, 12, 50, &mut rng);
        assert_eq!(regions.len(), k);
        assert!(regions[0].accepted);
        for (i, a) in regions.iter().enumerate() {
            assert!(BOUNDS.0 as i64 <= a.center_x && a.center_x <= BOUNDS.1 as i64);
            assert!(BOUNDS.2 as i64 <= a.center_y && a.center_y <= BOUNDS.3 as i64);
            for b in regions.iter().skip(i + 1) {
                if a.accepted && b.accepted {
                    assert!(separated(a, b));
                }
            }
        }
    }
}

#[test]
fn same_seed_gives_same_layout() {
    let (labels, k) = many_components();
    let mut first = StdRng::seed_from_u64(42);
    let mut second = StdRng::seed_from_u64(42);
    let a = get_graph_dimensions(&labels, k, BOUNDS, 12, 50, &mut first);
    let b = get_graph_dimensions(&labels, k, BOUNDS, 12, 50, &mut second);
    assert_eq!(a, b);
}

#[test]
fn different_seeds_move_the_cursor_differently() {
    let (labels, k) = many_components();
    let mut first = StdRng::seed_from_u64(1);
    let mut second = StdRng::seed_from_u64(2);
    let a = get_graph_dimensions(&labels, k, BOUNDS, 12, 50, &mut first);
    let b = get_graph_dimensions(&labels, k, BOUNDS, 12, 50, &mut second);
    // the first region sits at the starting cursor whatever the seed
    assert_eq!((a[0].center_x, a[0].center_y), (b[0].center_x, b[0].center_y));
    assert_ne!(a, b);
}

#[test]
fn regions_come_largest_first_with_every_component_once() {
    let (labels, k) = many_components();
    let counts = count_components(&labels, k);
    let mut rng = StdRng::seed_from_u64(3);
    let regions = get_graph_dimensions(&labels, k, BOUNDS, 12, 50, &mut rng);
    let sizes: Vec<usize> = regions.iter().map(|r| counts[r.component]).collect();
    assert!(sizes.windows(2).all(|w| w[0] >= w[1]));
    let mut ids: Vec<usize> = regions.iter().map(|r| r.component).collect();
    ids.sort();
    assert_eq!(ids, (0..k).collect::<Vec<_>>());
}

#[test]
fn single_component_radius_and_position() {
    let (labels, k) = labels_of(4, &[(0, 1), (1, 2), (2, 3)]);
    let mut rng = StdRng::seed_from_u64(0);
    let regions = get_graph_dimensions(&labels, k, BOUNDS, 3, 50, &mut rng);
    assert_eq!(regions.len(), 1);
    // the whole share: the smaller side over three
    assert_eq!(regions[0].radius, 333);
    assert_eq!((regions[0].center_x, regions[0].center_y), (-167, -167));
    assert!(regions[0].accepted);
}

#[test]
fn radius_follows_square_root_of_share_with_floor() {
    // sizes 16 and 1 out of 17
    let mut edges: Vec<(usize, usize)> = (0..15).map(|v| (v, v + 1)).collect();
    edges.push((0, 0));
    let (labels, k) = labels_of(17, &edges);
    let mut rng = StdRng::seed_from_u64(9);
    let regions = get_graph_dimensions(&labels, k, (0, 1000, 0, 1000), 1, 50, &mut rng);
    // floor(sqrt(16 * 1000^2 / 17)) = 970
    assert_eq!(regions[0].radius, 970);
    // floor(sqrt(1000^2 / 17)) = 242
    assert_eq!(regions[1].radius, 242);
    let mut rng = StdRng::seed_from_u64(9);
    let small = get_graph_dimensions(&labels, k, (0, 1000, 0, 1000), 20, 50, &mut rng);
    assert_eq!(small[1].radius, MIN_RADIUS);
}

#[test]
fn no_vertices_no_regions() {
    let (labels, k) = labels_of(0, &[]);
    let mut rng = StdRng::seed_from_u64(0);
    assert!(get_graph_dimensions(&labels, k, BOUNDS, 3, 50, &mut rng).is_empty());
}

#[test]
fn integer_square_root() {
    assert_eq!(isqrt(0), 0);
    assert_eq!(isqrt(15), 3);
    assert_eq!(isqrt(16), 4);
    assert_eq!(isqrt(u128::MAX), u64::MAX);
}

#[test]
fn cursor_steps_and_wraps() {
    // steps: x by 100 * 300 / 100, y by 100 * 250 * (200 - 50) / 10000
    assert_eq!(advance_cursor((-500, -500), 100, 50, BOUNDS, 300, 250, 7, 9), (-200, -125));
    // both would pass the far edge: back to the low edge plus the offsets
    assert_eq!(advance_cursor((300, 400), 100, 50, BOUNDS, 300, 250, 7, 9), (-493, -491));
    // a full share steps down less
    assert_eq!(advance_cursor((0, 0), 100, 100, BOUNDS, 200, 200, 0, 0), (200, 200));
}
