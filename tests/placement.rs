use citation_components::graph::Graph;
use citation_components::node_placer::{place_node, place_nodes, point_in_region};
use citation_components::visualization_support::{get_graph_dimensions, ClusterRegion};
use rand::rngs::StdRng;
use rand::SeedableRng;
use std::collections::HashMap;

fn region(component: usize, x: i64, y: i64, radius: u64) -> ClusterRegion {
    ClusterRegion { component, center_x: x, center_y: y, radius, accepted: true }
}

fn inside(p: (i64, i64), r: &ClusterRegion) -> bool {
    let dx = (p.0 - r.center_x) as i128;
    let dy = (p.1 - r.center_y) as i128;
    dx * dx + dy * dy <= (r.radius as i128) * (r.radius as i128)
}

#[test]
fn placed_points_stay_in_their_region() {
    let r = region(0, 120, -40, 75);
    let mut rng = StdRng::seed_from_u64(11);
    let points: Vec<(i64, i64)> = (0..500).map(|_| place_node(&r, &mut rng)).collect();
    assert!(points.iter().all(|&p| inside(p, &r)));
    // the distance is drawn, not fixed at zero
    assert!(points.iter().any(|&p| p != (120, -40)));
    // and directions spread to every side of the centre
    assert!(points.iter().any(|&p| p.0 < 120 && p.1 < -40));
    assert!(points.iter().any(|&p| p.0 > 120 && p.1 > -40));
}

#[test]
fn zero_radius_places_at_the_centre() {
    let r = region(0, 5, 6, 0);
    let mut rng = StdRng::seed_from_u64(1);
    assert_eq!(place_node(&r, &mut rng), (5, 6));
}

#[test]
fn every_labelled_vertex_gets_a_position_in_its_region() {
    let edges = vec![(0, 1), (1, 0), (2, 3), (3, 2), (3, 4), (4, 3)];
    let g = Graph::create_directed(6, &edges, HashMap::new(), HashMap::new()).unwrap();
    let (labels, k) = g.connected_components();
    let mut rng = StdRng::seed_from_u64(5);
    let regions = get_graph_dimensions(&labels, k, (-500, 500, -500, 500), 3, 50, &mut rng);
    let positions = place_nodes(&labels, &regions, &mut rng);
    assert_eq!(positions.len(), 6);
    for (v, p) in positions.iter().enumerate() {
        let c = labels[v].unwrap();
        let r = regions.iter().find(|r| r.component == c).unwrap();
        assert!(inside(p.unwrap(), r));
    }
}

#[test]
fn vertices_without_a_region_get_no_position() {
    let labels = vec![Some(0), None, Some(1)];
    let regions = vec![region(0, 0, 0, 10)];
    let mut rng = StdRng::seed_from_u64(2);
    let positions = place_nodes(&labels, &regions, &mut rng);
    assert!(positions[0].is_some());
    assert_eq!(positions[1], None);
    assert_eq!(positions[2], None);
}

#[test]
fn point_in_region_scales_the_direction_toward_zero() {
    let r = region(0, 10, 20, 100);
    // |(3, 4)| = 5, so the offset is (3, 4) * 50 / 6, rounded toward zero
    assert_eq!(point_in_region(&r, 50, 3, 4), (35, 53));
    assert_eq!(point_in_region(&r, 50, -3, -4), (-15, -13));
    assert_eq!(point_in_region(&r, 0, 1000, 0), (10, 20));
    // the full radius along an axis stays just inside
    assert_eq!(point_in_region(&r, 100, 1000, 0), (10 + 100 * 1000 / 1001, 20));
}
