use citation_components::graph::{Graph, NodeData};
use citation_components::node_record::parse_features;

fn line(features: &str) -> Vec<String> {
    vec!["0", "1042", "Paper title", "Neural_Networks", features]
        .into_iter()
        .map(String::from)
        .collect()
}

fn paper(subject: &str) -> NodeData {
    NodeData {
        mapped_node: 0,
        label: format!("about {}", subject),
        subject: subject.to_string(),
        features: vec![7],
    }
}

#[test]
fn read_strings_takes_label_subject_and_features() {
    let d = NodeData::read_strings(&line("[0,1,0,1]"), 4);
    assert_eq!(d.mapped_node, 4);
    assert_eq!(d.label, "Paper title");
    assert_eq!(d.subject, "Neural_Networks");
    assert_eq!(d.features, vec![0, 1, 0, 1]);
}

#[test]
fn features_drop_pieces_that_are_not_bytes() {
    assert_eq!(parse_features(b"[1,,256,+3,x,12]"), vec![1, 3, 12]);
    // a space before a digit is not part of a number
    assert_eq!(parse_features(b"[0, 1, 2]"), vec![0]);
    assert_eq!(parse_features(b"[[7]]"), vec![7]);
    assert_eq!(parse_features(b"[]"), Vec::<u8>::new());
    assert_eq!(parse_features(b""), Vec::<u8>::new());
    assert_eq!(parse_features(b"255,007,-1,+"), vec![255, 7]);
}

#[test]
fn subgraphs_by_subject() {
    // papers 10, 11, 12, 13 with subjects a, b, a, b; edges between all pairs
    let nodes = vec![(10, paper("a")), (11, paper("b")), (12, paper("a")), (13, paper("b"))];
    let edges = vec![(10, 12), (10, 11), (12, 10), (13, 11), (11, 12), (13, 13)];
    let g = Graph::from_records(nodes, &edges).unwrap();
    let subs = g.calculate_subgraphs();
    assert_eq!(subs.len(), 2);
    let (sa, ga) = &subs[0];
    let (sb, gb) = &subs[1];
    assert_eq!(sa, "a");
    assert_eq!(sb, "b");
    assert_eq!(ga.n, 2);
    assert_eq!(ga.outedges, vec![vec![1], vec![0]]);
    assert_eq!(ga.reverse_map[&0], 10);
    assert_eq!(ga.reverse_map[&1], 12);
    assert_eq!(ga.node_data[&12].mapped_node, 1);
    assert_eq!(ga.node_data[&12].features, vec![7]);
    assert_eq!(gb.n, 2);
    assert_eq!(gb.outedges, vec![vec![], vec![0, 1]]);
    assert_eq!(gb.reverse_map[&1], 13);
    assert_eq!(gb.node_data[&13].mapped_node, 1);
    assert_eq!(gb.node_data.len(), 2);
}
