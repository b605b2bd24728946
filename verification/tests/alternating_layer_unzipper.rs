use elk_layered::alternating_layer_unzipper::{
    get_layer_split_property, get_minimize_edge_length_property,
    get_reset_on_long_edges_property, place_node_at_index, remove_unconnected_placeholder_nodes,
};
use elk_layered::graph::{LGraph, LNode, NodeType};

fn layered(types: Vec<NodeType>, layers: Vec<Vec<usize>>) -> LGraph {
    let mut nodes: Vec<LNode> = types.into_iter().map(LNode::new).collect();
    for (l, layer) in layers.iter().enumerate() {
        for &n in layer {
            nodes[n].layer = Some(l);
        }
    }
    LGraph { nodes, ports: vec![], edges: vec![], layers, layerless_nodes: vec![] }
}

#[test]
fn layer_split_defaults_to_two() {
    let g = layered(vec![NodeType::Normal, NodeType::Normal], vec![vec![0, 1]]);
    assert_eq!(get_layer_split_property(&g, 0), 2);
}

#[test]
fn layer_split_is_the_smallest_set_value() {
    let mut g = layered(vec![NodeType::Normal; 3], vec![vec![0, 1, 2]]);
    g.nodes[0].layer_split = Some(5);
    g.nodes[2].layer_split = Some(3);
    assert_eq!(get_layer_split_property(&g, 0), 3);
}

#[test]
fn reset_on_long_edges_unless_switched_off() {
    let mut g = layered(vec![NodeType::Normal; 2], vec![vec![0, 1]]);
    assert!(get_reset_on_long_edges_property(&g, 0));
    g.nodes[0].reset_on_long_edges = Some(true);
    assert!(get_reset_on_long_edges_property(&g, 0));
    g.nodes[1].reset_on_long_edges = Some(false);
    assert!(!get_reset_on_long_edges_property(&g, 0));
}

#[test]
fn minimize_edge_length_when_asked() {
    let mut g = layered(vec![NodeType::Normal; 2], vec![vec![0, 1]]);
    assert!(!get_minimize_edge_length_property(&g, 0));
    g.nodes[1].minimize_edge_length = Some(false);
    assert!(!get_minimize_edge_length_property(&g, 0));
    g.nodes[0].minimize_edge_length = Some(true);
    assert!(get_minimize_edge_length_property(&g, 0));
}

#[test]
fn place_node_at_index_inserts_or_appends() {
    let mut g = layered(vec![NodeType::Normal; 4], vec![vec![0, 1]]);
    place_node_at_index(&mut g, 2, 0, 1);
    assert_eq!(g.layers[0], vec![0, 2, 1]);
    assert_eq!(g.nodes[2].layer, Some(0));
    place_node_at_index(&mut g, 3, 0, 7);
    assert_eq!(g.layers[0], vec![0, 2, 1, 3]);
}

#[test]
fn remove_unconnected_placeholder_nodes_clears_placeholders() {
    let mut g = layered(
        vec![NodeType::Placeholder, NodeType::Normal, NodeType::NonshiftingPlaceholder, NodeType::LongEdge],
        vec![vec![0, 1], vec![2, 3]],
    );
    remove_unconnected_placeholder_nodes(&mut g);
    assert_eq!(g.layers, vec![vec![1], vec![3]]);
    assert_eq!(g.nodes[0].layer, None);
    assert_eq!(g.nodes[2].layer, None);
    assert_eq!(g.nodes[1].layer, Some(0));
    assert_eq!(g.nodes[3].layer, Some(1));
}
