use elk_layered::graph::{LEdge, LGraph, LNode, LPort, NodeType, PortSide};
use elk_layered::high_degree_node_layering_processor::{
    move_tree, other_node, source_node, target_node, EdgeSelector, HighDegreeNodeLayeringProcessor,
};

fn star(leaves: usize) -> LGraph {
    // node 0 is the hub with one port; node i (1..=leaves) has one port
    let mut nodes = Vec::new();
    let mut ports = Vec::new();
    for i in 0..=leaves {
        let mut n = LNode::new(NodeType::Normal);
        n.ports = vec![i];
        nodes.push(n);
        let mut p = LPort::new();
        p.node = Some(i);
        p.side = PortSide::East;
        ports.push(p);
    }
    let edges = (1..=leaves).map(|i| LEdge { source: 0, target: i, reversed: false }).collect();
    LGraph { nodes, ports, edges, layers: vec![], layerless_nodes: vec![] }
}

#[test]
fn degree_counts_edge_ends() {
    let p = HighDegreeNodeLayeringProcessor::new();
    let mut g = star(3);
    assert_eq!(p.degree(&g, 0), 3);
    assert_eq!(p.degree(&g, 2), 1);
    g.edges.push(LEdge { source: 0, target: 0, reversed: false });
    assert_eq!(p.degree(&g, 0), 5);
}

#[test]
fn high_degree_from_sixteen_edges() {
    let p = HighDegreeNodeLayeringProcessor::new();
    assert!(!p.is_high_degree_node(&star(15), 0));
    assert!(p.is_high_degree_node(&star(16), 0));
}

#[test]
fn ends_and_other_node() {
    let g = star(2);
    assert_eq!(source_node(&g, 0), Some(0));
    assert_eq!(target_node(&g, 1), Some(2));
    assert_eq!(other_node(&g, 1, 0), Some(2));
    assert_eq!(other_node(&g, 1, 2), Some(0));
    assert_eq!(other_node(&g, 1, 1), None);
}

#[test]
fn single_connection() {
    let p = HighDegreeNodeLayeringProcessor::new();
    let mut g = star(2);
    assert!(p.has_single_connection(&g, 1, EdgeSelector::Incoming));
    assert!(!p.has_single_connection(&g, 0, EdgeSelector::Outgoing));
    assert!(p.has_single_connection(&g, 0, EdgeSelector::Incoming));
    g.edges.push(LEdge { source: 0, target: 1, reversed: false });
    assert!(p.has_single_connection(&g, 1, EdgeSelector::Connected));
}

/// Hub 0 with sixteen incoming leaves 1..=16 and one outgoing chain 0 -> 17 -> 18.
fn hub_with_trees() -> LGraph {
    let mut g = star(18);
    g.edges.clear();
    for i in 1..=16usize {
        g.edges.push(LEdge { source: i, target: 0, reversed: false });
    }
    g.edges.push(LEdge { source: 0, target: 17, reversed: false });
    g.edges.push(LEdge { source: 17, target: 18, reversed: false });
    g.layers = vec![vec![0, 5]];
    for n in g.nodes.iter_mut() {
        n.layer = None;
    }
    g.nodes[0].layer = Some(0);
    g.nodes[5].layer = Some(0);
    g
}

#[test]
fn calculate_information_finds_trees() {
    let p = HighDegreeNodeLayeringProcessor::new();
    let g = hub_with_trees();
    assert!(p.is_high_degree_node(&g, 0));
    let info = p.calculate_information(&g, 0);
    assert_eq!(info.inc_trees_max_height, 1);
    assert_eq!(info.inc_tree_roots, (1..=16).collect::<Vec<usize>>());
    assert_eq!(info.out_trees_max_height, 2);
    assert_eq!(info.out_tree_roots, vec![17]);
}

#[test]
fn collect_high_degree_nodes_of_a_layer() {
    let p = HighDegreeNodeLayeringProcessor::new();
    let g = hub_with_trees();
    let (nodes, inc_max, out_max) = p.collect_high_degree_nodes(&g, 0);
    assert_eq!(nodes.len(), 1);
    assert_eq!(nodes[0].0, 0);
    assert_eq!((inc_max, out_max), (1, 2));
}

/// Hub 0 with sixteen incoming leaves and the chain 0 -> 17 -> 18, all in one layer.
fn hub_in_one_layer() -> LGraph {
    let mut g = hub_with_trees();
    g.layers = vec![(0..=18).collect()];
    for n in g.nodes.iter_mut() {
        n.layer = Some(0);
    }
    g
}

fn layer_of(g: &LGraph, n: usize) -> Option<usize> {
    g.nodes[n].layer
}

#[test]
fn process_moves_trees_into_layers_of_their_own() {
    let mut p = HighDegreeNodeLayeringProcessor::new();
    let mut g = hub_in_one_layer();
    p.process(&mut g, None, None);
    assert_eq!(g.layers, vec![(1..=16).collect::<Vec<usize>>(), vec![0], vec![17], vec![18]]);
    for leaf in 1..=16 {
        assert_eq!(layer_of(&g, leaf), Some(0));
    }
    assert_eq!(layer_of(&g, 0), Some(1));
    assert_eq!(layer_of(&g, 17), Some(2));
    assert_eq!(layer_of(&g, 18), Some(3));
}

#[test]
fn process_keeps_layers_below_the_degree_threshold() {
    let mut p = HighDegreeNodeLayeringProcessor::new();
    let mut g = hub_in_one_layer();
    g.layers.push(vec![]);
    p.process(&mut g, Some(19), None);
    assert_eq!(g.layers, vec![(0..=18).collect::<Vec<usize>>()]);
    assert_eq!(layer_of(&g, 18), Some(0));
}

#[test]
fn process_leaves_trees_taller_than_the_limit() {
    let mut p = HighDegreeNodeLayeringProcessor::new();
    let mut g = hub_in_one_layer();
    p.process(&mut g, None, Some(1));
    // the outgoing chain is two high, above the limit of one
    assert_eq!(g.layers, vec![(1..=16).collect::<Vec<usize>>(), vec![0, 17, 18]]);
}

#[test]
fn move_tree_follows_the_selected_edges() {
    let mut g = hub_in_one_layer();
    g.layers.push(vec![]);
    g.layers.push(vec![]);
    move_tree(&mut g, 17, EdgeSelector::Outgoing, &vec![1, 2], 0);
    assert_eq!(g.layers[1], vec![17]);
    assert_eq!(g.layers[2], vec![18]);
    assert_eq!(layer_of(&g, 18), Some(2));
    assert!(!g.layers[0].contains(&17));
    // with a single layer only the root moves
    move_tree(&mut g, 0, EdgeSelector::Outgoing, &vec![2], 0);
    assert_eq!(g.layers[2], vec![18, 0]);
    assert_eq!(layer_of(&g, 17), Some(1));
}

#[test]
fn trees_are_found_port_by_port() {
    // hub 0 has ports 0 and 1; leaf 1 (port 2) enters port 1 by edge 0, leaf 2 (port 3)
    // enters port 0 by edge 1: the roots follow the hub's port order
    let p = HighDegreeNodeLayeringProcessor::new();
    let mut nodes = vec![LNode::new(NodeType::Normal), LNode::new(NodeType::Normal), LNode::new(NodeType::Normal)];
    nodes[0].ports = vec![0, 1];
    nodes[1].ports = vec![2];
    nodes[2].ports = vec![3];
    let mut ports = Vec::new();
    for owner in [0usize, 0, 1, 2] {
        let mut port = LPort::new();
        port.node = Some(owner);
        ports.push(port);
    }
    let edges = vec![
        LEdge { source: 2, target: 1, reversed: false },
        LEdge { source: 3, target: 0, reversed: false },
    ];
    let g = LGraph { nodes, ports, edges, layers: vec![], layerless_nodes: vec![] };
    let info = p.calculate_information(&g, 0);
    assert_eq!(info.inc_tree_roots, vec![2, 1]);
    assert_eq!(info.inc_trees_max_height, 1);
    assert!(info.out_tree_roots.is_empty());
    assert_eq!(info.out_trees_max_height, -1);
}
