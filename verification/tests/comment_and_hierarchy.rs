use elk_layered::comment_postprocessor::{comment_conn_port, get_box_port};
use elk_layered::comment_preprocessor::{
    is_comment_box, remove_empty_layer, remove_hierarchical_port_dummy_node,
    reverse_oddly_connected_edges,
};
use elk_layered::graph::{LEdge, LGraph, LNode, LPort, NodeType, PortSide};
use elk_layered::hierarchical_node_resizing_processor::{
    external_dummy_edge_count, external_dummy_edges, HierarchicalNodeResizingProcessor,
};

/// Nodes with one western (2i) and one eastern (2i + 1) port each.
fn graph(n: usize, edges: Vec<(usize, usize)>) -> LGraph {
    let mut nodes = Vec::new();
    let mut ports = Vec::new();
    for i in 0..n {
        let mut node = LNode::new(NodeType::Normal);
        node.ports = vec![2 * i, 2 * i + 1];
        nodes.push(node);
        for side in [PortSide::West, PortSide::East] {
            let mut p = LPort::new();
            p.node = Some(i);
            p.side = side;
            ports.push(p);
        }
    }
    let edges = edges.into_iter().map(|(s, t)| LEdge { source: s, target: t, reversed: false }).collect();
    LGraph { nodes, ports, edges, layers: vec![], layerless_nodes: (0..n).collect() }
}

#[test]
fn odd_edges_of_a_comment_are_reversed() {
    // comment node 0; edge 0: 1 -> 2 (node 0 east to node 1 west), and node 1's west port
    // also sends edge 1: 2 -> 4, so edge 0 points against the flow
    let mut g = graph(3, vec![(1, 2), (2, 4), (3, 0)]);
    reverse_oddly_connected_edges(&mut g, 0);
    assert_eq!((g.edges[0].source, g.edges[0].target, g.edges[0].reversed), (2, 1, true));
    assert_eq!((g.edges[1].source, g.edges[1].target, g.edges[1].reversed), (2, 4, false));
    // edge 2: 3 -> 0 enters the comment from node 1's east port, which has no entering edge
    assert_eq!((g.edges[2].source, g.edges[2].target, g.edges[2].reversed), (3, 0, false));
}

#[test]
fn remove_empty_layer_shifts_later_layers() {
    let mut g = graph(2, vec![]);
    g.layers = vec![vec![0], vec![], vec![1]];
    g.nodes[0].layer = Some(0);
    g.nodes[1].layer = Some(2);
    remove_empty_layer(&mut g, 1);
    assert_eq!(g.layers, vec![vec![0], vec![1]]);
    assert_eq!(g.nodes[1].layer, Some(1));
    assert_eq!(g.nodes[0].layer, Some(0));
}

#[test]
fn hierarchical_port_dummy_leaves_and_empties_its_layer() {
    let mut g = graph(3, vec![]);
    g.layers = vec![vec![0], vec![1], vec![2]];
    for i in 0..3 {
        g.nodes[i].layer = Some(i);
    }
    g.ports[0].port_dummy = Some(1);
    remove_hierarchical_port_dummy_node(&mut g, 0);
    assert_eq!(g.layers, vec![vec![0], vec![2]]);
    assert_eq!(g.nodes[1].layer, None);
    assert_eq!(g.nodes[2].layer, Some(1));
    // a port without dummy changes nothing
    remove_hierarchical_port_dummy_node(&mut g, 3);
    assert_eq!(g.layers, vec![vec![0], vec![2]]);
}

#[test]
fn external_dummy_edges_are_listed_once() {
    // self loop 1 -> 0 on node 0 plus edge 1 -> 2
    let g = graph(2, vec![(1, 0), (1, 2), (3, 0)]);
    assert_eq!(external_dummy_edges(&g, 0), vec![0, 2, 1]);
    assert_eq!(external_dummy_edge_count(&g, 0), 3);
    assert_eq!(external_dummy_edges(&g, 1), vec![1, 2]);
}

#[test]
fn comment_box_flag() {
    let mut g = graph(2, vec![]);
    assert!(!is_comment_box(&g, 0));
    g.nodes[0].comment_box = Some(false);
    assert!(!is_comment_box(&g, 0));
    g.nodes[1].comment_box = Some(true);
    assert!(is_comment_box(&g, 1));
}

#[test]
fn box_port_takes_the_first_leaving_edge_to_the_node() {
    // comment box 0 sends edge 0 from its east port 1 to node 1; node 2's port 4 is the
    // port the box was attached to
    let mut g = graph(3, vec![(1, 2), (3, 5)]);
    assert_eq!(comment_conn_port(&g, 0), None);
    assert_eq!(get_box_port(&mut g, 0), None);
    assert_eq!((g.edges[0].source, g.edges[0].target), (1, 2));
    g.nodes[0].comment_conn_port = Some(4);
    assert_eq!(comment_conn_port(&g, 0), Some(4));
    assert_eq!(get_box_port(&mut g, 0), Some(1));
    assert_eq!((g.edges[0].source, g.edges[0].target), (1, 4));
    assert_eq!((g.edges[1].source, g.edges[1].target), (3, 5));
}

#[test]
fn box_port_takes_an_entering_edge_from_the_node() {
    // edge 0 enters the box's west port 0 from node 1
    let mut g = graph(3, vec![(3, 0)]);
    g.nodes[0].comment_conn_port = Some(5);
    assert_eq!(get_box_port(&mut g, 0), Some(0));
    assert_eq!((g.edges[0].source, g.edges[0].target), (5, 0));
    // a box without edges has no box port
    let mut g = graph(2, vec![]);
    g.nodes[0].comment_conn_port = Some(2);
    assert_eq!(get_box_port(&mut g, 0), None);
}

#[test]
fn resizing_moves_all_nodes_to_the_layerless_list() {
    let mut g = graph(3, vec![(0, 1), (1, 2)]);
    g.nodes[0].layer = Some(0);
    g.nodes[1].layer = Some(1);
    g.layers = vec![vec![0], vec![1]];
    g.layerless_nodes = vec![2];
    HierarchicalNodeResizingProcessor.process(&mut g);
    assert!(g.layers.is_empty());
    assert_eq!(g.layerless_nodes, vec![2, 0, 1]);
    for n in 0..3 {
        assert_eq!(g.nodes[n].layer, None);
    }
    assert_eq!(g.edges.len(), 2);
}
