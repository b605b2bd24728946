use elk_layered::graph::{LEdge, LGraph, LNode, LPort, NodeType, PortSide};
use elk_layered::hyperedge_dummy_merger::{
    check_merge_allowed, identify_hyperedges, merge_nodes, HyperedgeDummyMerger, MergeState,
};

fn port(node: usize, side: PortSide) -> LPort {
    let mut p = LPort::new();
    p.node = Some(node);
    p.side = side;
    p
}

fn edge(source: usize, target: usize) -> LEdge {
    LEdge { source, target, reversed: false }
}

/// A (layer 0) feeds two long-edge dummies D1, D2 (layer 1), which lead to
/// B and C (layer 2).
fn fan_out() -> LGraph {
    let mut a = LNode::new(NodeType::Normal);
    a.ports = vec![0];
    a.layer = Some(0);
    let mut d1 = LNode::new(NodeType::LongEdge);
    d1.ports = vec![1, 2];
    d1.layer = Some(1);
    d1.long_edge_source = Some(0);
    let mut d2 = LNode::new(NodeType::LongEdge);
    d2.ports = vec![3, 4];
    d2.layer = Some(1);
    d2.long_edge_source = Some(0);
    let mut b = LNode::new(NodeType::Normal);
    b.ports = vec![5];
    b.layer = Some(2);
    let mut c = LNode::new(NodeType::Normal);
    c.ports = vec![6];
    c.layer = Some(2);
    LGraph {
        nodes: vec![a, d1, d2, b, c],
        ports: vec![
            port(0, PortSide::East),
            port(1, PortSide::West),
            port(1, PortSide::East),
            port(2, PortSide::West),
            port(2, PortSide::East),
            port(3, PortSide::West),
            port(4, PortSide::West),
        ],
        edges: vec![edge(0, 1), edge(0, 3), edge(2, 5), edge(4, 6)],
        layers: vec![vec![0], vec![1, 2], vec![3, 4]],
        layerless_nodes: vec![],
    }
}

#[test]
fn identify_hyperedges_labels_one_component() {
    let g = fan_out();
    let ids = identify_hyperedges(&g);
    let first = ids.get(&0).copied();
    assert!(first.is_some());
    for p in 0..7usize {
        assert_eq!(ids.get(&p).copied(), first);
    }
}

#[test]
fn identify_hyperedges_separates_components() {
    let mut g = fan_out();
    // cut D2 off from A and make D2 a normal node: it no longer joins its ports
    g.edges = vec![edge(0, 1), edge(2, 5), edge(4, 6)];
    g.nodes[2].node_type = NodeType::Normal;
    let ids = identify_hyperedges(&g);
    assert_eq!(ids.get(&0), ids.get(&1));
    assert_eq!(ids.get(&1), ids.get(&2));
    assert_eq!(ids.get(&2), ids.get(&5));
    assert_ne!(ids.get(&3), ids.get(&0));
    assert_ne!(ids.get(&3), ids.get(&4));
    assert_eq!(ids.get(&4), ids.get(&6));
    assert_eq!(ids.len(), 7);
}

#[test]
fn check_merge_allowed_without_label_dummies_uses_hyperedges() {
    let g = fan_out();
    let ids = identify_hyperedges(&g);
    let st = check_merge_allowed(&g, 2, 1, &ids);
    assert_eq!(st, MergeState { allow_merge: true, same_source: true, same_target: false });
}

#[test]
fn check_merge_allowed_with_label_dummies() {
    let mut g = fan_out();
    let ids = identify_hyperedges(&g);
    g.nodes[2].long_edge_has_label_dummies = Some(true);
    g.nodes[2].long_edge_before_label_dummy = Some(true);
    let st = check_merge_allowed(&g, 2, 1, &ids);
    assert_eq!(st, MergeState { allow_merge: true, same_source: true, same_target: false });
    g.nodes[2].long_edge_before_label_dummy = Some(false);
    let st = check_merge_allowed(&g, 2, 1, &ids);
    assert_eq!(st, MergeState { allow_merge: false, same_source: true, same_target: false });
    g.nodes[1].long_edge_target = Some(5);
    g.nodes[2].long_edge_target = Some(5);
    let st = check_merge_allowed(&g, 2, 1, &ids);
    assert_eq!(st, MergeState { allow_merge: true, same_source: true, same_target: true });
}

#[test]
fn merge_nodes_moves_edges_to_the_target() {
    let mut g = fan_out();
    g.nodes[1].long_edge_target = Some(5);
    merge_nodes(&mut g, 2, 1, true, false);
    assert_eq!((g.edges[1].source, g.edges[1].target), (0, 1));
    assert_eq!((g.edges[3].source, g.edges[3].target), (2, 6));
    assert_eq!((g.edges[0].source, g.edges[0].target), (0, 1));
    assert_eq!((g.edges[2].source, g.edges[2].target), (2, 5));
    assert_eq!(g.nodes[1].long_edge_source, Some(0));
    assert_eq!(g.nodes[1].long_edge_target, None);
}

#[test]
fn merge_nodes_needs_both_target_ports() {
    let mut g = fan_out();
    g.ports[2].side = PortSide::North;
    merge_nodes(&mut g, 2, 1, false, false);
    assert_eq!((g.edges[1].source, g.edges[1].target), (0, 3));
    assert_eq!(g.nodes[1].long_edge_source, Some(0));
}

#[test]
fn process_merges_dummies_of_one_hyperedge() {
    let mut g = fan_out();
    HyperedgeDummyMerger.process(&mut g);
    assert_eq!(g.layers, vec![vec![0], vec![1], vec![3, 4]]);
    assert_eq!(g.nodes[2].layer, None);
    assert_eq!((g.edges[1].source, g.edges[1].target), (0, 1));
    assert_eq!((g.edges[3].source, g.edges[3].target), (2, 6));
}

#[test]
fn process_keeps_dummies_of_different_hyperedges() {
    let mut g = fan_out();
    g.edges = vec![edge(0, 1), edge(2, 5), edge(4, 6)];
    g.nodes[2].long_edge_source = None;
    HyperedgeDummyMerger.process(&mut g);
    assert_eq!(g.layers, vec![vec![0], vec![1, 2], vec![3, 4]]);
}

#[test]
fn identify_hyperedges_numbers_components_in_layer_order() {
    let mut g = fan_out();
    g.edges = vec![edge(0, 1), edge(2, 5), edge(4, 6)];
    g.nodes[2].node_type = NodeType::Normal;
    let ids = identify_hyperedges(&g);
    for (p, id) in [(0usize, 0i32), (1, 0), (2, 0), (5, 0), (3, 1), (4, 2), (6, 2)] {
        assert_eq!(ids.get(&p).copied(), Some(id));
    }
}
