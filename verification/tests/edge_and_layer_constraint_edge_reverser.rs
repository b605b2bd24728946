use elk_layered::edge_and_layer_constraint_edge_reverser::{
    can_reverse_incoming_edge, can_reverse_outgoing_edge, edge_constraint_for,
    layer_constraint_of, port_type_for, reverse_edge, reverse_edges,
    EdgeAndLayerConstraintEdgeReverser,
};
use elk_layered::graph::{
    EdgeConstraint, LEdge, LGraph, LNode, LPort, LayerConstraint, NodeType, PortConstraints,
    PortSide, PortType,
};

fn port(node: usize, side: PortSide) -> LPort {
    let mut p = LPort::new();
    p.node = Some(node);
    p.side = side;
    p
}

fn edge(source: usize, target: usize) -> LEdge {
    LEdge { source, target, reversed: false }
}

/// Nodes 0..n, each with one western (2n) and one eastern (2n + 1) port.
fn chain_graph(types: Vec<NodeType>, edges: Vec<LEdge>) -> LGraph {
    let mut nodes = Vec::new();
    let mut ports = Vec::new();
    for (i, t) in types.into_iter().enumerate() {
        let mut n = LNode::new(t);
        n.ports = vec![2 * i, 2 * i + 1];
        nodes.push(n);
        ports.push(port(i, PortSide::West));
        ports.push(port(i, PortSide::East));
    }
    let layerless = (0..nodes.len()).collect();
    LGraph { nodes, ports, edges, layers: vec![], layerless_nodes: layerless }
}

#[test]
fn layer_constraint_defaults_to_unconstrained() {
    let mut g = chain_graph(vec![NodeType::Normal, NodeType::Normal], vec![]);
    g.nodes[1].layer_constraint = Some(LayerConstraint::Last);
    assert_eq!(layer_constraint_of(&g, 0), LayerConstraint::Unconstrained);
    assert_eq!(layer_constraint_of(&g, 1), LayerConstraint::Last);
}

#[test]
fn edge_constraint_follows_layer_constraint() {
    assert_eq!(edge_constraint_for(LayerConstraint::First), Some(EdgeConstraint::OutgoingOnly));
    assert_eq!(
        edge_constraint_for(LayerConstraint::FirstSeparate),
        Some(EdgeConstraint::OutgoingOnly)
    );
    assert_eq!(edge_constraint_for(LayerConstraint::Last), Some(EdgeConstraint::IncomingOnly));
    assert_eq!(
        edge_constraint_for(LayerConstraint::LastSeparate),
        Some(EdgeConstraint::IncomingOnly)
    );
    assert_eq!(edge_constraint_for(LayerConstraint::Unconstrained), None);
    assert_eq!(port_type_for(EdgeConstraint::IncomingOnly), PortType::Input);
    assert_eq!(port_type_for(EdgeConstraint::OutgoingOnly), PortType::Output);
    assert_eq!(port_type_for(EdgeConstraint::Unconstrained), PortType::Undefined);
}

#[test]
fn reversibility_checks() {
    // 0 -> 1, 1 is a label dummy in the last layer... constrained LastSeparate
    let mut g = chain_graph(
        vec![NodeType::Normal, NodeType::Label, NodeType::Normal],
        vec![edge(1, 2), edge(3, 4), edge(5, 0)],
    );
    // edge 0: node 0 -> node 1 (label)
    assert!(!can_reverse_outgoing_edge(&g, LayerConstraint::Last, 0));
    assert!(can_reverse_outgoing_edge(&g, LayerConstraint::First, 0));
    g.nodes[2].layer_constraint = Some(LayerConstraint::LastSeparate);
    // edge 1: node 1 -> node 2 (last separate)
    assert!(!can_reverse_outgoing_edge(&g, LayerConstraint::Unconstrained, 1));
    // edge 2: node 2 -> node 0; incoming at node 0 with source node 2
    assert!(can_reverse_incoming_edge(&g, LayerConstraint::First, 2));
    g.nodes[2].layer_constraint = Some(LayerConstraint::FirstSeparate);
    assert!(!can_reverse_incoming_edge(&g, LayerConstraint::Unconstrained, 2));
    g.edges[0].reversed = true;
    assert!(!can_reverse_outgoing_edge(&g, LayerConstraint::First, 0));
}

#[test]
fn reverse_edge_swaps_ends_and_flips_flag() {
    let mut g = chain_graph(vec![NodeType::Normal, NodeType::Normal], vec![edge(1, 2)]);
    reverse_edge(&mut g, 0);
    assert_eq!((g.edges[0].source, g.edges[0].target, g.edges[0].reversed), (2, 1, true));
    reverse_edge(&mut g, 0);
    assert_eq!((g.edges[0].source, g.edges[0].target, g.edges[0].reversed), (1, 2, false));
}

#[test]
fn reverse_edges_of_first_node_turns_incoming_edges() {
    // 1 -> 0 (incoming at node 0), 0 -> 2 (outgoing at node 0)
    let mut g = chain_graph(
        vec![NodeType::Normal, NodeType::Normal, NodeType::Normal],
        vec![edge(3, 0), edge(1, 4)],
    );
    reverse_edges(&mut g, 0, LayerConstraint::First, PortType::Output);
    assert_eq!((g.edges[0].source, g.edges[0].target, g.edges[0].reversed), (0, 3, true));
    assert_eq!((g.edges[1].source, g.edges[1].target, g.edges[1].reversed), (1, 4, false));
}

#[test]
fn process_reverses_edges_of_constrained_nodes() {
    // node 0 first, node 1 normal, node 2 last; edges 1 -> 0 and 2 -> 1
    let mut g = chain_graph(
        vec![NodeType::Normal, NodeType::Normal, NodeType::Normal],
        vec![edge(3, 0), edge(5, 2)],
    );
    g.nodes[0].layer_constraint = Some(LayerConstraint::First);
    g.nodes[2].layer_constraint = Some(LayerConstraint::Last);
    EdgeAndLayerConstraintEdgeReverser.process(&mut g);
    assert_eq!((g.edges[0].source, g.edges[0].target, g.edges[0].reversed), (0, 3, true));
    assert_eq!((g.edges[1].source, g.edges[1].target, g.edges[1].reversed), (2, 5, true));
    assert_eq!(g.nodes[0].edge_constraint, Some(EdgeConstraint::OutgoingOnly));
    assert_eq!(g.nodes[2].edge_constraint, Some(EdgeConstraint::OutgoingOnly));
    assert_eq!(g.nodes[1].edge_constraint, None);
}

#[test]
fn process_turns_nodes_whose_fixed_ports_point_backwards() {
    // node 1 has fixed port sides; its eastern port receives an edge from node 0's
    // western port and its western port sends one to node 2: all reversed.
    let mut g = chain_graph(
        vec![NodeType::Normal, NodeType::Normal, NodeType::Normal],
        vec![edge(0, 3), edge(2, 5)],
    );
    g.nodes[1].port_constraints = Some(PortConstraints::FixedSide);
    EdgeAndLayerConstraintEdgeReverser.process(&mut g);
    assert_eq!((g.edges[0].source, g.edges[0].target, g.edges[0].reversed), (3, 0, true));
    assert_eq!((g.edges[1].source, g.edges[1].target, g.edges[1].reversed), (5, 2, true));
}

#[test]
fn process_leaves_free_ports_alone() {
    let mut g = chain_graph(
        vec![NodeType::Normal, NodeType::Normal, NodeType::Normal],
        vec![edge(0, 3), edge(2, 5)],
    );
    EdgeAndLayerConstraintEdgeReverser.process(&mut g);
    assert_eq!((g.edges[0].source, g.edges[0].target, g.edges[0].reversed), (0, 3, false));
    assert_eq!((g.edges[1].source, g.edges[1].target, g.edges[1].reversed), (2, 5, false));
}
