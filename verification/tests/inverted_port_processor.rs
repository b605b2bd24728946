use elk_layered::graph::{LEdge, LGraph, LNode, LPort, NodeType, Origin, PortConstraints, PortSide};
use elk_layered::inverted_port_processor::{inverted_edge_list, InvertedPortProcessor};

fn port(node: usize, side: PortSide) -> LPort {
    let mut p = LPort::new();
    p.node = Some(node);
    p.side = side;
    p
}

/// Node 0 in layer 0, node 1 in layer 1, each with a western and an eastern
/// port. Edge 0 enters node 1 through its eastern port, edge 1 leaves it
/// through its western port, and edge 2 is a self loop at its eastern port.
fn inverted(constraints: Option<PortConstraints>, node_type: NodeType) -> LGraph {
    let mut n0 = LNode::new(NodeType::Normal);
    n0.ports = vec![0, 1];
    n0.layer = Some(0);
    let mut n1 = LNode::new(node_type);
    n1.ports = vec![2, 3];
    n1.layer = Some(1);
    n1.port_constraints = constraints;
    let e = |s: usize, t: usize| LEdge { source: s, target: t, reversed: false };
    LGraph {
        nodes: vec![n0, n1],
        ports: vec![
            port(0, PortSide::West),
            port(0, PortSide::East),
            port(1, PortSide::West),
            port(1, PortSide::East),
        ],
        edges: vec![e(1, 3), e(2, 1), e(3, 3)],
        layers: vec![vec![0], vec![1]],
        layerless_nodes: vec![],
    }
}

fn ends(g: &LGraph) -> Vec<(usize, usize)> {
    g.edges.iter().map(|e| (e.source, e.target)).collect()
}

#[test]
fn inverted_edges_are_listed_east_then_west() {
    let g = inverted(Some(PortConstraints::FixedSide), NodeType::Normal);
    assert_eq!(inverted_edge_list(&g, 1), vec![0, 2, 1]);
    // edge 1 enters node 0 through its eastern port
    assert_eq!(inverted_edge_list(&g, 0), vec![1]);
}

#[test]
fn inverted_ports_get_long_edge_dummies() {
    let mut g = inverted(Some(PortConstraints::FixedSide), NodeType::Normal);
    InvertedPortProcessor.process(&mut g);
    assert_eq!(g.layers, vec![vec![0], vec![1, 2, 3]]);
    assert_eq!(ends(&g), vec![(1, 4), (2, 6), (3, 3), (5, 3), (7, 1)]);
    assert_eq!(g.nodes.len(), 4);
    assert_eq!(g.ports.len(), 8);
    for (d, e) in [(2usize, 0usize), (3, 1)] {
        let n = &g.nodes[d];
        assert_eq!(n.node_type, NodeType::LongEdge);
        assert_eq!(n.ports, vec![2 * d, 2 * d + 1]);
        assert_eq!(n.layer, Some(1));
        assert_eq!(n.port_constraints, Some(PortConstraints::FixedPos));
        assert_eq!(n.origin, Origin::Edge(e));
        assert_eq!(g.ports[2 * d].side, PortSide::West);
        assert_eq!(g.ports[2 * d + 1].side, PortSide::East);
        assert_eq!(g.ports[2 * d].node, Some(d));
    }
}

#[test]
fn free_ports_are_left_alone() {
    for c in [None, Some(PortConstraints::Free), Some(PortConstraints::Undefined)] {
        let mut g = inverted(c, NodeType::Normal);
        InvertedPortProcessor.process(&mut g);
        assert_eq!(g.layers, vec![vec![0], vec![1]]);
        assert_eq!(ends(&g), vec![(1, 3), (2, 1), (3, 3)]);
        assert_eq!(g.nodes.len(), 2);
    }
}

#[test]
fn dummy_nodes_are_left_alone() {
    let mut g = inverted(Some(PortConstraints::FixedPos), NodeType::LongEdge);
    InvertedPortProcessor.process(&mut g);
    assert_eq!(g.layers, vec![vec![0], vec![1]]);
    assert_eq!(g.nodes.len(), 2);
}

/// Every edge entering an eastern port of `n` comes from `n` or from a
/// long-edge dummy in its layer; every edge leaving a western port goes to
/// such a node.
fn runs_forward_at(g: &LGraph, n: usize) -> bool {
    let fine = |other: Option<usize>| match other {
        Some(m) if m == n => true,
        Some(m) => g.nodes[m].node_type == NodeType::LongEdge && g.nodes[m].layer == g.nodes[n].layer,
        None => false,
    };
    g.edges.iter().all(|e| {
        let enters_east = g.nodes[n].ports.contains(&e.target) && g.ports[e.target].side == PortSide::East;
        let leaves_west = g.nodes[n].ports.contains(&e.source) && g.ports[e.source].side == PortSide::West;
        (!enters_east || fine(g.ports[e.source].node)) && (!leaves_west || fine(g.ports[e.target].node))
    })
}

#[test]
fn processed_nodes_have_no_inverted_edges_left() {
    let mut g = inverted(Some(PortConstraints::FixedSide), NodeType::Normal);
    assert!(!runs_forward_at(&g, 1));
    InvertedPortProcessor.process(&mut g);
    assert!(runs_forward_at(&g, 1));
}
