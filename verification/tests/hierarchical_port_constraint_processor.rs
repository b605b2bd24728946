use elk_layered::graph::{
    Alignment, LEdge, LGraph, LNode, LPort, NodeType, Origin, PortConstraints, PortSide,
};
use elk_layered::hierarchical_port_orthogonal_edge_router::HierarchicalPortOrthogonalEdgeRouter;
use elk_layered::hierarchical_port_constraint_processor::{
    chain_side_dummies, HierarchicalPortConstraintProcessor,
};

fn port(node: usize, side: PortSide) -> LPort {
    let mut p = LPort::new();
    p.node = Some(node);
    p.side = side;
    p
}

fn node(node_type: NodeType, ports: Vec<usize>, layer: usize) -> LNode {
    let mut n = LNode::new(node_type);
    n.ports = ports;
    n.layer = Some(layer);
    n
}

fn north_south(ports: Vec<usize>, layer: usize, side: PortSide, origin: usize) -> LNode {
    let mut n = node(NodeType::ExternalPort, ports, layer);
    n.ext_port_side = Some(side);
    n.origin = Origin::Port(origin);
    n
}

fn e(source: usize, target: usize) -> LEdge {
    LEdge { source, target, reversed: false }
}

fn ends(g: &LGraph) -> Vec<(usize, usize)> {
    g.edges.iter().map(|e| (e.source, e.target)).collect()
}

/// Node 0 in layer 0; node 1 and the northern dummy 2 in layer 1. Edge 0
/// leads from node 0 to the dummy, edge 1 from the dummy to node 1.
fn two_layers() -> LGraph {
    LGraph {
        nodes: vec![
            node(NodeType::Normal, vec![0, 1], 0),
            node(NodeType::Normal, vec![2, 3], 1),
            north_south(vec![4], 1, PortSide::North, 99),
        ],
        ports: vec![
            port(0, PortSide::West),
            port(0, PortSide::East),
            port(1, PortSide::West),
            port(1, PortSide::East),
            port(2, PortSide::South),
        ],
        edges: vec![e(1, 4), e(4, 2)],
        layers: vec![vec![0], vec![1, 2]],
        layerless_nodes: vec![],
    }
}

#[test]
fn north_south_dummies_are_replaced_in_neighbouring_layers() {
    let mut g = two_layers();
    let res = HierarchicalPortConstraintProcessor
        .process_northern_and_southern_port_dummies(&mut g, PortConstraints::FixedSide);
    assert_eq!(res, Some(vec![2]));
    // the edge leaving node 0 gets a dummy after layer 0, the edge entering
    // node 1 one before layer 1
    assert_eq!(g.layers, vec![vec![0, 4], vec![1, 3]]);
    assert_eq!(ends(&g), vec![(1, 5), (8, 2)]);
    assert_eq!(g.nodes[2].layer, None);
    assert_eq!(g.nodes[3].layer, Some(1));
    assert_eq!(g.nodes[4].layer, Some(0));
    for (d, first_port) in [(3usize, 5usize), (4, 7)] {
        let n = &g.nodes[d];
        assert_eq!(n.node_type, NodeType::ExternalPort);
        assert_eq!(n.ports, vec![first_port, first_port + 1]);
        assert_eq!(n.ext_port_side, Some(PortSide::North));
        assert_eq!(n.origin, Origin::Port(99));
        assert_eq!(n.port_constraints, Some(PortConstraints::FixedPos));
        assert_eq!(n.alignment, Some(Alignment::Center));
        assert_eq!(n.ext_port_replaced_dummy, Some(2));
        assert_eq!(g.ports[first_port].side, PortSide::West);
        assert_eq!(g.ports[first_port + 1].side, PortSide::East);
        assert_eq!(g.ports[first_port].node, Some(d));
    }
}

#[test]
fn dummies_in_outer_slots_get_new_layers() {
    // node 0 and the southern dummy 1 share the only layer; edge 0 enters
    // node 0 from the dummy, edge 1 leaves node 0 for it
    let mut g = LGraph {
        nodes: vec![
            node(NodeType::Normal, vec![0, 1], 0),
            north_south(vec![2], 0, PortSide::South, 7),
        ],
        ports: vec![port(0, PortSide::West), port(0, PortSide::East), port(1, PortSide::North)],
        edges: vec![e(2, 0), e(1, 2)],
        layers: vec![vec![0, 1]],
        layerless_nodes: vec![],
    };
    let res = HierarchicalPortConstraintProcessor
        .process_northern_and_southern_port_dummies(&mut g, PortConstraints::FixedOrder);
    assert_eq!(res, Some(vec![1]));
    assert_eq!(g.layers, vec![vec![2], vec![0], vec![3]]);
    assert_eq!(ends(&g), vec![(4, 0), (1, 5)]);
    assert_eq!(g.nodes[0].layer, Some(1));
    assert_eq!(g.nodes[1].layer, None);
    assert_eq!(g.nodes[2].layer, Some(0));
    assert_eq!(g.nodes[3].layer, Some(2));
}

#[test]
fn one_dummy_serves_all_edges_of_a_port() {
    // two edges from the northern dummy 1 (layer 0) enter node 0 (layer 1)
    let mut g = LGraph {
        nodes: vec![
            node(NodeType::Normal, vec![0, 1], 1),
            north_south(vec![2], 0, PortSide::North, 3),
        ],
        ports: vec![port(0, PortSide::West), port(0, PortSide::East), port(1, PortSide::South)],
        edges: vec![e(2, 0), e(2, 0)],
        layers: vec![vec![1], vec![0]],
        layerless_nodes: vec![],
    };
    let res = HierarchicalPortConstraintProcessor
        .process_northern_and_southern_port_dummies(&mut g, PortConstraints::FixedPos);
    assert_eq!(res, Some(vec![1]));
    assert_eq!(g.nodes.len(), 3);
    assert_eq!(ends(&g), vec![(4, 0), (4, 0)]);
    assert_eq!(g.layers, vec![vec![2], vec![0]]);
}

#[test]
fn free_port_sides_change_nothing() {
    for c in [PortConstraints::Free, PortConstraints::Undefined] {
        let mut g = two_layers();
        let res = HierarchicalPortConstraintProcessor
            .process_northern_and_southern_port_dummies(&mut g, c);
        assert_eq!(res, None);
        assert_eq!(g.layers, vec![vec![0], vec![1, 2]]);
        assert_eq!(ends(&g), vec![(1, 4), (4, 2)]);
    }
}

#[test]
fn a_graph_without_layers_changes_nothing() {
    let mut g = LGraph { nodes: vec![], ports: vec![], edges: vec![], layers: vec![], layerless_nodes: vec![] };
    let res = HierarchicalPortConstraintProcessor
        .process_northern_and_southern_port_dummies(&mut g, PortConstraints::FixedSide);
    assert_eq!(res, None);
}

#[test]
fn side_dummies_are_chained_up_to_the_first_other_node() {
    let mut nodes = Vec::new();
    for (i, side) in [PortSide::West, PortSide::North, PortSide::East].iter().enumerate() {
        let mut n = node(NodeType::ExternalPort, vec![], 0);
        n.ext_port_side = Some(*side);
        n.in_layer_successor_constraints = if i == 0 { vec![9] } else { vec![] };
        nodes.push(n);
    }
    nodes.push(node(NodeType::Normal, vec![], 0));
    let mut last = node(NodeType::ExternalPort, vec![], 0);
    last.ext_port_side = Some(PortSide::West);
    nodes.push(last);
    let mut g = LGraph { nodes, ports: vec![], edges: vec![], layers: vec![vec![0, 1, 2, 3, 4]], layerless_nodes: vec![] };
    chain_side_dummies(&mut g, &vec![0, 1, 2, 3, 4]);
    assert_eq!(g.nodes[0].in_layer_successor_constraints, vec![9, 2]);
    assert!(g.nodes[1].in_layer_successor_constraints.is_empty());
    assert!(g.nodes[2].in_layer_successor_constraints.is_empty());
    assert!(g.nodes[4].in_layer_successor_constraints.is_empty());
    // a normal node first ends the walk at once
    chain_side_dummies(&mut g, &vec![3, 4, 0]);
    assert_eq!(g.nodes[4].in_layer_successor_constraints, Vec::<usize>::new());
    assert_eq!(g.nodes[0].in_layer_successor_constraints, vec![9, 2]);
}

#[test]
fn order_fixed_port_constraints() {
    assert!(!PortConstraints::FixedSide.is_order_fixed());
    assert!(PortConstraints::FixedOrder.is_order_fixed());
    assert!(PortConstraints::FixedRatio.is_order_fixed());
    assert!(PortConstraints::FixedPos.is_order_fixed());
    assert!(!PortConstraints::Free.is_order_fixed());
}

#[test]
fn north_south_dummies_come_back_and_their_stand_ins_leave() {
    let mut g = two_layers();
    let replaced = HierarchicalPortConstraintProcessor
        .process_northern_and_southern_port_dummies(&mut g, PortConstraints::FixedSide);
    let router = HierarchicalPortOrthogonalEdgeRouter;
    let restored = router.restore_north_south_dummies(&mut g, &replaced);
    assert_eq!(restored, vec![2]);
    assert_eq!(g.ports[4].side, PortSide::South);
    // each stand-in gets a northern port and an edge to the dummy's port
    assert_eq!(g.ports.len(), 11);
    assert_eq!((g.ports[9].node, g.ports[9].side), (Some(4), PortSide::North));
    assert_eq!((g.ports[10].node, g.ports[10].side), (Some(3), PortSide::North));
    assert_eq!(ends(&g), vec![(1, 5), (8, 2), (9, 4), (10, 4)]);
    assert_eq!(g.layers, vec![vec![0, 4], vec![1, 3, 2]]);
    assert_eq!(g.nodes[2].layer, Some(1));

    router.remove_temporary_north_south_dummies(&mut g);
    // the edges run to and from the dummy again; the connecting edges are
    // detached at ports of no node
    assert_eq!(ends(&g), vec![(1, 4), (4, 2), (11, 11), (12, 12)]);
    assert_eq!(g.ports[11].node, None);
    assert_eq!(g.ports[12].node, None);
    assert_eq!(g.layers, vec![vec![0], vec![1, 2]]);
    assert_eq!(g.nodes[3].layer, None);
    assert_eq!(g.nodes[4].layer, None);
}

#[test]
fn nothing_comes_back_without_a_list() {
    let mut g = two_layers();
    let restored = HierarchicalPortOrthogonalEdgeRouter.restore_north_south_dummies(&mut g, &None);
    assert!(restored.is_empty());
    assert_eq!(ends(&g), vec![(1, 4), (4, 2)]);
    assert_eq!(g.layers, vec![vec![0], vec![1, 2]]);
}

#[test]
fn nodes_without_stand_in_ports_are_left_alone() {
    let mut g = two_layers();
    HierarchicalPortOrthogonalEdgeRouter.remove_temporary_north_south_dummies(&mut g);
    assert_eq!(ends(&g), vec![(1, 4), (4, 2)]);
    assert_eq!(g.ports.len(), 5);
    assert_eq!(g.layers, vec![vec![0], vec![1, 2]]);
}
