use elk_layered::graph::{LEdge, LGraph, LNode, LPort, NodeType, PortConstraints, PortSide};
use elk_layered::label_and_node_size_processor::{
    ensure_clockwise_port_order, find_port_side_range, label_next_to_port, reverse_range,
    reverse_west_and_south_side, side_ordinal,
};

fn graph_with_ports(ports: Vec<LPort>, edges: Vec<LEdge>) -> LGraph {
    LGraph { nodes: vec![], ports, edges, layers: vec![], layerless_nodes: vec![] }
}

fn port_on(side: PortSide) -> LPort {
    let mut p = LPort::new();
    p.side = side;
    p
}

#[test]
fn label_next_to_port_outside_path_does_not_deadlock() {
    let port = LPort::new();
    let g = graph_with_ports(vec![port], vec![]);
    assert!(!label_next_to_port(&g, 0, false, true));
}

#[test]
fn label_next_to_port_needs_the_wish() {
    let mut port = LPort::new();
    port.connected_to_external_nodes = false;
    let g = graph_with_ports(vec![port], vec![]);
    assert!(!label_next_to_port(&g, 0, false, false));
    assert!(!label_next_to_port(&g, 0, true, false));
    assert!(label_next_to_port(&g, 0, false, true));
}

#[test]
fn label_next_to_port_inside_only_without_edges() {
    let g = graph_with_ports(
        vec![LPort::new(), LPort::new(), LPort::new()],
        vec![LEdge { source: 0, target: 1, reversed: false }],
    );
    assert!(!label_next_to_port(&g, 0, true, true));
    assert!(!label_next_to_port(&g, 1, true, true));
    assert!(label_next_to_port(&g, 2, true, true));
}

#[test]
fn side_ordinal_follows_clockwise_order() {
    assert_eq!(side_ordinal(PortSide::Undefined), 0);
    assert_eq!(side_ordinal(PortSide::North), 1);
    assert_eq!(side_ordinal(PortSide::East), 2);
    assert_eq!(side_ordinal(PortSide::South), 3);
    assert_eq!(side_ordinal(PortSide::West), 4);
}

#[test]
fn find_port_side_range_bounds_one_side() {
    let g = graph_with_ports(
        vec![
            port_on(PortSide::North),
            port_on(PortSide::East),
            port_on(PortSide::South),
            port_on(PortSide::South),
            port_on(PortSide::West),
        ],
        vec![],
    );
    let ports = vec![0, 1, 2, 3, 4];
    assert_eq!(find_port_side_range(&g, &ports, PortSide::South), (2, 4));
    assert_eq!(find_port_side_range(&g, &ports, PortSide::West), (4, 5));
    assert_eq!(find_port_side_range(&g, &ports, PortSide::Undefined), (0, 0));
    assert_eq!(find_port_side_range(&g, &vec![], PortSide::South), (0, 0));
}

#[test]
fn reverse_range_reverses_only_the_range() {
    let mut v = vec![1, 2, 3, 4, 5];
    reverse_range(&mut v, 1, 4);
    assert_eq!(v, vec![1, 4, 3, 2, 5]);
    reverse_range(&mut v, 2, 3);
    assert_eq!(v, vec![1, 4, 3, 2, 5]);
    reverse_range(&mut v, 0, 5);
    assert_eq!(v, vec![5, 2, 3, 4, 1]);
}

#[test]
fn reverse_west_and_south_side_turns_both_sides() {
    let g = graph_with_ports(
        vec![
            port_on(PortSide::North),
            port_on(PortSide::South),
            port_on(PortSide::South),
            port_on(PortSide::West),
            port_on(PortSide::West),
            port_on(PortSide::West),
        ],
        vec![],
    );
    let mut ports = vec![0, 1, 2, 3, 4, 5];
    reverse_west_and_south_side(&g, &mut ports);
    assert_eq!(ports, vec![0, 2, 1, 5, 4, 3]);
    let mut single = vec![3];
    reverse_west_and_south_side(&g, &mut single);
    assert_eq!(single, vec![3]);
}

fn sided_node(sides: &[PortSide]) -> LGraph {
    let mut n = LNode::new(NodeType::Normal);
    n.ports = (0..sides.len()).collect();
    let ports = sides
        .iter()
        .map(|s| {
            let mut p = LPort::new();
            p.node = Some(0);
            p.side = *s;
            p
        })
        .collect();
    LGraph { nodes: vec![n], ports, edges: vec![], layers: vec![], layerless_nodes: vec![] }
}

#[test]
fn ports_are_put_in_clockwise_order() {
    let mut g = sided_node(&[
        PortSide::South,
        PortSide::North,
        PortSide::West,
        PortSide::East,
        PortSide::South,
        PortSide::West,
        PortSide::North,
    ]);
    ensure_clockwise_port_order(&mut g, 0, PortConstraints::FixedSide, &vec![]);
    // north and east keep their order, south and west are reversed
    assert_eq!(g.nodes[0].ports, vec![1, 6, 3, 4, 0, 5, 2]);
}

#[test]
fn clockwise_order_needs_free_port_order_and_original_edges() {
    let sides = [PortSide::West, PortSide::East, PortSide::North];
    for c in [PortConstraints::FixedOrder, PortConstraints::FixedPos, PortConstraints::Free] {
        let mut g = sided_node(&sides);
        ensure_clockwise_port_order(&mut g, 0, c, &vec![]);
        assert_eq!(g.nodes[0].ports, vec![0, 1, 2]);
    }
    let mut g = sided_node(&sides);
    g.edges.push(LEdge { source: 1, target: 0, reversed: false });
    ensure_clockwise_port_order(&mut g, 0, PortConstraints::FixedSide, &vec![false]);
    assert_eq!(g.nodes[0].ports, vec![0, 1, 2]);
    ensure_clockwise_port_order(&mut g, 0, PortConstraints::FixedSide, &vec![true]);
    assert_eq!(g.nodes[0].ports, vec![2, 1, 0]);
}
