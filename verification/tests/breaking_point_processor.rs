use elk_layered::breaking_point_info::BreakingPointInfo;
use elk_layered::breaking_point_processor::{
    breaking_point_info, is_end, is_start,
    is_adjacent_or_separated_by_breaking_points, is_in_layer_dummy, next_long_edge_dummy,
    node_id, set_layer_at_index_clamped, set_node_id, update_indexes_after,
};
use elk_layered::graph::{LEdge, LGraph, LNode, LPort, NodeType, PortSide};

/// Nodes with one western (2i) and one eastern (2i + 1) port each.
fn graph(types: Vec<NodeType>, layers: Vec<Vec<usize>>, edges: Vec<(usize, usize)>) -> LGraph {
    let mut nodes = Vec::new();
    let mut ports = Vec::new();
    for (i, t) in types.into_iter().enumerate() {
        let mut n = LNode::new(t);
        n.ports = vec![2 * i, 2 * i + 1];
        nodes.push(n);
        let mut w = LPort::new();
        w.node = Some(i);
        w.side = PortSide::West;
        let mut e = LPort::new();
        e.node = Some(i);
        e.side = PortSide::East;
        ports.push(w);
        ports.push(e);
    }
    for (l, layer) in layers.iter().enumerate() {
        for (pos, &n) in layer.iter().enumerate() {
            nodes[n].layer = Some(l);
            nodes[n].id = pos as i32;
        }
    }
    let edges = edges.into_iter().map(|(s, t)| LEdge { source: s, target: t, reversed: false }).collect();
    LGraph { nodes, ports, edges, layers, layerless_nodes: vec![] }
}

#[test]
fn node_ids() {
    let mut g = graph(vec![NodeType::Normal; 2], vec![vec![0, 1]], vec![]);
    assert_eq!(node_id(&g, 1), 1);
    set_node_id(&mut g, 1, 7);
    assert_eq!(node_id(&g, 1), 7);
    assert_eq!(node_id(&g, 0), 0);
}

#[test]
fn in_layer_dummies() {
    // dummy 1 is linked to node 0 of its own layer; dummy 2 to node 3 of the next layer
    let g = graph(
        vec![NodeType::Normal, NodeType::LongEdge, NodeType::LongEdge, NodeType::Normal],
        vec![vec![0, 1, 2], vec![3]],
        vec![(1, 2), (5, 6)],
    );
    assert!(is_in_layer_dummy(&g, 1));
    assert!(!is_in_layer_dummy(&g, 2));
    assert!(!is_in_layer_dummy(&g, 0));
}

#[test]
fn next_long_edge_dummy_in_another_layer() {
    let g = graph(
        vec![NodeType::Normal, NodeType::LongEdge, NodeType::LongEdge],
        vec![vec![0, 2], vec![1]],
        vec![(1, 4), (1, 2)],
    );
    assert_eq!(next_long_edge_dummy(&g, 0, true), Some(1));
    assert_eq!(next_long_edge_dummy(&g, 0, false), None);
    assert_eq!(next_long_edge_dummy(&g, 1, false), None);
}

#[test]
fn adjacency_through_breaking_points() {
    let g = graph(
        vec![NodeType::LongEdge, NodeType::BreakingPoint, NodeType::Normal, NodeType::LongEdge],
        vec![vec![0, 1, 3, 2]],
        vec![],
    );
    // ids: 0 -> 0, 1 -> 1, 3 -> 2, 2 -> 3
    assert!(is_adjacent_or_separated_by_breaking_points(&g, 3, 0, true));
    assert!(is_adjacent_or_separated_by_breaking_points(&g, 0, 3, false));
    assert!(!is_adjacent_or_separated_by_breaking_points(&g, 2, 0, true));
    assert!(is_adjacent_or_separated_by_breaking_points(&g, 0, 3, true));
}

#[test]
fn update_indexes_after_decrements_later_ids() {
    let mut g = graph(vec![NodeType::Normal; 4], vec![vec![0, 1, 2, 3]], vec![]);
    update_indexes_after(&mut g, 1);
    let ids: Vec<i32> = g.nodes.iter().map(|n| n.id).collect();
    assert_eq!(ids, vec![0, 1, 1, 2]);
}

#[test]
fn set_layer_at_index_clamps() {
    let mut g = graph(vec![NodeType::Normal; 4], vec![vec![0, 1], vec![2, 3]], vec![]);
    set_layer_at_index_clamped(&mut g, 0, 9, 1);
    assert_eq!(g.layers, vec![vec![1], vec![2, 3, 0]]);
    assert_eq!(g.nodes[0].layer, Some(1));
    set_layer_at_index_clamped(&mut g, 1, -4, 1);
    assert_eq!(g.layers, vec![vec![], vec![1, 2, 3, 0]]);
}

#[test]
fn start_and_end_markers_of_a_record() {
    let mut g = graph(vec![NodeType::BreakingPoint, NodeType::BreakingPoint, NodeType::Normal], vec![vec![0], vec![1], vec![2]], vec![]);
    let infos = vec![BreakingPointInfo::new(0, 1, 0, 0, 0)];
    g.nodes[0].breaking_point_info = Some(0);
    g.nodes[1].breaking_point_info = Some(0);
    assert_eq!(breaking_point_info(&g, 0), Some(0));
    assert_eq!(breaking_point_info(&g, 2), None);
    assert!(is_start(&g, &infos, 0));
    assert!(!is_end(&g, &infos, 0));
    assert!(is_end(&g, &infos, 1));
    assert!(!is_start(&g, &infos, 1));
    assert!(!is_start(&g, &infos, 2) && !is_end(&g, &infos, 2));
}
