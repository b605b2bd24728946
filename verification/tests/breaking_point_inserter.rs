use elk_layered::breaking_point_info::BreakingPointInfo;
use elk_layered::breaking_point_inserter::{
    compute_edge_spans, contains_edge, cut_next, cut_self_or_next, offset_assigned_cut,
    pass_layer, remove_edge, BreakingPointInserter, CutState,
};
use elk_layered::graph::{LEdge, LGraph, LNode, LPort, NodeType, PortSide};

fn cuts(indexes: &[i32]) -> Vec<CutState> {
    let n = indexes.len();
    (0..n)
        .map(|i| CutState {
            index: indexes[i],
            new_index: indexes[i],
            prev: if i > 0 { Some(i - 1) } else { None },
            suc: if i + 1 < n { Some(i + 1) } else { None },
            assigned: false,
        })
        .collect()
}

#[test]
fn breaking_point_info_new_has_no_neighbours() {
    let info = BreakingPointInfo::new(1, 2, 3, 4, 5);
    assert_eq!((info.start, info.end), (1, 2));
    assert_eq!((info.node_start_edge, info.start_end_edge, info.original_edge), (3, 4, 5));
    assert!(info.start_in_layer_dummy.is_none() && info.start_in_layer_edge.is_none());
    assert!(info.end_in_layer_dummy.is_none() && info.end_in_layer_edge.is_none());
    assert!(info.prev.is_none() && info.next.is_none());
}

#[test]
fn cut_self_or_next_skips_assigned_cuts() {
    let mut c = cuts(&[2, 4, 6]);
    assert_eq!(cut_self_or_next(&c, Some(0)), Some(0));
    c[0].assigned = true;
    c[1].assigned = true;
    assert_eq!(cut_self_or_next(&c, Some(0)), Some(2));
    c[2].assigned = true;
    assert_eq!(cut_self_or_next(&c, Some(0)), None);
    assert_eq!(cut_self_or_next(&c, None), None);
}

#[test]
fn cut_next_starts_after_the_cut() {
    let mut c = cuts(&[2, 4, 6]);
    assert_eq!(cut_next(&c, 0), Some(1));
    c[1].assigned = true;
    assert_eq!(cut_next(&c, 0), Some(2));
    assert_eq!(cut_next(&c, 2), None);
}

#[test]
fn offset_assigned_cut_moves_neighbours_up_to_assigned_cuts() {
    let mut c = cuts(&[2, 4, 6, 8, 10]);
    c[0].assigned = true;
    c[2].assigned = true;
    c[2].new_index = 7;
    offset_assigned_cut(&mut c, 2);
    let idx: Vec<i32> = c.iter().map(|s| s.index).collect();
    assert_eq!(idx, vec![2, 5, 7, 9, 11]);
}

#[test]
fn offset_unassigned_cut_changes_nothing() {
    let mut c = cuts(&[2, 4]);
    c[1].new_index = 9;
    let expected = c.clone();
    offset_assigned_cut(&mut c, 1);
    assert_eq!(c, expected);
}

#[test]
fn contains_and_remove_edge() {
    let mut v = vec![3, 5, 3, 7];
    assert!(contains_edge(&v, 5));
    assert!(!contains_edge(&v, 4));
    remove_edge(&mut v, 3);
    assert_eq!(v, vec![5, 3, 7]);
    remove_edge(&mut v, 9);
    assert_eq!(v, vec![5, 3, 7]);
}

fn port(node: usize, side: PortSide) -> LPort {
    let mut p = LPort::new();
    p.node = Some(node);
    p.side = side;
    p
}

/// Four layers with one node each; edges 0->2, 0->1, 1->3 and an in-layer edge 2->2.
fn layered() -> LGraph {
    let mut nodes = Vec::new();
    let mut ports = Vec::new();
    for i in 0..4usize {
        let mut n = LNode::new(NodeType::Normal);
        n.ports = vec![2 * i, 2 * i + 1];
        n.layer = Some(i);
        nodes.push(n);
        ports.push(port(i, PortSide::West));
        ports.push(port(i, PortSide::East));
    }
    let e = |s: usize, t: usize| LEdge { source: s, target: t, reversed: false };
    LGraph {
        nodes,
        ports,
        edges: vec![e(1, 4), e(1, 2), e(3, 6), e(5, 4)],
        layers: vec![vec![0], vec![1], vec![2], vec![3]],
        layerless_nodes: vec![],
    }
}

#[test]
fn compute_edge_spans_counts_open_edges() {
    let g = layered();
    assert_eq!(compute_edge_spans(&g), vec![0, 2, 2, 1, 0]);
}

#[test]
fn compute_edge_spans_of_empty_graph() {
    let g = LGraph { nodes: vec![], ports: vec![], edges: vec![], layers: vec![], layerless_nodes: vec![] };
    assert_eq!(compute_edge_spans(&g), vec![0]);
}

/// Three layers with one node each; edges 0->1, 0->2 and 1->2.
fn three_layers() -> LGraph {
    let mut nodes = Vec::new();
    let mut ports = Vec::new();
    for i in 0..3usize {
        let mut n = LNode::new(NodeType::Normal);
        n.ports = vec![2 * i, 2 * i + 1];
        n.layer = Some(i);
        nodes.push(n);
        ports.push(port(i, PortSide::West));
        ports.push(port(i, PortSide::East));
    }
    let e = |s: usize, t: usize| LEdge { source: s, target: t, reversed: false };
    LGraph {
        nodes,
        ports,
        edges: vec![e(1, 2), e(1, 4), e(3, 4)],
        layers: vec![vec![0], vec![1], vec![2]],
        layerless_nodes: vec![],
    }
}

#[test]
fn pass_layer_opens_leaving_and_closes_entering_edges() {
    let g = three_layers();
    let mut open = Vec::new();
    pass_layer(&g, &mut open, 0);
    assert_eq!(open, vec![0, 1]);
    pass_layer(&g, &mut open, 1);
    assert_eq!(open, vec![1, 2]);
    pass_layer(&g, &mut open, 2);
    assert!(open.is_empty());
}

#[test]
fn apply_cuts_leads_open_edges_through_breaking_points() {
    let mut g = three_layers();
    let mut infos = Vec::new();
    let split = BreakingPointInserter.apply_cuts(&mut g, &mut infos, &vec![1]);
    assert_eq!(split, 2);
    assert_eq!(g.layers, vec![vec![0], vec![3, 5], vec![4, 6], vec![1], vec![2]]);
    assert_eq!(g.nodes[1].layer, Some(3));
    assert_eq!(g.nodes[2].layer, Some(4));
    assert_eq!(g.nodes[3].node_type, NodeType::BreakingPoint);
    assert_eq!(g.nodes[3].ports, vec![6, 7]);
    assert_eq!(g.nodes[3].breaking_point_info, Some(0));
    assert_eq!(g.nodes[6].breaking_point_info, Some(1));
    assert_eq!(g.ports[6].side, PortSide::West);
    assert_eq!(g.ports[7].side, PortSide::East);
    assert_eq!((g.edges[0].source, g.edges[0].target), (9, 2));
    assert_eq!((g.edges[3].source, g.edges[3].target), (1, 6));
    assert_eq!((g.edges[4].source, g.edges[4].target), (7, 8));
    assert_eq!((g.edges[1].source, g.edges[1].target), (13, 4));
    assert_eq!(infos.len(), 2);
    assert_eq!((infos[1].start, infos[1].end, infos[1].original_edge), (5, 6, 1));
    assert_eq!((infos[1].node_start_edge, infos[1].start_end_edge), (5, 6));
    assert!(infos[0].prev.is_none() && infos[0].next.is_none());
}

#[test]
fn apply_cuts_links_consecutive_breaking_points() {
    let mut g = three_layers();
    let mut infos = Vec::new();
    let split = BreakingPointInserter.apply_cuts(&mut g, &mut infos, &vec![1, 3]);
    // the second cut lies behind the first pair of breaking point layers
    assert_eq!(split, 2);
    assert_eq!(g.layers.len(), 7);
    assert_eq!(infos.len(), 4);
    assert_eq!(infos[0].next, Some(2));
    assert_eq!(infos[2].prev, Some(0));
    assert_eq!(infos[1].next, Some(3));
    assert_eq!(infos[3].prev, Some(1));
}

#[test]
fn apply_cuts_without_cuts_changes_nothing() {
    let mut g = three_layers();
    let mut infos = Vec::new();
    assert_eq!(BreakingPointInserter.apply_cuts(&mut g, &mut infos, &vec![]), 0);
    assert_eq!(g.layers, vec![vec![0], vec![1], vec![2]]);
    assert!(infos.is_empty());
}

#[test]
fn apply_cuts_right_behind_breaking_points_splits_their_edges_too() {
    // two layers with one node each and one edge; cutting behind layer 0 and
    // again behind the new start marker layer also splits the edge between
    // the markers, so the edges double from cut to cut
    let mut nodes = Vec::new();
    let mut ports = Vec::new();
    for i in 0..2usize {
        let mut n = LNode::new(NodeType::Normal);
        n.ports = vec![2 * i, 2 * i + 1];
        n.layer = Some(i);
        nodes.push(n);
        ports.push(port(i, PortSide::West));
        ports.push(port(i, PortSide::East));
    }
    let mut g = LGraph {
        nodes,
        ports,
        edges: vec![LEdge { source: 1, target: 2, reversed: false }],
        layers: vec![vec![0], vec![1]],
        layerless_nodes: vec![],
    };
    let mut infos = Vec::new();
    let split = BreakingPointInserter.apply_cuts(&mut g, &mut infos, &vec![1, 2]);
    assert_eq!(split, 2);
    assert_eq!(g.edges.len(), 7);
    assert_eq!(infos.len(), 3);
}
