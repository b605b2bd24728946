use elk_layered::comment_postprocessor::CommentPostprocessor;
use elk_layered::graph::{LEdge, LGraph, LNode, LPort, NodeType};

/// Node 0 in layer 0 without ports; comment box 1 outside the layers with
/// port 1, whose edge runs to port 2. The box was connected to port 0,
/// which belongs to no node.
fn commented() -> LGraph {
    let mut node = LNode::new(NodeType::Normal);
    node.layer = Some(0);
    let mut comment = LNode::new(NodeType::Normal);
    comment.ports = vec![1];
    comment.comment_box = Some(true);
    comment.comment_conn_port = Some(0);
    let mut box_port = LPort::new();
    box_port.node = Some(1);
    LGraph {
        nodes: vec![node, comment],
        ports: vec![LPort::new(), box_port, LPort::new()],
        edges: vec![LEdge { source: 1, target: 2, reversed: false }],
        layers: vec![vec![0]],
        layerless_nodes: vec![1],
    }
}

#[test]
fn comment_boxes_come_back_to_their_node() {
    let mut g = commented();
    CommentPostprocessor.process(&mut g, &vec![Some(vec![1]), None], &vec![]);
    // the box's edge enters the connection port, which returns to node 0
    assert_eq!((g.edges[0].source, g.edges[0].target), (1, 0));
    assert_eq!(g.ports[0].node, Some(0));
    assert_eq!(g.nodes[0].ports, vec![0]);
    // the box joins the layer of its node
    assert_eq!(g.layers, vec![vec![0, 1]]);
    assert_eq!(g.nodes[1].layer, Some(0));
}

#[test]
fn a_connection_port_with_more_edges_stays_where_it_is() {
    let mut g = commented();
    g.edges.push(LEdge { source: 2, target: 0, reversed: false });
    CommentPostprocessor.process(&mut g, &vec![], &vec![Some(vec![1]), None]);
    assert_eq!((g.edges[0].source, g.edges[0].target), (1, 0));
    assert_eq!(g.ports[0].node, None);
    assert!(g.nodes[0].ports.is_empty());
    assert_eq!(g.layers, vec![vec![0, 1]]);
}

#[test]
fn nodes_without_comments_are_left_alone() {
    let mut g = commented();
    CommentPostprocessor.process(&mut g, &vec![], &vec![]);
    assert_eq!((g.edges[0].source, g.edges[0].target), (1, 2));
    assert_eq!(g.layers, vec![vec![0]]);
    assert_eq!(g.nodes[1].layer, None);
}
