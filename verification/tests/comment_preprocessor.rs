use elk_layered::comment_preprocessor::CommentPreprocessor;
use elk_layered::graph::{LEdge, LGraph, LNode, LPort, NodeType};

/// Node 0 with port 0; comment box 1 with port 1, whose edge enters port 0.
fn commented() -> LGraph {
    let mut node = LNode::new(NodeType::Normal);
    node.ports = vec![0];
    let mut comment = LNode::new(NodeType::Normal);
    comment.ports = vec![1];
    comment.comment_box = Some(true);
    let mut p0 = LPort::new();
    p0.node = Some(0);
    let mut p1 = LPort::new();
    p1.node = Some(1);
    LGraph {
        nodes: vec![node, comment],
        ports: vec![p0, p1],
        edges: vec![LEdge { source: 1, target: 0, reversed: false }],
        layers: vec![],
        layerless_nodes: vec![0, 1],
    }
}

#[test]
fn a_comment_box_is_handed_to_its_node() {
    let mut g = commented();
    let mut top = vec![None, None];
    let mut bottom = vec![None, None];
    CommentPreprocessor.process(&mut g, &mut top, &mut bottom, &vec![None, None]);
    assert_eq!(top, vec![Some(vec![1]), None]);
    assert_eq!(bottom, vec![None, None]);
    assert_eq!(g.layerless_nodes, vec![0]);
    assert_eq!(g.nodes[1].comment_conn_port, Some(0));
    // the edge is detached at the node's port, which leaves the node
    assert_eq!(g.edges[0].source, 1);
    assert_eq!(g.edges[0].target, 2);
    assert_eq!(g.ports[2].node, None);
    assert_eq!(g.ports[0].node, None);
    assert!(g.nodes[0].ports.is_empty());
}

#[test]
fn labels_in_the_upper_half_send_the_box_below() {
    let mut g = commented();
    let mut top = vec![Some(vec![]), None];
    let mut bottom = vec![Some(vec![]), None];
    // node 0 has (empty) lists on both sides and its labels lie above
    CommentPreprocessor.process(&mut g, &mut top, &mut bottom, &vec![Some(false), None]);
    assert_eq!(top, vec![Some(vec![]), None]);
    assert_eq!(bottom, vec![Some(vec![1]), None]);
}

#[test]
fn a_box_with_two_edges_stays() {
    let mut g = commented();
    g.edges.push(LEdge { source: 1, target: 0, reversed: false });
    let mut top = vec![None, None];
    let mut bottom = vec![None, None];
    CommentPreprocessor.process(&mut g, &mut top, &mut bottom, &vec![None, None]);
    assert_eq!(g.layerless_nodes, vec![0, 1]);
    assert_eq!(top, vec![None, None]);
    assert_eq!(g.nodes[1].comment_conn_port, None);
}
