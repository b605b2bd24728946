use elk_layered::constraints_postprocessor::ConstraintsPostprocessor;
use elk_layered::graph::{InLayerConstraint, LGraph, LNode, NodeType};
use elk_layered::in_layer_constraint_processor::InLayerConstraintProcessor;

fn layered(types: Vec<NodeType>, layers: Vec<Vec<usize>>) -> LGraph {
    let mut nodes: Vec<LNode> = types.into_iter().map(LNode::new).collect();
    for (l, layer) in layers.iter().enumerate() {
        for &n in layer {
            nodes[n].layer = Some(l);
        }
    }
    LGraph { nodes, ports: vec![], edges: vec![], layers, layerless_nodes: vec![] }
}

#[test]
fn in_layer_constraints_move_nodes_to_top_and_bottom() {
    let mut g = layered(vec![NodeType::Normal; 5], vec![vec![0, 1, 2, 3, 4]]);
    g.nodes[0].in_layer_constraint = Some(InLayerConstraint::Bottom);
    g.nodes[3].in_layer_constraint = Some(InLayerConstraint::Top);
    g.nodes[4].in_layer_constraint = Some(InLayerConstraint::Top);
    InLayerConstraintProcessor.process(&mut g);
    assert_eq!(g.layers, vec![vec![3, 4, 1, 2, 0]]);
}

#[test]
fn in_layer_constraints_twice_change_nothing_more() {
    let mut g = layered(vec![NodeType::Normal; 4], vec![vec![0, 1], vec![2, 3]]);
    g.nodes[0].in_layer_constraint = Some(InLayerConstraint::Bottom);
    g.nodes[3].in_layer_constraint = Some(InLayerConstraint::Top);
    InLayerConstraintProcessor.process(&mut g);
    let once = g.layers.clone();
    InLayerConstraintProcessor.process(&mut g);
    assert_eq!(g.layers, once);
    assert_eq!(once, vec![vec![1, 0], vec![3, 2]]);
}

#[test]
fn constraints_postprocessor_numbers_normal_nodes() {
    let mut g = layered(
        vec![NodeType::Normal, NodeType::LongEdge, NodeType::Normal, NodeType::LongEdge, NodeType::Normal],
        vec![vec![0, 1, 2], vec![3], vec![4]],
    );
    ConstraintsPostprocessor.process(&mut g);
    assert_eq!((g.nodes[0].layer_id, g.nodes[0].position_id), (Some(0), Some(0)));
    assert_eq!((g.nodes[2].layer_id, g.nodes[2].position_id), (Some(0), Some(1)));
    assert_eq!((g.nodes[4].layer_id, g.nodes[4].position_id), (Some(1), Some(0)));
    assert_eq!((g.nodes[1].layer_id, g.nodes[1].position_id), (None, None));
    assert_eq!((g.nodes[3].layer_id, g.nodes[3].position_id), (None, None));
}
