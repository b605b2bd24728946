use elk_layered::graph::{LEdge, LGraph, LNode, LPort, NodeType};
use elk_layered::graph_check::{is_well_formed, layers_are_listed, stand_ins_are_valid};

fn small() -> LGraph {
    let mut a = LNode::new(NodeType::Normal);
    a.ports = vec![0];
    a.layer = Some(0);
    let mut b = LNode::new(NodeType::Normal);
    b.ports = vec![1];
    b.layer = Some(1);
    let mut p = LPort::new();
    p.node = Some(0);
    let mut q = LPort::new();
    q.node = Some(1);
    LGraph {
        nodes: vec![a, b],
        ports: vec![p, q],
        edges: vec![LEdge { source: 0, target: 1, reversed: false }],
        layers: vec![vec![0], vec![1]],
        layerless_nodes: vec![],
    }
}

#[test]
fn a_sound_graph_passes_the_checks() {
    let g = small();
    assert!(is_well_formed(&g));
    assert!(layers_are_listed(&g));
    assert!(stand_ins_are_valid(&g));
}

#[test]
fn broken_graphs_fail_the_checks() {
    let mut g = small();
    g.edges[0].target = 5;
    assert!(!is_well_formed(&g));

    let mut g = small();
    g.layers[1].push(1);
    assert!(!is_well_formed(&g));

    let mut g = small();
    g.ports[1].node = Some(0);
    assert!(!is_well_formed(&g));

    let mut g = small();
    g.layers[1].clear();
    assert!(is_well_formed(&g));
    assert!(!layers_are_listed(&g));

    let mut g = small();
    g.nodes[0].ext_port_replaced_dummy = Some(9);
    assert!(!stand_ins_are_valid(&g));
}
