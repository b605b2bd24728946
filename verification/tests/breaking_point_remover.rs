use elk_layered::breaking_point_inserter::BreakingPointInserter;
use elk_layered::breaking_point_remover::BreakingPointRemover;
use elk_layered::graph::{LEdge, LGraph, LNode, LPort, NodeType, PortSide};

fn port(node: usize, side: PortSide) -> LPort {
    let mut p = LPort::new();
    p.node = Some(node);
    p.side = side;
    p
}

/// Three layers with one node each; edges 0->1, 0->2 and 1->2.
fn three_layers() -> LGraph {
    let mut nodes = Vec::new();
    let mut ports = Vec::new();
    for i in 0..3usize {
        let mut n = LNode::new(NodeType::Normal);
        n.ports = vec![2 * i, 2 * i + 1];
        n.layer = Some(i);
        nodes.push(n);
        ports.push(port(i, PortSide::West));
        ports.push(port(i, PortSide::East));
    }
    let e = |s: usize, t: usize| LEdge { source: s, target: t, reversed: false };
    LGraph {
        nodes,
        ports,
        edges: vec![e(1, 2), e(1, 4), e(3, 4)],
        layers: vec![vec![0], vec![1], vec![2]],
        layerless_nodes: vec![],
    }
}

fn ends(g: &LGraph) -> Vec<(usize, usize)> {
    g.edges.iter().map(|e| (e.source, e.target)).collect()
}

#[test]
fn removing_breaking_points_gives_the_edges_back() {
    let mut g = three_layers();
    let mut infos = Vec::new();
    BreakingPointInserter.apply_cuts(&mut g, &mut infos, &vec![1]);
    assert_eq!(g.ports.len(), 14);
    BreakingPointRemover.process(&mut g, &infos);
    // the original edges run between the original nodes again; the helper
    // edges are detached at ports of no node
    assert_eq!(
        ends(&g),
        vec![(1, 2), (1, 4), (3, 4), (14, 14), (14, 14), (15, 15), (15, 15)]
    );
    assert_eq!(g.ports[14].node, None);
    assert_eq!(g.ports[15].node, None);
    assert_eq!(g.layers, vec![vec![0], vec![], vec![], vec![1], vec![2]]);
    for n in 3..7 {
        assert_eq!(g.nodes[n].layer, None);
    }
}

#[test]
fn removing_chained_breaking_points_follows_the_chain_back() {
    let mut g = three_layers();
    let mut infos = Vec::new();
    BreakingPointInserter.apply_cuts(&mut g, &mut infos, &vec![1, 3]);
    BreakingPointRemover.process(&mut g, &infos);
    assert_eq!(&ends(&g)[..3], &[(1, 2), (1, 4), (3, 4)]);
    for (l, layer) in g.layers.iter().enumerate() {
        for &n in layer {
            assert!(n < 3, "breaking point {} left in layer {}", n, l);
        }
    }
    for n in 3..g.nodes.len() {
        assert_eq!(g.nodes[n].layer, None);
    }
}

#[test]
fn without_breaking_points_nothing_changes() {
    let mut g = three_layers();
    BreakingPointRemover.process(&mut g, &Vec::new());
    assert_eq!(ends(&g), vec![(1, 2), (1, 4), (3, 4)]);
    assert_eq!(g.layers, vec![vec![0], vec![1], vec![2]]);
    assert_eq!(g.ports.len(), 6);
}
