use elk_layered::graph::{LEdge, LGraph, LNode, LPort, NodeType, PortSide};
use elk_layered::greedyswitch::between_layer_edge_two_node_crossings_counter::{
    count_crossings_by_merging_adjacency_lists, saturating_sum, sort_positions,
    BetweenLayerEdgeTwoNodeCrossingsCounter,
};
use elk_layered::greedyswitch::crossing_matrix_filler::{CrossMinType, CrossingMatrixFiller};
use elk_layered::greedyswitch::greedy_switch_heuristic::GreedySwitchHeuristic;
use elk_layered::greedyswitch::north_south_edge_neighbouring_node_crossings_counter::NorthSouthEdgeNeighbouringNodeCrossingsCounter;
use elk_layered::greedyswitch::switch_decider::{
    are_normal_and_north_south_port_dummy, constraints_prevent_switch, is_normal_node,
    is_north_south_port_node, switch_reduces_crossings, CrossingCountSide, ParentCrossingContext,
    SwitchDecider,
};

#[test]
fn merging_counts_crossings_both_ways() {
    assert_eq!(count_crossings_by_merging_adjacency_lists(&vec![1, 3], &vec![0, 2]), (3, 1));
    assert_eq!(count_crossings_by_merging_adjacency_lists(&vec![0, 2], &vec![1, 3]), (1, 3));
    assert_eq!(count_crossings_by_merging_adjacency_lists(&vec![], &vec![1, 3]), (0, 0));
    assert_eq!(count_crossings_by_merging_adjacency_lists(&vec![2, 2], &vec![2]), (0, 0));
}

#[test]
fn merging_agrees_with_counting_pairs() {
    let upper = vec![0, 1, 1, 4, 6];
    let lower = vec![1, 2, 5];
    let mut ul = 0;
    let mut lu = 0;
    for a in &upper {
        for b in &lower {
            if a > b {
                ul += 1;
            }
            if b > a {
                lu += 1;
            }
        }
    }
    assert_eq!(count_crossings_by_merging_adjacency_lists(&upper, &lower), (ul, lu));
}

#[test]
fn sorting_and_saturation() {
    assert_eq!(sort_positions(&vec![3, 1, 2, 1]), vec![1, 1, 2, 3]);
    assert_eq!(saturating_sum(i32::MAX, 1), i32::MAX);
    assert_eq!(saturating_sum(2, 3), 5);
}

fn port(node: usize, side: PortSide) -> LPort {
    let mut p = LPort::new();
    p.node = Some(node);
    p.side = side;
    p
}

/// Layers [0, 1] and [2, 3]; edges 0 -> 3 and 1 -> 2 cross.
fn crossing_graph() -> LGraph {
    let mut nodes = Vec::new();
    for i in 0..4usize {
        let mut n = LNode::new(NodeType::Normal);
        n.ports = vec![i];
        n.layer = Some(i / 2);
        nodes.push(n);
    }
    LGraph {
        nodes,
        ports: vec![
            port(0, PortSide::East),
            port(1, PortSide::East),
            port(2, PortSide::West),
            port(3, PortSide::West),
        ],
        edges: vec![LEdge { source: 0, target: 3, reversed: false }, LEdge { source: 1, target: 2, reversed: false }],
        layers: vec![vec![0, 1], vec![2, 3]],
        layerless_nodes: vec![],
    }
}

#[test]
fn between_layer_counter_counts_western_crossings() {
    let g = crossing_graph();
    let mut c = BetweenLayerEdgeTwoNodeCrossingsCounter::new(&g, vec![vec![0, 1], vec![2, 3]], 1);
    c.count_western_edge_crossings(2, 3);
    assert_eq!((c.upper_lower_crossings(), c.lower_upper_crossings()), (1, 0));
    c.count_eastern_edge_crossings(2, 3);
    assert_eq!((c.upper_lower_crossings(), c.lower_upper_crossings()), (0, 0));
    c.count_both_side_crossings(3, 2);
    assert_eq!((c.upper_lower_crossings(), c.lower_upper_crossings()), (0, 1));
    c.count_both_side_crossings(2, 2);
    assert_eq!((c.upper_lower_crossings(), c.lower_upper_crossings()), (0, 0));
}

#[test]
fn crossing_matrix_entries() {
    let mut g = crossing_graph();
    g.nodes[2].id = 0;
    g.nodes[3].id = 1;
    let order = vec![vec![0, 1], vec![2, 3]];
    let mut f = CrossingMatrixFiller::new(&g, CrossMinType::OneSidedGreedySwitch, &order, 1, CrossingCountSide::West);
    assert_eq!(f.crossing_matrix_entry(&g, 2, 3), 1);
    assert_eq!(f.crossing_matrix_entry(&g, 3, 2), 0);
    assert_eq!(f.crossing_matrix_entry(&g, 2, 3), 1);
}

#[test]
fn crossing_matrix_entry_outside_the_matrix_is_zero() {
    let mut g = crossing_graph();
    g.nodes[2].id = 0;
    g.nodes[3].id = 1;
    g.nodes[0].id = 7;
    let order = vec![vec![0, 1], vec![2, 3]];
    let mut f = CrossingMatrixFiller::new(&g, CrossMinType::TwoSidedGreedySwitch, &order, 1, CrossingCountSide::West);
    assert_eq!(f.crossing_matrix_entry(&g, 0, 3), 0);
    assert_eq!(f.crossing_matrix_entry(&g, 2, 0), 0);
    assert_eq!(f.crossing_matrix_entry(&g, 2, 3), 1);
}

#[test]
fn north_south_counter_without_dummies_counts_nothing() {
    let g = crossing_graph();
    let mut c = NorthSouthEdgeNeighbouringNodeCrossingsCounter::new(&g, &vec![2, 3]);
    c.count_crossings(&g, 2, 3);
    assert_eq!((c.upper_lower_crossings(), c.lower_upper_crossings()), (0, 0));
}

#[test]
fn heuristic_settings() {
    let mut h = GreedySwitchHeuristic::new(CrossMinType::OneSidedGreedySwitch, false);
    assert!(!h.always_improves());
    assert!(h.is_deterministic());
    assert_eq!(h.start_index(true, 5), 0);
    assert_eq!(h.start_index(false, 5), 4);
    assert_eq!(h.start_index(false, 0), 0);
    h.set_dont_sweep_into(true);
    assert!(h.dont_sweep_into);
    h.init_at_port_level();
    h.init_at_port_level();
    h.init_after_traversal();
    assert_eq!(h.port_positions, vec![0, 0]);
    let two = GreedySwitchHeuristic::new(CrossMinType::TwoSidedGreedySwitch, true);
    assert!(two.always_improves());
}

#[test]
fn node_kinds_and_parent_context() {
    let mut g = crossing_graph();
    g.nodes[3].node_type = NodeType::NorthSouthPort;
    assert!(is_normal_node(&g, 2));
    assert!(is_north_south_port_node(&g, 3));
    assert!(are_normal_and_north_south_port_dummy(&g, 2, 3));
    assert!(are_normal_and_north_south_port_dummy(&g, 3, 2));
    assert!(!are_normal_and_north_south_port_dummy(&g, 0, 1));
    let ctx = ParentCrossingContext::new(vec![vec![1]], vec![7], 2, true);
    assert_eq!(ctx.parent_layer_index, 2);
    assert!(ctx.right_most_layer);
    assert_eq!(ctx.parent_port_positions, vec![7]);
}

#[test]
fn constraints_that_prevent_a_switch() {
    let mut g = crossing_graph();
    // nodes 2 and 3 are normal nodes of the free layer without edges on their north or south sides
    assert!(!constraints_prevent_switch(&g, 2, 3));
    g.nodes[2].in_layer_successor_constraints = vec![3];
    assert!(constraints_prevent_switch(&g, 2, 3));
    assert!(!constraints_prevent_switch(&g, 3, 2));
    g.nodes[2].in_layer_successor_constraints = vec![];
    g.nodes[3].node_type = NodeType::NorthSouthPort;
    assert!(constraints_prevent_switch(&g, 2, 3));
    g.nodes[3].node_type = NodeType::Normal;
    g.nodes[2].in_layer_layout_unit = Some(0);
    assert!(constraints_prevent_switch(&g, 2, 3));
    g.nodes[2].in_layer_layout_unit = Some(2);
    assert!(!constraints_prevent_switch(&g, 2, 3));
}

#[test]
fn switch_reduces_crossings_weighs_both_orders() {
    let mut g = crossing_graph();
    assert!(switch_reduces_crossings(&g, 2, 3, (1, 0), (0, 0), (0, 0), (0, 0), None));
    assert!(!switch_reduces_crossings(&g, 2, 3, (1, 0), (0, 1), (0, 0), (0, 0), None));
    assert!(switch_reduces_crossings(&g, 2, 3, (1, 0), (2, 1), (0, 3), (4, 0), None));
    assert!(!switch_reduces_crossings(&g, 2, 3, (1, 0), (0, 0), (0, 0), (0, 0), Some((0, 2))));
    g.nodes[2].in_layer_successor_constraints = vec![3];
    assert!(!switch_reduces_crossings(&g, 2, 3, (5, 0), (0, 0), (0, 0), (0, 0), None));
}

#[test]
fn switch_decider_adds_the_matrix_counts() {
    let mut g = crossing_graph();
    g.nodes[2].id = 0;
    g.nodes[3].id = 1;
    let order = vec![vec![0, 1], vec![2, 3]];
    let f = CrossingMatrixFiller::new(&g, CrossMinType::OneSidedGreedySwitch, &order, 1, CrossingCountSide::West);
    let mut d = SwitchDecider::new(&g, &vec![2, 3], f);
    // node 2 above node 3 crosses once, the other order not at all
    assert!(d.does_switch_reduce_crossings(&g, 2, 3, (0, 0), (0, 0), None));
    assert!(!d.does_switch_reduce_crossings(&g, 3, 2, (0, 0), (0, 0), None));
    assert!(!d.does_switch_reduce_crossings(&g, 2, 3, (0, 2), (0, 0), None));
    assert!(d.does_switch_reduce_crossings(&g, 2, 3, (0, 2), (3, 0), Some((0, 1))));
}
