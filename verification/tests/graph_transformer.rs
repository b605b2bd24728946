use elk_layered::graph::{Alignment, InLayerConstraint, LGraph, LNode, LPort, LayerConstraint, NodeType, PortSide};
use elk_layered::graph_transformer::{
    get_mirrored_port_side_x, get_mirrored_port_side_y, mirror_alignment_x, mirror_alignment_y,
    mirror_node_label_placement_x, mirror_node_label_placement_y, transpose_alignment,
    transpose_node_label_placement, NodeLabelPlacement,
    mirror_in_layer_constraint_y, mirror_layer_constraint_x, mirror_padding_x,
    mirror_padding_y, reverse_index, transpose_layer_constraint, transpose_padding,
    transpose_port_side, transpose_vector, Direction, DirectionCongruency,
    GraphTransformer, KVector, Mode, Padding, TransformStep,
};

#[test]
fn port_sides_mirror_and_transpose() {
    assert_eq!(get_mirrored_port_side_x(PortSide::East), PortSide::West);
    assert_eq!(get_mirrored_port_side_x(PortSide::North), PortSide::North);
    assert_eq!(get_mirrored_port_side_y(PortSide::North), PortSide::South);
    assert_eq!(get_mirrored_port_side_y(PortSide::West), PortSide::West);
    assert_eq!(transpose_port_side(PortSide::North), PortSide::West);
    assert_eq!(transpose_port_side(PortSide::East), PortSide::South);
    assert_eq!(transpose_port_side(PortSide::Undefined), PortSide::Undefined);
    for s in [PortSide::North, PortSide::East, PortSide::South, PortSide::West] {
        assert_eq!(transpose_port_side(transpose_port_side(s)), s);
        assert_eq!(get_mirrored_port_side_x(get_mirrored_port_side_x(s)), s);
    }
}

#[test]
fn constraints_mirror_and_transpose() {
    assert_eq!(mirror_layer_constraint_x(LayerConstraint::First), LayerConstraint::Last);
    assert_eq!(mirror_layer_constraint_x(LayerConstraint::LastSeparate), LayerConstraint::FirstSeparate);
    assert_eq!(mirror_in_layer_constraint_y(InLayerConstraint::Top), InLayerConstraint::Bottom);
    assert_eq!(
        transpose_layer_constraint(Some(LayerConstraint::FirstSeparate), None),
        (Some(LayerConstraint::Unconstrained), Some(InLayerConstraint::Top))
    );
    assert_eq!(
        transpose_layer_constraint(None, Some(InLayerConstraint::Bottom)),
        (Some(LayerConstraint::LastSeparate), Some(InLayerConstraint::Unconstrained))
    );
    assert_eq!(
        transpose_layer_constraint(Some(LayerConstraint::First), None),
        (Some(LayerConstraint::First), None)
    );
}

#[test]
fn vectors_paddings_alignments_and_indices() {
    let mut v = KVector { x: 1, y: 2 };
    transpose_vector(&mut v);
    assert_eq!(v, KVector { x: 2, y: 1 });
    let p = Padding { top: 1, bottom: 2, left: 3, right: 4 };
    let mut q = p;
    mirror_padding_x(&mut q);
    assert_eq!(q, Padding { top: 1, bottom: 2, left: 4, right: 3 });
    let mut q = p;
    mirror_padding_y(&mut q);
    assert_eq!(q, Padding { top: 2, bottom: 1, left: 3, right: 4 });
    let mut q = p;
    transpose_padding(&mut q);
    assert_eq!(q, Padding { top: 3, bottom: 4, left: 1, right: 2 });
    assert_eq!(mirror_alignment_x(Alignment::Left), Alignment::Right);
    assert_eq!(reverse_index(Some(3)), Some(-3));
    assert_eq!(reverse_index(None), None);
}

#[test]
fn transformation_steps_by_direction() {
    let to = GraphTransformer::new(Mode::ToInternalLtr);
    let back = GraphTransformer::new(Mode::ToInputDirection);
    assert_eq!(to.transformation_steps(DirectionCongruency::ReadingDirection, Direction::Right), vec![]);
    assert_eq!(
        to.transformation_steps(DirectionCongruency::ReadingDirection, Direction::Left),
        vec![TransformStep::MirrorX]
    );
    assert_eq!(
        to.transformation_steps(DirectionCongruency::ReadingDirection, Direction::Up),
        vec![TransformStep::Transpose, TransformStep::MirrorY]
    );
    assert_eq!(
        back.transformation_steps(DirectionCongruency::ReadingDirection, Direction::Up),
        vec![TransformStep::MirrorY, TransformStep::Transpose]
    );
    assert_eq!(
        to.transformation_steps(DirectionCongruency::Rotation, Direction::Down),
        vec![TransformStep::Transpose, TransformStep::MirrorX]
    );
    assert_eq!(
        back.transformation_steps(DirectionCongruency::Rotation, Direction::Down),
        vec![TransformStep::MirrorX, TransformStep::Transpose]
    );
}

fn sided_graph() -> LGraph {
    let mut n = LNode::new(NodeType::Normal);
    n.ports = vec![0, 1, 2, 3];
    let mut ext = LNode::new(NodeType::ExternalPort);
    ext.ext_port_side = Some(PortSide::North);
    ext.layer_constraint = Some(LayerConstraint::FirstSeparate);
    let sides = [PortSide::North, PortSide::East, PortSide::South, PortSide::West];
    let ports = sides
        .iter()
        .enumerate()
        .map(|(i, s)| {
            let mut p = LPort::new();
            p.node = Some(0);
            p.side = *s;
            p.port_index = Some(i as i32);
            p
        })
        .collect();
    LGraph { nodes: vec![n, ext], ports, edges: vec![], layers: vec![], layerless_nodes: vec![] }
}

#[test]
fn process_then_back_restores_port_sides() {
    for congruency in [DirectionCongruency::ReadingDirection, DirectionCongruency::Rotation] {
        for direction in [Direction::Left, Direction::Down, Direction::Up, Direction::Right] {
            let mut g = sided_graph();
            GraphTransformer::new(Mode::ToInternalLtr).process(&mut g, congruency, direction);
            GraphTransformer::new(Mode::ToInputDirection).process(&mut g, congruency, direction);
            let back = sided_graph();
            for p in 0..4 {
                assert_eq!(g.ports[p].side, back.ports[p].side);
                assert_eq!(g.ports[p].port_index, back.ports[p].port_index);
            }
            assert_eq!(g.nodes[1].ext_port_side, Some(PortSide::North));
        }
    }
}

#[test]
fn process_mirrors_leftward_graphs() {
    let mut g = sided_graph();
    GraphTransformer::new(Mode::ToInternalLtr).process(
        &mut g,
        DirectionCongruency::ReadingDirection,
        Direction::Left,
    );
    assert_eq!(g.ports[1].side, PortSide::West);
    assert_eq!(g.ports[3].side, PortSide::East);
    assert_eq!(g.ports[0].side, PortSide::North);
    assert_eq!(g.nodes[1].layer_constraint, Some(LayerConstraint::LastSeparate));
}

#[test]
fn process_turns_node_alignments() {
    let mut g = sided_graph();
    g.nodes[0].alignment = Some(Alignment::Left);
    GraphTransformer::new(Mode::ToInternalLtr).process(
        &mut g,
        DirectionCongruency::ReadingDirection,
        Direction::Left,
    );
    assert_eq!(g.nodes[0].alignment, Some(Alignment::Right));
    assert_eq!(g.nodes[1].alignment, None);
    GraphTransformer::new(Mode::ToInputDirection).process(
        &mut g,
        DirectionCongruency::ReadingDirection,
        Direction::Left,
    );
    assert_eq!(g.nodes[0].alignment, Some(Alignment::Left));
}

#[test]
fn process_then_back_restores_alignments() {
    let all = [
        Alignment::Automatic,
        Alignment::Left,
        Alignment::Right,
        Alignment::Top,
        Alignment::Bottom,
        Alignment::Center,
    ];
    for congruency in [DirectionCongruency::ReadingDirection, DirectionCongruency::Rotation] {
        for direction in [Direction::Left, Direction::Down, Direction::Up, Direction::Right] {
            for a in all {
                let mut g = sided_graph();
                g.nodes[0].alignment = Some(a);
                GraphTransformer::new(Mode::ToInternalLtr).process(&mut g, congruency, direction);
                GraphTransformer::new(Mode::ToInputDirection).process(&mut g, congruency, direction);
                assert_eq!(g.nodes[0].alignment, Some(a));
            }
        }
    }
}

#[test]
fn alignments_mirror_and_transpose() {
    assert_eq!(mirror_alignment_y(Alignment::Top), Alignment::Bottom);
    assert_eq!(mirror_alignment_y(Alignment::Bottom), Alignment::Top);
    assert_eq!(mirror_alignment_y(Alignment::Left), Alignment::Left);
    assert_eq!(transpose_alignment(Alignment::Left), Alignment::Top);
    assert_eq!(transpose_alignment(Alignment::Right), Alignment::Bottom);
    assert_eq!(transpose_alignment(Alignment::Top), Alignment::Left);
    assert_eq!(transpose_alignment(Alignment::Bottom), Alignment::Right);
    assert_eq!(transpose_alignment(Alignment::Center), Alignment::Center);
}

fn placement() -> NodeLabelPlacement {
    NodeLabelPlacement {
        h_left: false,
        h_center: false,
        h_right: false,
        v_top: false,
        v_center: false,
        v_bottom: false,
        inside: false,
        outside: false,
        h_priority: false,
    }
}

#[test]
fn label_placements_mirror_and_transpose() {
    let mut p = placement();
    p.h_left = true;
    p.v_top = true;
    p.inside = true;
    let mx = mirror_node_label_placement_x(p);
    assert!(mx.h_right && !mx.h_left && mx.v_top);
    let my = mirror_node_label_placement_y(p);
    assert!(my.v_bottom && !my.v_top && my.h_left);
    let t = transpose_node_label_placement(p);
    // left becomes top, top becomes left; inside stays, priority flips
    assert!(t.v_top && t.h_left && t.inside && !t.outside && t.h_priority);
    assert!(!t.v_center && !t.v_bottom && !t.h_center && !t.h_right);
    // an empty placement stays empty
    assert_eq!(transpose_node_label_placement(placement()), placement());
}

#[test]
fn process_turns_node_label_placements() {
    let mut g = sided_graph();
    let placement = NodeLabelPlacement {
        h_left: true,
        h_center: false,
        h_right: false,
        v_top: true,
        v_center: false,
        v_bottom: false,
        inside: true,
        outside: false,
        h_priority: false,
    };
    g.nodes[0].label_placement = Some(placement);
    // to the internal direction from a leftward one: mirrored along x
    GraphTransformer::new(Mode::ToInternalLtr).process(
        &mut g,
        DirectionCongruency::ReadingDirection,
        Direction::Left,
    );
    assert_eq!(
        g.nodes[0].label_placement,
        Some(NodeLabelPlacement { h_left: false, h_right: true, ..placement })
    );
    assert_eq!(g.nodes[1].label_placement, None);
    GraphTransformer::new(Mode::ToInputDirection).process(
        &mut g,
        DirectionCongruency::ReadingDirection,
        Direction::Left,
    );
    assert_eq!(g.nodes[0].label_placement, Some(placement));
}

#[test]
fn process_without_steps_accepts_any_port_index() {
    let mut g = sided_graph();
    g.ports[0].port_index = Some(i32::MIN);
    GraphTransformer::new(Mode::ToInternalLtr).process(
        &mut g,
        DirectionCongruency::ReadingDirection,
        Direction::Right,
    );
    assert_eq!(g.ports[0].port_index, Some(i32::MIN));
}
